# studio

The render engine and job queue of the IdleScreen studio, as a Verus
library: the functions in `src/` carry contracts that Verus proves. Three
small wrappers around std calls (`String::push`, `String::from_utf8` and
`char::from_u32`) have contracts that are believed, not proved.

## Layout

- `src/checksum.rs`, `bitio.rs`, `deflate.rs`, `zlib.rs`, `inflate.rs`,
  `png.rs`, `png_decode.rs`, `png_writer.rs`: CRC-32 and Adler-32, bit
  streams, a fixed-Huffman DEFLATE encoder with greedy LZ77 matching, an
  inflater (stored, fixed and dynamic blocks), and an RGBA8 PNG encoder
  and decoder.
- `src/deflate_laws.rs`, `src/png_laws.rs`: what one call undoes of
  another: fixed blocks and stored blocks inflate to their data, a zlib
  stream decodes to what was encoded, and a PNG decodes to its image.
- `src/json.rs`, `json_parse.rs`, `json_laws.rs`: an order-preserving JSON
  value, its compact and pretty writers, a parser with line and column
  errors, and the proof that the parser reads back what the writer wrote.
- `src/models.rs`, `job_spec.rs`, `cli.rs`, `cli_parse.rs`, `pipeline.rs`,
  `snapshot.rs`, `log.rs`, `error.rs`: render jobs, durations and segment
  plans, job files, the renderer's command line, snapshot comparison and
  log levels.
- `src/studio.rs`, `studio_cli.rs`, `studio_run.rs`: studio jobs, the job
  queue and its file format, the studio command line, the job `enqueue`
  builds, and the steps of running the queue.
- `app/`: one binary with two front ends: `render` (argument handling,
  file I/O, logging) and, when invoked as `idle-studio`, the queue tool
  (`enqueue`, `list`, `run`).
- `tests/`: tests on concrete values.
