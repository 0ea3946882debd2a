pub mod checksum;
pub mod bitio;
pub mod deflate;
pub mod zlib;
pub mod inflate;
pub mod text;
pub mod png;
pub mod png_decode;
pub mod error;
pub mod png_writer;
pub mod json;
pub mod json_parse;
pub mod models;
pub mod job_spec;
pub mod cli;
pub mod cli_parse;
pub mod snapshot;
pub mod log;
pub mod pipeline;
pub mod studio;
pub mod studio_cli;
pub mod json_laws;
pub mod deflate_laws;
pub mod png_laws;
pub mod studio_run;
pub mod filter_laws;
pub mod inflate_laws;
