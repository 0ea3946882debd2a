use crate::error::{concat_str, duration_error, job_error, RenderError};
use crate::job_spec::{
    duration_secs, job_of_spec, job_outcome, jobspec_fields, jobspec_json_error, members_of,
    parse_error_text, valid_duration, JobSpec,
};
use crate::json_parse::parse_spec;
use crate::models::{
    backend_spec, choose_backend, duration_msg, parse_duration_secs, Container, EncodeBackend, OutputFormat,
    RenderJob,
};
use vstd::prelude::*;
use vstd::string::StringSliceAdditionalSpecFns;

verus! {

/// Command-line arguments of the renderer. Paths are kept as text.
#[derive(Debug, Clone)]
pub struct Args {
    /// JSON job file (Studio / automation). When set, flag fields below are ignored.
    pub job_file: Option<String>,
    /// Effect name (allowlisted saver basename, e.g. ripple)
    pub effect: Option<String>,
    /// Explicit path to plugin .so (skips discovery)
    pub plugin_path: Option<String>,
    /// RNG seed
    pub seed: u64,
    /// Output timeline fps
    pub fps: u32,
    /// Duration: 10s, 5m, 2h, 1d (or bare seconds)
    pub duration: String,
    /// Optional segment length for long encodes (e.g. 1h)
    pub segment: Option<String>,
    /// Optional audio bed (muxed after video)
    pub audio: Option<String>,
    /// Output path (.mkv recommended). Optional with `--dry-run`/`--stdout-raw`.
    pub output: Option<String>,
    /// Pixel width
    pub width: u32,
    /// Pixel height
    pub height: u32,
    /// Optional simulation grid columns
    pub cols: Option<usize>,
    /// Optional simulation grid rows
    pub rows: Option<usize>,
    /// Validate and print plan only
    pub dry_run: bool,
    /// Write raw BGRA dump instead of AV1 (debug/tests). Alias for `--format raw`.
    pub raw: bool,
    /// Resume: skip encode for existing non-empty segment parts
    pub resume: bool,
    /// AV1 quality 0–63 (CRF / CQ). Default 35.
    pub crf: u8,
    /// Encoder preset (SVT numeric or NVENC p1–p7)
    pub preset: Option<String>,
    /// Force ffmpeg video encoder name
    pub encoder: Option<String>,
    /// Force software AV1 only
    pub no_hw_encode: bool,
    /// Force CPU upscale
    pub no_gpu_upscale: bool,
    /// Output family: `mp4` (video, default), `png` (per-frame), `raw` (stdout BGRA).
    pub format: CliFormat,
    /// Container for video output: `mkv` (AV1 default) or `mp4` (H.264 default).
    pub container: CliContainer,
    /// Stream raw BGRA + 16-byte header to stdout. Equivalent to `--format raw`.
    pub stdout_raw: bool,
    /// Snapshot compare directory (when set, --snapshot-last-only compares last frame).
    pub baseline_dir: Option<String>,
    /// Overwrite baseline files instead of comparing (dev only).
    pub update_baselines: bool,
    /// Only compare final frame against baseline (skips all-but-last encode work).
    pub snapshot_last_only: bool,
    /// Force CPU rendering path (deterministic; bypass GPU variance for tests).
    pub cpu_raster: bool,
}

#[derive(Debug, Clone, Copy, PartialEq, Eq, Structural)]
pub enum CliFormat {
    Mp4,
    Png,
    Raw,
}

#[derive(Debug, Clone, Copy, PartialEq, Eq, Structural)]
pub enum CliContainer {
    Mkv,
    Mp4,
}

/// The format a `--format` value names (exact spelling).
pub open spec fn cli_format_spec(s: Seq<char>) -> Option<CliFormat> {
    if s == "mp4"@ {
        Some(CliFormat::Mp4)
    } else if s == "png"@ {
        Some(CliFormat::Png)
    } else if s == "raw"@ {
        Some(CliFormat::Raw)
    } else {
        None
    }
}

/// The container a `--container` value names (exact spelling).
pub open spec fn cli_container_spec(s: Seq<char>) -> Option<CliContainer> {
    if s == "mkv"@ {
        Some(CliContainer::Mkv)
    } else if s == "mp4"@ {
        Some(CliContainer::Mp4)
    } else {
        None
    }
}

/// The text of a string result's error, if any.
pub open spec fn str_err<T>(r: Result<T, String>) -> Option<Seq<char>> {
    match r {
        Ok(_) => None,
        Err(e) => Some(e@),
    }
}

/// `s` holds exactly the characters of `lit`.
fn same_chars(s: &str, lit: &str) -> (r: bool)
    ensures
        r == (s@ == lit@),
{
    let a = s.to_owned();
    let b = lit.to_owned();
    a == b
}

impl CliFormat {
    pub fn parse(s: &str) -> (res: Result<CliFormat, String>)
        ensures
            cli_format_spec(s@) matches Some(f) ==> res == Ok::<CliFormat, String>(f),
            cli_format_spec(s@) is None ==> str_err(res) == Some(
                "invalid value '"@ + s@ + "' for '--format' [possible values: mp4, png, raw]"@,
            ),
    {
        if same_chars(s, "mp4") {
            Ok(CliFormat::Mp4)
        } else if same_chars(s, "png") {
            Ok(CliFormat::Png)
        } else if same_chars(s, "raw") {
            Ok(CliFormat::Raw)
        } else {
            let head = concat_str("invalid value '", s);
            Err(concat_str(head.as_str(), "' for '--format' [possible values: mp4, png, raw]"))
        }
    }

    /// The output family this flag value selects.
    pub fn output_format(self) -> (f: OutputFormat)
        ensures
            f == cli_output_format(self),
    {
        match self {
            CliFormat::Mp4 => OutputFormat::Mp4,
            CliFormat::Png => OutputFormat::Png,
            CliFormat::Raw => OutputFormat::Raw,
        }
    }
}

impl CliContainer {
    pub fn parse(s: &str) -> (res: Result<CliContainer, String>)
        ensures
            cli_container_spec(s@) matches Some(c) ==> res == Ok::<CliContainer, String>(c),
            cli_container_spec(s@) is None ==> str_err(res) == Some(
                "invalid value '"@ + s@ + "' for '--container' [possible values: mkv, mp4]"@,
            ),
    {
        if same_chars(s, "mkv") {
            Ok(CliContainer::Mkv)
        } else if same_chars(s, "mp4") {
            Ok(CliContainer::Mp4)
        } else {
            let head = concat_str("invalid value '", s);
            Err(concat_str(head.as_str(), "' for '--container' [possible values: mkv, mp4]"))
        }
    }

    /// The container this flag value selects.
    pub fn to_container(self) -> (c: Container)
        ensures
            c == cli_container(self),
    {
        match self {
            CliContainer::Mkv => Container::Mkv,
            CliContainer::Mp4 => Container::Mp4,
        }
    }
}

pub open spec fn cli_output_format(f: CliFormat) -> OutputFormat {
    match f {
        CliFormat::Mp4 => OutputFormat::Mp4,
        CliFormat::Png => OutputFormat::Png,
        CliFormat::Raw => OutputFormat::Raw,
    }
}

pub open spec fn cli_container(c: CliContainer) -> Container {
    match c {
        CliContainer::Mkv => Container::Mkv,
        CliContainer::Mp4 => Container::Mp4,
    }
}

/// The output path a flag-driven run uses.
pub open spec fn flag_output(a: Args) -> Option<Seq<char>> {
    match a.output {
        Some(p) => Some(p@),
        None => if a.dry_run {
            Some("dry-run.mkv"@)
        } else if a.stdout_raw {
            Some("<stdout>"@)
        } else {
            None
        },
    }
}

/// The segment length of a flag-driven run is absent or valid.
pub open spec fn flag_segment_ok(a: Args) -> bool {
    match a.segment {
        Some(s) => valid_duration(s@),
        None => true,
    }
}

/// `job` is the render job the flags `a` describe.
pub open spec fn job_of_flags(a: Args, job: RenderJob) -> bool {
    &&& Some(job.effect) == a.effect
    &&& job.plugin_path == a.plugin_path
    &&& job.seed == a.seed
    &&& job.fps == a.fps
    &&& job.duration == duration_secs(a.duration@)
    &&& job.width == a.width
    &&& job.height == a.height
    &&& Some(job.output@) == flag_output(a)
    &&& job.cols == a.cols
    &&& job.rows == a.rows
    &&& job.dry_run == a.dry_run
    &&& job.segment == (match a.segment {
        Some(s) => Some(duration_secs(s@)),
        None => None,
    })
    &&& job.audio == a.audio
    &&& job.resume == a.resume
    &&& job.crf == a.crf
    &&& job.preset == a.preset
    &&& job.encoder == a.encoder
    &&& job.prefer_hw == !a.no_hw_encode
    &&& job.gpu_upscale == !a.no_gpu_upscale
    &&& job.format == (if a.raw || a.stdout_raw {
        OutputFormat::Raw
    } else {
        cli_output_format(a.format)
    })
    &&& job.container == cli_container(a.container)
    &&& job.baseline_dir == a.baseline_dir
    &&& job.snapshot_last_only == a.snapshot_last_only
    &&& job.update_baselines == a.update_baselines
    &&& job.cpu_raster == a.cpu_raster
}

/// Why the text `b` of the job file `path` does not read as a job spec,
/// as the job error names it; `None` when it reads.
pub open spec fn job_file_error(path: Seq<char>, b: Seq<u8>) -> Option<Seq<char>> {
    let head = "invalid job file "@ + path + ": "@;
    match parse_spec(b) {
        Err((m, p)) => Some(head + parse_error_text(b, m, p)),
        Ok(j) => match jobspec_json_error(j) {
            Some(m) => Some(head + m),
            None => None,
        },
    }
}

impl JobSpec {
    /// Read a job file's text; a bad document is a job error naming the
    /// file.
    pub fn from_job_file(path: &str, raw: &str) -> (res: Result<JobSpec, RenderError>)
        ensures
            job_file_error(path@, raw.spec_bytes()) matches Some(m) ==> job_error(res) == Some(m),
            job_file_error(path@, raw.spec_bytes()) is None ==> (res matches Ok(js)
                && jobspec_fields(js, members_of(parse_spec(raw.spec_bytes())->Ok_0))),
    {
        match JobSpec::from_json(raw) {
            Ok(s) => Ok(s),
            Err(e) => {
                let head = concat_str("invalid job file ", path);
                let mid = concat_str(head.as_str(), ": ");
                Err(RenderError::Job(concat_str(mid.as_str(), e.as_str())))
            },
        }
    }
}

impl Args {
    /// Build the render job the arguments describe. With `--job-file`, the
    /// caller reads that file and hands its text in `job_text`; the flags
    /// are then ignored.
    pub fn into_job(self, job_text: Option<&str>) -> (res: Result<(RenderJob, EncodeBackend), RenderError>)
        requires
            self.job_file is Some ==> job_text is Some,
        ensures
            self.job_file is None && self.effect is None ==> job_error(res) == Some(
                "--effect required without --job-file"@,
            ),
            self.job_file is None && self.effect is Some && flag_output(self) is None ==> job_error(
                res,
            ) == Some("--output required without --job-file (unless --dry-run/--stdout-raw)"@),
            self.job_file is None && self.effect is Some && flag_output(self) is Some
                && !valid_duration(self.duration@) ==> duration_error(res) == Some(
                duration_msg(self.duration@),
            ),
            self.job_file is None && self.effect is Some && flag_output(self) is Some
                && valid_duration(self.duration@) && !flag_segment_ok(self) ==> duration_error(res)
                == Some(duration_msg(self.segment->0@)),
            self.job_file is None ==> (res is Ok <==> (self.effect is Some && flag_output(self) is Some
                && valid_duration(self.duration@) && flag_segment_ok(self))),
            self.job_file is None ==> (res matches Ok((job, backend)) ==> job_of_flags(self, job)
                && backend == backend_spec(job.format, job.container, job.dry_run, self.stdout_raw)),
            self.job_file matches Some(path) ==> (job_file_error(path@, job_text->0.spec_bytes())
                matches Some(m) ==> job_error(res) == Some(m)),
            self.job_file matches Some(path) ==> (job_file_error(path@, job_text->0.spec_bytes())
                is None ==> exists|js: JobSpec|
                jobspec_fields(js, members_of(parse_spec(job_text->0.spec_bytes())->Ok_0))
                    && job_outcome(js, res)),
    {
        if let Some(path) = &self.job_file {
            let raw = match job_text {
                Some(t) => t,
                None => "",
            };
            let spec = match JobSpec::from_job_file(path.as_str(), raw) {
                Ok(s) => s,
                Err(e) => {
                    return Err(e);
                },
            };
            let ghost js = spec;
            let r = spec.into_job();
            proof {
                assert(job_outcome(js, r));
            }
            return r;
        }
        let effect = match self.effect {
            Some(e) => e,
            None => {
                return Err(RenderError::Job("--effect required without --job-file".to_owned()));
            },
        };
        let output = match self.output {
            Some(p) => p,
            None => if self.dry_run {
                "dry-run.mkv".to_owned()
            } else if self.stdout_raw {
                "<stdout>".to_owned()
            } else {
                return Err(
                    RenderError::Job(
                        "--output required without --job-file (unless --dry-run/--stdout-raw)".to_owned(),
                    ),
                );
            },
        };
        let duration = match parse_duration_secs(self.duration.as_str()) {
            Ok(d) => d,
            Err(e) => {
                return Err(e);
            },
        };
        let segment = match &self.segment {
            Some(s) => match parse_duration_secs(s.as_str()) {
                Ok(d) => Some(d),
                Err(e) => {
                    return Err(e);
                },
            },
            None => None,
        };
        let format = if self.raw || self.stdout_raw {
            OutputFormat::Raw
        } else {
            self.format.output_format()
        };
        let stdout_raw = self.stdout_raw;
        let job = RenderJob {
            effect,
            plugin_path: self.plugin_path,
            seed: self.seed,
            fps: self.fps,
            duration,
            width: self.width,
            height: self.height,
            output,
            cols: self.cols,
            rows: self.rows,
            dry_run: self.dry_run,
            segment,
            audio: self.audio,
            resume: self.resume,
            crf: self.crf,
            preset: self.preset,
            encoder: self.encoder,
            prefer_hw: !self.no_hw_encode,
            gpu_upscale: !self.no_gpu_upscale,
            format,
            container: self.container.to_container(),
            baseline_dir: self.baseline_dir,
            snapshot_last_only: self.snapshot_last_only,
            update_baselines: self.update_baselines,
            cpu_raster: self.cpu_raster,
        };
        let backend = choose_backend(job.format, job.container, job.dry_run, stdout_raw);
        Ok((job, backend))
    }
}

} // verus!
