use vstd::prelude::*;
use vstd::string::StringExecFns;

verus! {

/// Fallible render outcomes.
///
/// `Io` carries the path and the text of the operating-system error that
/// the I/O layer reported.
#[derive(Debug)]
pub enum RenderError {
    Duration(String),
    Job(String),
    Plugin(String),
    Raster(String),
    FfmpegMissing,
    Ffmpeg(String),
    Io { path: String, source: String },
    EmptyOutput,
}

/// The human-readable text of a render error.
pub open spec fn render_error_text(e: RenderError) -> Seq<char> {
    match e {
        RenderError::Duration(m) => "invalid duration: "@ + m@,
        RenderError::Job(m) => "invalid job: "@ + m@,
        RenderError::Plugin(m) => "plugin load failed: "@ + m@,
        RenderError::Raster(m) => "font/raster unavailable: "@ + m@,
        RenderError::FfmpegMissing => "ffmpeg not found on PATH"@,
        RenderError::Ffmpeg(m) => "ffmpeg failed: "@ + m@,
        RenderError::Io { path, source } => "io error on "@ + path@ + ": "@ + source@,
        RenderError::EmptyOutput => "encode cancelled or wrote zero frames"@,
    }
}

/// The message of a job error, if `res` is one.
pub open spec fn job_error<T>(res: Result<T, RenderError>) -> Option<Seq<char>> {
    match res {
        Err(RenderError::Job(m)) => Some(m@),
        _ => None,
    }
}

/// The message of a duration error, if `res` is one.
pub open spec fn duration_error<T>(res: Result<T, RenderError>) -> Option<Seq<char>> {
    match res {
        Err(RenderError::Duration(m)) => Some(m@),
        _ => None,
    }
}

/// `prefix` followed by `rest`, as a new string.
pub fn concat_str(prefix: &str, rest: &str) -> (s: String)
    ensures
        s@ == prefix@ + rest@,
{
    let mut s = prefix.to_owned();
    s.append(rest);
    s
}

impl RenderError {
    /// The message shown to users.
    pub fn to_string(&self) -> (s: String)
        ensures
            s@ == render_error_text(*self),
    {
        match self {
            RenderError::Duration(m) => concat_str("invalid duration: ", m.as_str()),
            RenderError::Job(m) => concat_str("invalid job: ", m.as_str()),
            RenderError::Plugin(m) => concat_str("plugin load failed: ", m.as_str()),
            RenderError::Raster(m) => concat_str("font/raster unavailable: ", m.as_str()),
            RenderError::FfmpegMissing => "ffmpeg not found on PATH".to_owned(),
            RenderError::Ffmpeg(m) => concat_str("ffmpeg failed: ", m.as_str()),
            RenderError::Io { path, source } => {
                let head = concat_str("io error on ", path.as_str());
                let mid = concat_str(head.as_str(), ": ");
                let s = concat_str(mid.as_str(), source.as_str());
                s
            },
            RenderError::EmptyOutput => "encode cancelled or wrote zero frames".to_owned(),
        }
    }
}

} // verus!
