use crate::error::{concat_str, duration_error, job_error, RenderError};
use crate::json::{find_member, json_u64, lookup, pair_models, Json, Value, json_text};
use crate::json_laws::{law_json_text_roundtrip, lemma_readable_pairs_from, readable};
use crate::json_parse::{parse, parse_spec, Error, line_at, col_at};
use crate::models::{
    all_digit_chars, ascii_lower, backend_spec, choose_backend, digit_chars_value, duration_msg,
    duration_value, law_bare_number_is_seconds, law_seconds_suffix, law_zero_is_invalid,
    parse_duration_secs, unit_secs,
    text_is, to_ascii_lowercase, Container, EncodeBackend, OutputFormat, RenderJob,
};
use crate::text::decimal_chars;
use vstd::prelude::*;
use vstd::string::StringSliceAdditionalSpecFns;
use vstd::utf8::encode_utf8;

verus! {

/// Serializable render request (string durations, JSON-friendly).
///
/// Paths are kept as text.
#[derive(Debug, Clone)]
pub struct JobSpec {
    pub effect: String,
    pub plugin_path: Option<String>,
    pub seed: u64,
    pub fps: u32,
    /// Human duration: `10s`, `5m`, `2h`, `1d`, or bare seconds.
    pub duration: String,
    pub output: String,
    pub width: u32,
    pub height: u32,
    pub cols: Option<usize>,
    pub rows: Option<usize>,
    pub dry_run: bool,
    pub raw: bool,
    pub segment: Option<String>,
    pub audio: Option<String>,
    pub resume: bool,
    pub crf: u8,
    pub preset: Option<String>,
    pub encoder: Option<String>,
    /// Prefer hardware AV1 when auto-detecting (default true).
    pub prefer_hw: bool,
    /// Request GPU upscale path (default true).
    pub gpu_upscale: bool,
    /// Output family (`mp4` / `png` / `raw`). Default `mp4`.
    pub format: Option<String>,
    /// Container (`mp4` / `mkv`). Default `mkv`.
    pub container: Option<String>,
    /// Optional baseline directory for snapshot comparison.
    pub baseline_dir: Option<String>,
    /// Only compare final frame against baseline.
    pub snapshot_last_only: bool,
    /// Overwrite baseline files instead of comparing.
    pub update_baselines: bool,
    /// Force CPU raster (deterministic; bypass GPU variance).
    pub cpu_raster: bool,
}

pub fn default_seed() -> (r: u64)
    ensures
        r == 0x00C0_FFEE,
{
    0x00C0_FFEE
}

pub fn default_fps() -> (r: u32)
    ensures
        r == 30,
{
    30
}

pub fn default_w() -> (r: u32)
    ensures
        r == 1280,
{
    1280
}

pub fn default_h() -> (r: u32)
    ensures
        r == 720,
{
    720
}

pub fn default_crf() -> (r: u8)
    ensures
        r == 35,
{
    35
}

/// The text of an optional string.
pub open spec fn opt_view(o: Option<String>) -> Option<Seq<char>> {
    match o {
        Some(s) => Some(s@),
        None => None,
    }
}

/// JSON for an optional text: the string, or `null`.
pub open spec fn opt_json(o: Option<String>) -> Json {
    match o {
        Some(s) => Json::Str(s@),
        None => Json::Null,
    }
}

/// JSON for an optional count: the number, or `null`.
pub open spec fn opt_usize_json(o: Option<usize>) -> Json {
    match o {
        Some(v) => Json::UInt(v as u64),
        None => Json::Null,
    }
}

/// The JSON object a job spec serializes to: every field, in declaration
/// order.
pub open spec fn jobspec_json(js: JobSpec) -> Json {
    Json::Object(
        seq![
            ("effect"@, Json::Str(js.effect@)),
            ("plugin_path"@, opt_json(js.plugin_path)),
            ("seed"@, Json::UInt(js.seed as u64)),
            ("fps"@, Json::UInt(js.fps as u64)),
            ("duration"@, Json::Str(js.duration@)),
            ("output"@, Json::Str(js.output@)),
            ("width"@, Json::UInt(js.width as u64)),
            ("height"@, Json::UInt(js.height as u64)),
            ("cols"@, opt_usize_json(js.cols)),
            ("rows"@, opt_usize_json(js.rows)),
            ("dry_run"@, Json::Bool(js.dry_run)),
            ("raw"@, Json::Bool(js.raw)),
            ("segment"@, opt_json(js.segment)),
            ("audio"@, opt_json(js.audio)),
            ("resume"@, Json::Bool(js.resume)),
            ("crf"@, Json::UInt(js.crf as u64)),
            ("preset"@, opt_json(js.preset)),
            ("encoder"@, opt_json(js.encoder)),
            ("prefer_hw"@, Json::Bool(js.prefer_hw)),
            ("gpu_upscale"@, Json::Bool(js.gpu_upscale)),
            ("format"@, opt_json(js.format)),
            ("container"@, opt_json(js.container)),
            ("baseline_dir"@, opt_json(js.baseline_dir)),
            ("snapshot_last_only"@, Json::Bool(js.snapshot_last_only)),
            ("update_baselines"@, Json::Bool(js.update_baselines)),
            ("cpu_raster"@, Json::Bool(js.cpu_raster)),
        ],
    )
}

/// `"missing field `key`"`.
pub open spec fn missing_msg(key: Seq<char>) -> Seq<char> {
    "missing field `"@ + key + "`"@
}

/// `"invalid type for `key`: expected what"`.
pub open spec fn type_msg(key: Seq<char>, what: Seq<char>) -> Seq<char> {
    "invalid type for `"@ + key + "`: expected "@ + what
}

/// A required string member.
pub open spec fn f_req_str(o: Seq<(Seq<char>, Json)>, key: Seq<char>) -> Result<Seq<char>, Seq<char>> {
    match lookup(o, key) {
        None => Err(missing_msg(key)),
        Some(Json::Str(s)) => Ok(s),
        Some(_) => Err(type_msg(key, "string"@)),
    }
}

/// An optional string member (`null` counts as absent).
pub open spec fn f_opt_str(o: Seq<(Seq<char>, Json)>, key: Seq<char>) -> Result<
    Option<Seq<char>>,
    Seq<char>,
> {
    match lookup(o, key) {
        None => Ok(None),
        Some(Json::Null) => Ok(None),
        Some(Json::Str(s)) => Ok(Some(s)),
        Some(_) => Err(type_msg(key, "string"@)),
    }
}

/// An optional count member (`null` counts as absent).
pub open spec fn f_opt_usize(o: Seq<(Seq<char>, Json)>, key: Seq<char>) -> Result<
    Option<usize>,
    Seq<char>,
> {
    match lookup(o, key) {
        None => Ok(None),
        Some(Json::Null) => Ok(None),
        Some(v) => match json_u64(v) {
            Some(u) => Ok(Some(u as usize)),
            None => Err(type_msg(key, "unsigned integer"@)),
        },
    }
}

/// A numeric member no larger than `max`, `dflt` when absent.
pub open spec fn f_num(o: Seq<(Seq<char>, Json)>, key: Seq<char>, dflt: nat, max: nat) -> Result<
    nat,
    Seq<char>,
> {
    match lookup(o, key) {
        None => Ok(dflt),
        Some(v) => match json_u64(v) {
            Some(u) => if u <= max {
                Ok(u as nat)
            } else {
                Err(type_msg(key, "unsigned integer"@))
            },
            None => Err(type_msg(key, "unsigned integer"@)),
        },
    }
}

/// A boolean member, `dflt` when absent.
pub open spec fn f_bool(o: Seq<(Seq<char>, Json)>, key: Seq<char>, dflt: bool) -> Result<
    bool,
    Seq<char>,
> {
    match lookup(o, key) {
        None => Ok(dflt),
        Some(Json::Bool(b)) => Ok(b),
        Some(_) => Err(type_msg(key, "bool"@)),
    }
}

/// The error of a member result, if any.
pub open spec fn err_of<T>(r: Result<T, Seq<char>>) -> Option<Seq<char>> {
    match r {
        Ok(_) => None,
        Err(m) => Some(m),
    }
}

/// The first member of `o`, in declaration order, that does not read as
/// its field; `None` when all do.
pub open spec fn jobspec_error(o: Seq<(Seq<char>, Json)>) -> Option<Seq<char>> {
    if f_req_str(o, "effect"@) is Err {
        err_of(f_req_str(o, "effect"@))
    } else if f_opt_str(o, "plugin_path"@) is Err {
        err_of(f_opt_str(o, "plugin_path"@))
    } else if f_num(o, "seed"@, 0x00C0FFEE as nat, u64::MAX as nat) is Err {
        err_of(f_num(o, "seed"@, 0x00C0FFEE as nat, u64::MAX as nat))
    } else if f_num(o, "fps"@, 30 as nat, u32::MAX as nat) is Err {
        err_of(f_num(o, "fps"@, 30 as nat, u32::MAX as nat))
    } else if f_req_str(o, "duration"@) is Err {
        err_of(f_req_str(o, "duration"@))
    } else if f_req_str(o, "output"@) is Err {
        err_of(f_req_str(o, "output"@))
    } else if f_num(o, "width"@, 1280 as nat, u32::MAX as nat) is Err {
        err_of(f_num(o, "width"@, 1280 as nat, u32::MAX as nat))
    } else if f_num(o, "height"@, 720 as nat, u32::MAX as nat) is Err {
        err_of(f_num(o, "height"@, 720 as nat, u32::MAX as nat))
    } else if f_opt_usize(o, "cols"@) is Err {
        err_of(f_opt_usize(o, "cols"@))
    } else if f_opt_usize(o, "rows"@) is Err {
        err_of(f_opt_usize(o, "rows"@))
    } else if f_bool(o, "dry_run"@, false) is Err {
        err_of(f_bool(o, "dry_run"@, false))
    } else if f_bool(o, "raw"@, false) is Err {
        err_of(f_bool(o, "raw"@, false))
    } else if f_opt_str(o, "segment"@) is Err {
        err_of(f_opt_str(o, "segment"@))
    } else if f_opt_str(o, "audio"@) is Err {
        err_of(f_opt_str(o, "audio"@))
    } else if f_bool(o, "resume"@, false) is Err {
        err_of(f_bool(o, "resume"@, false))
    } else if f_num(o, "crf"@, 35 as nat, u8::MAX as nat) is Err {
        err_of(f_num(o, "crf"@, 35 as nat, u8::MAX as nat))
    } else if f_opt_str(o, "preset"@) is Err {
        err_of(f_opt_str(o, "preset"@))
    } else if f_opt_str(o, "encoder"@) is Err {
        err_of(f_opt_str(o, "encoder"@))
    } else if f_bool(o, "prefer_hw"@, true) is Err {
        err_of(f_bool(o, "prefer_hw"@, true))
    } else if f_bool(o, "gpu_upscale"@, true) is Err {
        err_of(f_bool(o, "gpu_upscale"@, true))
    } else if f_opt_str(o, "format"@) is Err {
        err_of(f_opt_str(o, "format"@))
    } else if f_opt_str(o, "container"@) is Err {
        err_of(f_opt_str(o, "container"@))
    } else if f_opt_str(o, "baseline_dir"@) is Err {
        err_of(f_opt_str(o, "baseline_dir"@))
    } else if f_bool(o, "snapshot_last_only"@, false) is Err {
        err_of(f_bool(o, "snapshot_last_only"@, false))
    } else if f_bool(o, "update_baselines"@, false) is Err {
        err_of(f_bool(o, "update_baselines"@, false))
    } else if f_bool(o, "cpu_raster"@, false) is Err {
        err_of(f_bool(o, "cpu_raster"@, false))
    } else {
        None
    }
}

/// `js` holds what the members of `o` say, field by field.
pub open spec fn jobspec_fields(js: JobSpec, o: Seq<(Seq<char>, Json)>) -> bool {
    &&& f_req_str(o, "effect"@) == Ok::<Seq<char>, Seq<char>>(js.effect@)
    &&& f_opt_str(o, "plugin_path"@) == Ok::<Option<Seq<char>>, Seq<char>>(opt_view(js.plugin_path))
    &&& f_num(o, "seed"@, 0x00C0FFEE as nat, u64::MAX as nat) == Ok::<nat, Seq<char>>(js.seed as nat)
    &&& f_num(o, "fps"@, 30 as nat, u32::MAX as nat) == Ok::<nat, Seq<char>>(js.fps as nat)
    &&& f_req_str(o, "duration"@) == Ok::<Seq<char>, Seq<char>>(js.duration@)
    &&& f_req_str(o, "output"@) == Ok::<Seq<char>, Seq<char>>(js.output@)
    &&& f_num(o, "width"@, 1280 as nat, u32::MAX as nat) == Ok::<nat, Seq<char>>(js.width as nat)
    &&& f_num(o, "height"@, 720 as nat, u32::MAX as nat) == Ok::<nat, Seq<char>>(js.height as nat)
    &&& f_opt_usize(o, "cols"@) == Ok::<Option<usize>, Seq<char>>(js.cols)
    &&& f_opt_usize(o, "rows"@) == Ok::<Option<usize>, Seq<char>>(js.rows)
    &&& f_bool(o, "dry_run"@, false) == Ok::<bool, Seq<char>>(js.dry_run)
    &&& f_bool(o, "raw"@, false) == Ok::<bool, Seq<char>>(js.raw)
    &&& f_opt_str(o, "segment"@) == Ok::<Option<Seq<char>>, Seq<char>>(opt_view(js.segment))
    &&& f_opt_str(o, "audio"@) == Ok::<Option<Seq<char>>, Seq<char>>(opt_view(js.audio))
    &&& f_bool(o, "resume"@, false) == Ok::<bool, Seq<char>>(js.resume)
    &&& f_num(o, "crf"@, 35 as nat, u8::MAX as nat) == Ok::<nat, Seq<char>>(js.crf as nat)
    &&& f_opt_str(o, "preset"@) == Ok::<Option<Seq<char>>, Seq<char>>(opt_view(js.preset))
    &&& f_opt_str(o, "encoder"@) == Ok::<Option<Seq<char>>, Seq<char>>(opt_view(js.encoder))
    &&& f_bool(o, "prefer_hw"@, true) == Ok::<bool, Seq<char>>(js.prefer_hw)
    &&& f_bool(o, "gpu_upscale"@, true) == Ok::<bool, Seq<char>>(js.gpu_upscale)
    &&& f_opt_str(o, "format"@) == Ok::<Option<Seq<char>>, Seq<char>>(opt_view(js.format))
    &&& f_opt_str(o, "container"@) == Ok::<Option<Seq<char>>, Seq<char>>(opt_view(js.container))
    &&& f_opt_str(o, "baseline_dir"@) == Ok::<Option<Seq<char>>, Seq<char>>(opt_view(js.baseline_dir))
    &&& f_bool(o, "snapshot_last_only"@, false) == Ok::<bool, Seq<char>>(js.snapshot_last_only)
    &&& f_bool(o, "update_baselines"@, false) == Ok::<bool, Seq<char>>(js.update_baselines)
    &&& f_bool(o, "cpu_raster"@, false) == Ok::<bool, Seq<char>>(js.cpu_raster)
}

/// Why a JSON value does not read as a job spec, if it does not.
pub open spec fn jobspec_json_error(j: Json) -> Option<Seq<char>> {
    match j {
        Json::Object(o) => jobspec_error(o),
        _ => Some("invalid type: expected object"@),
    }
}

/// The members of an object value (empty for other values).
pub open spec fn members_of(j: Json) -> Seq<(Seq<char>, Json)> {
    match j {
        Json::Object(o) => o,
        _ => Seq::empty(),
    }
}

/// The output family a format name selects (case-insensitive).
pub open spec fn format_spec(s: Seq<char>) -> Option<OutputFormat> {
    let l = ascii_lower(s);
    if l == "mp4"@ || l == "video"@ {
        Some(OutputFormat::Mp4)
    } else if l == "png"@ || l == "pngs"@ || l == "png-sequence"@ || l == "png_sequence"@ {
        Some(OutputFormat::Png)
    } else if l == "raw"@ || l == "stdout"@ || l == "stdout-raw"@ || l == "stdout_raw"@ {
        Some(OutputFormat::Raw)
    } else {
        None
    }
}

/// The container a name selects (case-insensitive).
pub open spec fn container_spec(s: Seq<char>) -> Option<Container> {
    let l = ascii_lower(s);
    if l == "mkv"@ || l == "matroska"@ {
        Some(Container::Mkv)
    } else if l == "mp4"@ {
        Some(Container::Mp4)
    } else {
        None
    }
}

/// A duration text that reads as a positive number of seconds.
pub open spec fn valid_duration(s: Seq<char>) -> bool {
    duration_value(s) matches Some(v) && 0 < v <= u64::MAX
}

/// Seconds of a valid duration text.
pub open spec fn duration_secs(s: Seq<char>) -> u64 {
    duration_value(s)->0 as u64
}

fn parse_format(s: &str) -> (res: Result<OutputFormat, RenderError>)
    ensures
        format_spec(s@) matches Some(f) ==> res == Ok::<OutputFormat, RenderError>(f),
        format_spec(s@) is None ==> job_error(res) == Some(
            "unknown format '"@ + ascii_lower(s@) + "'"@,
        ),
{
    let l = to_ascii_lowercase(s);
    if text_is(&l, "mp4") || text_is(&l, "video") {
        Ok(OutputFormat::Mp4)
    } else if text_is(&l, "png") || text_is(&l, "pngs") || text_is(&l, "png-sequence") || text_is(
        &l,
        "png_sequence",
    ) {
        Ok(OutputFormat::Png)
    } else if text_is(&l, "raw") || text_is(&l, "stdout") || text_is(&l, "stdout-raw") || text_is(
        &l,
        "stdout_raw",
    ) {
        Ok(OutputFormat::Raw)
    } else {
        let head = concat_str("unknown format '", l.as_str());
        Err(RenderError::Job(concat_str(head.as_str(), "'")))
    }
}

fn parse_container(s: &str) -> (res: Result<Container, RenderError>)
    ensures
        container_spec(s@) matches Some(c) ==> res == Ok::<Container, RenderError>(c),
        container_spec(s@) is None ==> job_error(res) == Some(
            "unknown container '"@ + ascii_lower(s@) + "'"@,
        ),
{
    let l = to_ascii_lowercase(s);
    if text_is(&l, "mkv") || text_is(&l, "matroska") {
        Ok(Container::Mkv)
    } else if text_is(&l, "mp4") {
        Ok(Container::Mp4)
    } else {
        let head = concat_str("unknown container '", l.as_str());
        Err(RenderError::Job(concat_str(head.as_str(), "'")))
    }
}

fn opt_str_value(o: &Option<String>) -> (v: Value)
    ensures
        v.model() == opt_json(*o),
{
    match o {
        Some(s) => Value::Str(s.clone()),
        None => Value::Null,
    }
}

fn opt_usize_value(o: Option<usize>) -> (v: Value)
    ensures
        v.model() == opt_usize_json(o),
{
    match o {
        Some(n) => Value::UInt(n as u64),
        None => Value::Null,
    }
}

/// `"missing field `key`"`.
fn missing_field(key: &str) -> (s: String)
    ensures
        s@ == missing_msg(key@),
{
    let head = concat_str("missing field `", key);
    concat_str(head.as_str(), "`")
}

/// `"invalid type for `key`: expected what"`.
fn wrong_type(key: &str, what: &str) -> (s: String)
    ensures
        s@ == type_msg(key@, what@),
{
    let head = concat_str("invalid type for `", key);
    let mid = concat_str(head.as_str(), "`: expected ");
    concat_str(mid.as_str(), what)
}

pub open spec fn text_result(r: Result<String, String>) -> Result<Seq<char>, Seq<char>> {
    match r {
        Ok(s) => Ok(s@),
        Err(e) => Err(e@),
    }
}

pub open spec fn opt_text_result(r: Result<Option<String>, String>) -> Result<
    Option<Seq<char>>,
    Seq<char>,
> {
    match r {
        Ok(o) => Ok(opt_view(o)),
        Err(e) => Err(e@),
    }
}

pub open spec fn lift_result<T>(r: Result<T, String>) -> Result<T, Seq<char>> {
    match r {
        Ok(t) => Ok(t),
        Err(e) => Err(e@),
    }
}

pub open spec fn num_result(r: Result<u64, String>) -> Result<nat, Seq<char>> {
    match r {
        Ok(t) => Ok(t as nat),
        Err(e) => Err(e@),
    }
}

fn req_str(obj: &[(String, Value)], key: &str) -> (r: Result<String, String>)
    ensures
        text_result(r) == f_req_str(pair_models(obj@), key@),
{
    match find_member(obj, key) {
        None => Err(missing_field(key)),
        Some(Value::Str(s)) => Ok(s.clone()),
        Some(_) => Err(wrong_type(key, "string")),
    }
}

fn opt_str(obj: &[(String, Value)], key: &str) -> (r: Result<Option<String>, String>)
    ensures
        opt_text_result(r) == f_opt_str(pair_models(obj@), key@),
{
    match find_member(obj, key) {
        None => Ok(None),
        Some(Value::Null) => Ok(None),
        Some(Value::Str(s)) => Ok(Some(s.clone())),
        Some(_) => Err(wrong_type(key, "string")),
    }
}

fn opt_usize(obj: &[(String, Value)], key: &str) -> (r: Result<Option<usize>, String>)
    ensures
        lift_result(r) == f_opt_usize(pair_models(obj@), key@),
{
    match find_member(obj, key) {
        None => Ok(None),
        Some(Value::Null) => Ok(None),
        Some(v) => match v.as_u64() {
            Some(u) => Ok(Some(#[verifier::truncate] (u as usize))),
            None => Err(wrong_type(key, "unsigned integer")),
        },
    }
}

fn num(obj: &[(String, Value)], key: &str, dflt: u64, max: u64) -> (r: Result<u64, String>)
    requires
        dflt <= max,
    ensures
        num_result(r) == f_num(pair_models(obj@), key@, dflt as nat, max as nat),
        r matches Ok(v) ==> v <= max,
{
    match find_member(obj, key) {
        None => Ok(dflt),
        Some(v) => match v.as_u64() {
            Some(u) => if u <= max {
                Ok(u)
            } else {
                Err(wrong_type(key, "unsigned integer"))
            },
            None => Err(wrong_type(key, "unsigned integer")),
        },
    }
}

fn boolean(obj: &[(String, Value)], key: &str, dflt: bool) -> (r: Result<bool, String>)
    ensures
        lift_result(r) == f_bool(pair_models(obj@), key@, dflt),
{
    match find_member(obj, key) {
        None => Ok(dflt),
        Some(Value::Bool(b)) => Ok(*b),
        Some(_) => Err(wrong_type(key, "bool")),
    }
}

impl JobSpec {
    /// Build the JSON object for this spec (all fields, declaration order).
    pub fn to_value(&self) -> (v: Value)
        ensures
            v.model() == jobspec_json(*self),
    {
        let mut pairs: Vec<(String, Value)> = Vec::new();
        pairs.push(("effect".to_owned(), Value::Str(self.effect.clone())));
        pairs.push(("plugin_path".to_owned(), opt_str_value(&self.plugin_path)));
        pairs.push(("seed".to_owned(), Value::UInt(self.seed as u64)));
        pairs.push(("fps".to_owned(), Value::UInt(self.fps as u64)));
        pairs.push(("duration".to_owned(), Value::Str(self.duration.clone())));
        pairs.push(("output".to_owned(), Value::Str(self.output.clone())));
        pairs.push(("width".to_owned(), Value::UInt(self.width as u64)));
        pairs.push(("height".to_owned(), Value::UInt(self.height as u64)));
        pairs.push(("cols".to_owned(), opt_usize_value(self.cols)));
        pairs.push(("rows".to_owned(), opt_usize_value(self.rows)));
        pairs.push(("dry_run".to_owned(), Value::Bool(self.dry_run)));
        pairs.push(("raw".to_owned(), Value::Bool(self.raw)));
        pairs.push(("segment".to_owned(), opt_str_value(&self.segment)));
        pairs.push(("audio".to_owned(), opt_str_value(&self.audio)));
        pairs.push(("resume".to_owned(), Value::Bool(self.resume)));
        pairs.push(("crf".to_owned(), Value::UInt(self.crf as u64)));
        pairs.push(("preset".to_owned(), opt_str_value(&self.preset)));
        pairs.push(("encoder".to_owned(), opt_str_value(&self.encoder)));
        pairs.push(("prefer_hw".to_owned(), Value::Bool(self.prefer_hw)));
        pairs.push(("gpu_upscale".to_owned(), Value::Bool(self.gpu_upscale)));
        pairs.push(("format".to_owned(), opt_str_value(&self.format)));
        pairs.push(("container".to_owned(), opt_str_value(&self.container)));
        pairs.push(("baseline_dir".to_owned(), opt_str_value(&self.baseline_dir)));
        pairs.push(("snapshot_last_only".to_owned(), Value::Bool(self.snapshot_last_only)));
        pairs.push(("update_baselines".to_owned(), Value::Bool(self.update_baselines)));
        pairs.push(("cpu_raster".to_owned(), Value::Bool(self.cpu_raster)));
        proof {
            crate::json::lemma_pair_models(pairs@);
            assert(pair_models(pairs@) =~= members_of(jobspec_json(*self)));
        }
        Value::Object(pairs)
    }

    /// Serialize to a pretty-printed JSON document.
    pub fn to_json(&self) -> (s: String)
        ensures
            s@ == json_text(jobspec_json(*self), true, Seq::empty()),
    {
        self.to_value().to_json_pretty()
    }

    /// Inverse of [`JobSpec::to_value`]: unknown keys are ignored, missing
    /// fields take their defaults, `effect`, `duration` and `output` are
    /// required; the first member, in declaration order, that does not
    /// read as its field is reported.
    #[verifier::rlimit(100)]
    pub fn from_value(v: &Value) -> (res: Result<JobSpec, String>)
        ensures
            jobspec_json_error(v.model()) matches Some(m) ==> (res matches Err(e) && e@ == m),
            jobspec_json_error(v.model()) is None ==> (res matches Ok(js) && jobspec_fields(
                js,
                members_of(v.model()),
            )),
    {
        let obj = match v.as_object() {
            Some(o) => o,
            None => {
                return Err("invalid type: expected object".to_owned());
            },
        };
        proof {
            assert(v.model() == Json::Object(pair_models(obj@)));
        }
        let effect = match req_str(obj, "effect") {
            Ok(x) => x,
            Err(e) => {
                return Err(e);
            },
        };
        let plugin_path = match opt_str(obj, "plugin_path") {
            Ok(x) => x,
            Err(e) => {
                return Err(e);
            },
        };
        let seed = match num(obj, "seed", default_seed() as u64, u64::MAX as u64) {
            Ok(x) => x,
            Err(e) => {
                return Err(e);
            },
        };
        let fps = match num(obj, "fps", default_fps() as u64, u32::MAX as u64) {
            Ok(x) => x,
            Err(e) => {
                return Err(e);
            },
        };
        let duration = match req_str(obj, "duration") {
            Ok(x) => x,
            Err(e) => {
                return Err(e);
            },
        };
        let output = match req_str(obj, "output") {
            Ok(x) => x,
            Err(e) => {
                return Err(e);
            },
        };
        let width = match num(obj, "width", default_w() as u64, u32::MAX as u64) {
            Ok(x) => x,
            Err(e) => {
                return Err(e);
            },
        };
        let height = match num(obj, "height", default_h() as u64, u32::MAX as u64) {
            Ok(x) => x,
            Err(e) => {
                return Err(e);
            },
        };
        let cols = match opt_usize(obj, "cols") {
            Ok(x) => x,
            Err(e) => {
                return Err(e);
            },
        };
        let rows = match opt_usize(obj, "rows") {
            Ok(x) => x,
            Err(e) => {
                return Err(e);
            },
        };
        let dry_run = match boolean(obj, "dry_run", false) {
            Ok(x) => x,
            Err(e) => {
                return Err(e);
            },
        };
        let raw = match boolean(obj, "raw", false) {
            Ok(x) => x,
            Err(e) => {
                return Err(e);
            },
        };
        let segment = match opt_str(obj, "segment") {
            Ok(x) => x,
            Err(e) => {
                return Err(e);
            },
        };
        let audio = match opt_str(obj, "audio") {
            Ok(x) => x,
            Err(e) => {
                return Err(e);
            },
        };
        let resume = match boolean(obj, "resume", false) {
            Ok(x) => x,
            Err(e) => {
                return Err(e);
            },
        };
        let crf = match num(obj, "crf", default_crf() as u64, u8::MAX as u64) {
            Ok(x) => x,
            Err(e) => {
                return Err(e);
            },
        };
        let preset = match opt_str(obj, "preset") {
            Ok(x) => x,
            Err(e) => {
                return Err(e);
            },
        };
        let encoder = match opt_str(obj, "encoder") {
            Ok(x) => x,
            Err(e) => {
                return Err(e);
            },
        };
        let prefer_hw = match boolean(obj, "prefer_hw", true) {
            Ok(x) => x,
            Err(e) => {
                return Err(e);
            },
        };
        let gpu_upscale = match boolean(obj, "gpu_upscale", true) {
            Ok(x) => x,
            Err(e) => {
                return Err(e);
            },
        };
        let format = match opt_str(obj, "format") {
            Ok(x) => x,
            Err(e) => {
                return Err(e);
            },
        };
        let container = match opt_str(obj, "container") {
            Ok(x) => x,
            Err(e) => {
                return Err(e);
            },
        };
        let baseline_dir = match opt_str(obj, "baseline_dir") {
            Ok(x) => x,
            Err(e) => {
                return Err(e);
            },
        };
        let snapshot_last_only = match boolean(obj, "snapshot_last_only", false) {
            Ok(x) => x,
            Err(e) => {
                return Err(e);
            },
        };
        let update_baselines = match boolean(obj, "update_baselines", false) {
            Ok(x) => x,
            Err(e) => {
                return Err(e);
            },
        };
        let cpu_raster = match boolean(obj, "cpu_raster", false) {
            Ok(x) => x,
            Err(e) => {
                return Err(e);
            },
        };
        Ok(JobSpec {
            effect,
            plugin_path,
            seed,
            fps: fps as u32,
            duration,
            output,
            width: width as u32,
            height: height as u32,
            cols,
            rows,
            dry_run,
            raw,
            segment,
            audio,
            resume,
            crf: crf as u8,
            preset,
            encoder,
            prefer_hw,
            gpu_upscale,
            format,
            container,
            baseline_dir,
            snapshot_last_only,
            update_baselines,
            cpu_raster,
        })
    }
}

/// The output family a spec asks for (`raw` wins over `format`).
pub open spec fn spec_format(js: JobSpec) -> Option<OutputFormat> {
    if js.raw {
        Some(OutputFormat::Raw)
    } else {
        match js.format {
            Some(f) => format_spec(f@),
            None => Some(OutputFormat::Mp4),
        }
    }
}

/// The container a spec asks for (`mkv` by default).
pub open spec fn spec_container(js: JobSpec) -> Option<Container> {
    match js.container {
        Some(c) => container_spec(c@),
        None => Some(Container::Mkv),
    }
}

/// The segment length of a spec is absent or a valid duration.
pub open spec fn segment_ok(js: JobSpec) -> bool {
    match js.segment {
        Some(s) => valid_duration(s@),
        None => true,
    }
}

/// Seconds of the segment length of a spec, if set.
pub open spec fn segment_secs(js: JobSpec) -> Option<u64> {
    match js.segment {
        Some(s) => Some(duration_secs(s@)),
        None => None,
    }
}

/// `job` is the render job `js` describes.
pub open spec fn job_of_spec(js: JobSpec, job: RenderJob) -> bool {
    &&& job.effect == js.effect
    &&& job.plugin_path == js.plugin_path
    &&& job.seed == js.seed
    &&& job.fps == js.fps
    &&& job.duration == duration_secs(js.duration@)
    &&& job.width == js.width
    &&& job.height == js.height
    &&& job.output == js.output
    &&& job.cols == js.cols
    &&& job.rows == js.rows
    &&& job.dry_run == js.dry_run
    &&& job.segment == segment_secs(js)
    &&& job.audio == js.audio
    &&& job.resume == js.resume
    &&& job.crf == js.crf
    &&& job.preset == js.preset
    &&& job.encoder == js.encoder
    &&& job.prefer_hw == js.prefer_hw
    &&& job.gpu_upscale == js.gpu_upscale
    &&& Some(job.format) == spec_format(js)
    &&& Some(job.container) == spec_container(js)
    &&& job.baseline_dir == js.baseline_dir
    &&& job.snapshot_last_only == js.snapshot_last_only
    &&& job.update_baselines == js.update_baselines
    &&& job.cpu_raster == js.cpu_raster
}

/// The text `Error::to_string` gives for an error reported at `p` of `b`.
pub open spec fn parse_error_text(b: Seq<u8>, m: Seq<char>, p: int) -> Seq<char> {
    m + " at line "@ + decimal_chars(line_at(b, p)) + " column "@ + decimal_chars(col_at(b, p))
}

/// What resolving the job spec `js` owes: the first failing check in
/// field order (duration, segment, format, container) as its error, else
/// the job and the backend that writes it.
pub open spec fn job_outcome(js: JobSpec, res: Result<(RenderJob, EncodeBackend), RenderError>) -> bool {
    &&& !valid_duration(js.duration@) ==> duration_error(res) == Some(duration_msg(js.duration@))
    &&& valid_duration(js.duration@) && !segment_ok(js) ==> duration_error(res) == Some(
        duration_msg(js.segment->0@),
    )
    &&& valid_duration(js.duration@) && segment_ok(js) && spec_format(js) is None ==> job_error(res)
        == Some("unknown format '"@ + ascii_lower(js.format->0@) + "'"@)
    &&& valid_duration(js.duration@) && segment_ok(js) && spec_format(js) is Some
        && spec_container(js) is None ==> job_error(res) == Some(
        "unknown container '"@ + ascii_lower(js.container->0@) + "'"@,
    )
    &&& res is Ok <==> (valid_duration(js.duration@) && segment_ok(js) && spec_format(js) is Some
        && spec_container(js) is Some)
    &&& res matches Ok((job, backend)) ==> job_of_spec(js, job) && backend == backend_spec(
        job.format,
        job.container,
        job.dry_run,
        js.raw,
    )
}

impl JobSpec {
    /// Parse a JSON document into a job spec (see [`JobSpec::from_value`]).
    pub fn from_json(raw: &str) -> (res: Result<JobSpec, String>)
        ensures
            parse_spec(raw.spec_bytes()) matches Err((m, p)) ==> (res matches Err(e) && e@
                == parse_error_text(raw.spec_bytes(), m, p)),
            parse_spec(raw.spec_bytes()) matches Ok(j) ==> {
                &&& jobspec_json_error(j) matches Some(m) ==> (res matches Err(e) && e@ == m)
                &&& jobspec_json_error(j) is None ==> (res matches Ok(js) && jobspec_fields(
                    js,
                    members_of(j),
                ))
            },
    {
        match parse(raw) {
            Err(e) => Err(e.to_string()),
            Ok(v) => JobSpec::from_value(&v),
        }
    }

    /// Resolve durations, format and container into a render job and the
    /// backend that writes it. Checks run in field order: duration,
    /// segment, format, container.
    pub fn into_job(self) -> (res: Result<(RenderJob, EncodeBackend), RenderError>)
        ensures
            !valid_duration(self.duration@) ==> duration_error(res) == Some(
                duration_msg(self.duration@),
            ),
            valid_duration(self.duration@) && !segment_ok(self) ==> duration_error(res) == Some(
                duration_msg(self.segment->0@),
            ),
            valid_duration(self.duration@) && segment_ok(self) && spec_format(self) is None
                ==> job_error(res) == Some(
                "unknown format '"@ + ascii_lower(self.format->0@) + "'"@,
            ),
            valid_duration(self.duration@) && segment_ok(self) && spec_format(self) is Some
                && spec_container(self) is None ==> job_error(res) == Some(
                "unknown container '"@ + ascii_lower(self.container->0@) + "'"@,
            ),
            res is Ok <==> (valid_duration(self.duration@) && segment_ok(self) && spec_format(
                self,
            ) is Some && spec_container(self) is Some),
            res matches Ok((job, backend)) ==> job_of_spec(self, job) && backend == backend_spec(
                job.format,
                job.container,
                job.dry_run,
                self.raw,
            ),
    {
        let ghost js = self;
        let duration = match parse_duration_secs(self.duration.as_str()) {
            Ok(d) => d,
            Err(e) => {
                return Err(e);
            },
        };
        let segment = match &self.segment {
            Some(s) => match parse_duration_secs(s.as_str()) {
                Ok(d) => Some(d),
                Err(e) => {
                    return Err(e);
                },
            },
            None => None,
        };
        let format = if self.raw {
            OutputFormat::Raw
        } else {
            match &self.format {
                Some(f) => match parse_format(f.as_str()) {
                    Ok(x) => x,
                    Err(e) => {
                        return Err(e);
                    },
                },
                None => OutputFormat::Mp4,
            }
        };
        let container = match &self.container {
            Some(c) => match parse_container(c.as_str()) {
                Ok(x) => x,
                Err(e) => {
                    return Err(e);
                },
            },
            None => Container::Mkv,
        };
        let stdout_raw = self.raw;
        let job = RenderJob {
            effect: self.effect,
            plugin_path: self.plugin_path,
            seed: self.seed,
            fps: self.fps,
            duration,
            width: self.width,
            height: self.height,
            output: self.output,
            cols: self.cols,
            rows: self.rows,
            dry_run: self.dry_run,
            segment,
            audio: self.audio,
            resume: self.resume,
            crf: self.crf,
            preset: self.preset,
            encoder: self.encoder,
            prefer_hw: self.prefer_hw,
            gpu_upscale: self.gpu_upscale,
            format,
            container,
            baseline_dir: self.baseline_dir,
            snapshot_last_only: self.snapshot_last_only,
            update_baselines: self.update_baselines,
            cpu_raster: self.cpu_raster,
        };
        let backend = choose_backend(job.format, job.container, job.dry_run, stdout_raw);
        Ok((job, backend))
    }
}


/// `lookup` finds the member at `i` when no earlier member has its key.
pub proof fn lemma_lookup_at(o: Seq<(Seq<char>, Json)>, key: Seq<char>, i: int)
    requires
        0 <= i < o.len(),
        o[i].0 == key,
        forall|j: int| 0 <= j < i ==> o[j].0 != key,
    ensures
        lookup(o, key) == Some(o[i].1),
    decreases i,
{
    if i > 0 {
        assert forall|j: int| 0 <= j < i - 1 implies o.drop_first()[j].0 != key by {
            assert(o.drop_first()[j] == o[j + 1]);
        }
        lemma_lookup_at(o.drop_first(), key, i - 1);
    }
}

proof fn lemma_member_effect(js: JobSpec)
    ensures
        lookup(members_of(jobspec_json(js)), "effect"@) == Some(Json::Str(js.effect@)),
{
    let o = members_of(jobspec_json(js));
    reveal_strlit("effect");
    lemma_lookup_at(o, "effect"@, 0);
}

proof fn lemma_member_plugin_path(js: JobSpec)
    ensures
        lookup(members_of(jobspec_json(js)), "plugin_path"@) == Some(opt_json(js.plugin_path)),
{
    let o = members_of(jobspec_json(js));
    reveal_strlit("plugin_path");
    reveal_strlit("effect");
    assert(o[0].0.len() != "plugin_path"@.len());
    lemma_lookup_at(o, "plugin_path"@, 1);
}

proof fn lemma_member_seed(js: JobSpec)
    ensures
        lookup(members_of(jobspec_json(js)), "seed"@) == Some(Json::UInt(js.seed as u64)),
{
    let o = members_of(jobspec_json(js));
    reveal_strlit("seed");
    reveal_strlit("effect");
    reveal_strlit("plugin_path");
    assert(o[0].0.len() != "seed"@.len());
    assert(o[1].0.len() != "seed"@.len());
    lemma_lookup_at(o, "seed"@, 2);
}

proof fn lemma_member_fps(js: JobSpec)
    ensures
        lookup(members_of(jobspec_json(js)), "fps"@) == Some(Json::UInt(js.fps as u64)),
{
    let o = members_of(jobspec_json(js));
    reveal_strlit("fps");
    reveal_strlit("effect");
    reveal_strlit("plugin_path");
    reveal_strlit("seed");
    assert(o[0].0.len() != "fps"@.len());
    assert(o[1].0.len() != "fps"@.len());
    assert(o[2].0.len() != "fps"@.len());
    lemma_lookup_at(o, "fps"@, 3);
}

proof fn lemma_member_duration(js: JobSpec)
    ensures
        lookup(members_of(jobspec_json(js)), "duration"@) == Some(Json::Str(js.duration@)),
{
    let o = members_of(jobspec_json(js));
    reveal_strlit("duration");
    reveal_strlit("effect");
    reveal_strlit("plugin_path");
    reveal_strlit("seed");
    reveal_strlit("fps");
    assert(o[0].0.len() != "duration"@.len());
    assert(o[1].0.len() != "duration"@.len());
    assert(o[2].0.len() != "duration"@.len());
    assert(o[3].0.len() != "duration"@.len());
    lemma_lookup_at(o, "duration"@, 4);
}

proof fn lemma_member_output(js: JobSpec)
    ensures
        lookup(members_of(jobspec_json(js)), "output"@) == Some(Json::Str(js.output@)),
{
    let o = members_of(jobspec_json(js));
    reveal_strlit("output");
    reveal_strlit("effect");
    reveal_strlit("plugin_path");
    reveal_strlit("seed");
    reveal_strlit("fps");
    reveal_strlit("duration");
    assert(o[0].0[0] != "output"@[0]);
    assert(o[1].0.len() != "output"@.len());
    assert(o[2].0.len() != "output"@.len());
    assert(o[3].0.len() != "output"@.len());
    assert(o[4].0.len() != "output"@.len());
    lemma_lookup_at(o, "output"@, 5);
}

proof fn lemma_member_width(js: JobSpec)
    ensures
        lookup(members_of(jobspec_json(js)), "width"@) == Some(Json::UInt(js.width as u64)),
{
    let o = members_of(jobspec_json(js));
    reveal_strlit("width");
    reveal_strlit("effect");
    reveal_strlit("plugin_path");
    reveal_strlit("seed");
    reveal_strlit("fps");
    reveal_strlit("duration");
    reveal_strlit("output");
    assert(o[0].0.len() != "width"@.len());
    assert(o[1].0.len() != "width"@.len());
    assert(o[2].0.len() != "width"@.len());
    assert(o[3].0.len() != "width"@.len());
    assert(o[4].0.len() != "width"@.len());
    assert(o[5].0.len() != "width"@.len());
    lemma_lookup_at(o, "width"@, 6);
}

proof fn lemma_member_height(js: JobSpec)
    ensures
        lookup(members_of(jobspec_json(js)), "height"@) == Some(Json::UInt(js.height as u64)),
{
    let o = members_of(jobspec_json(js));
    reveal_strlit("height");
    reveal_strlit("effect");
    reveal_strlit("plugin_path");
    reveal_strlit("seed");
    reveal_strlit("fps");
    reveal_strlit("duration");
    reveal_strlit("output");
    reveal_strlit("width");
    assert(o[0].0[0] != "height"@[0]);
    assert(o[1].0.len() != "height"@.len());
    assert(o[2].0.len() != "height"@.len());
    assert(o[3].0.len() != "height"@.len());
    assert(o[4].0.len() != "height"@.len());
    assert(o[5].0[0] != "height"@[0]);
    assert(o[6].0.len() != "height"@.len());
    lemma_lookup_at(o, "height"@, 7);
}

proof fn lemma_member_cols(js: JobSpec)
    ensures
        lookup(members_of(jobspec_json(js)), "cols"@) == Some(opt_usize_json(js.cols)),
{
    let o = members_of(jobspec_json(js));
    reveal_strlit("cols");
    reveal_strlit("effect");
    reveal_strlit("plugin_path");
    reveal_strlit("seed");
    reveal_strlit("fps");
    reveal_strlit("duration");
    reveal_strlit("output");
    reveal_strlit("width");
    reveal_strlit("height");
    assert(o[0].0.len() != "cols"@.len());
    assert(o[1].0.len() != "cols"@.len());
    assert(o[2].0[0] != "cols"@[0]);
    assert(o[3].0.len() != "cols"@.len());
    assert(o[4].0.len() != "cols"@.len());
    assert(o[5].0.len() != "cols"@.len());
    assert(o[6].0.len() != "cols"@.len());
    assert(o[7].0.len() != "cols"@.len());
    lemma_lookup_at(o, "cols"@, 8);
}

proof fn lemma_member_rows(js: JobSpec)
    ensures
        lookup(members_of(jobspec_json(js)), "rows"@) == Some(opt_usize_json(js.rows)),
{
    let o = members_of(jobspec_json(js));
    reveal_strlit("rows");
    reveal_strlit("effect");
    reveal_strlit("plugin_path");
    reveal_strlit("seed");
    reveal_strlit("fps");
    reveal_strlit("duration");
    reveal_strlit("output");
    reveal_strlit("width");
    reveal_strlit("height");
    reveal_strlit("cols");
    assert(o[0].0.len() != "rows"@.len());
    assert(o[1].0.len() != "rows"@.len());
    assert(o[2].0[0] != "rows"@[0]);
    assert(o[3].0.len() != "rows"@.len());
    assert(o[4].0.len() != "rows"@.len());
    assert(o[5].0.len() != "rows"@.len());
    assert(o[6].0.len() != "rows"@.len());
    assert(o[7].0.len() != "rows"@.len());
    assert(o[8].0[0] != "rows"@[0]);
    lemma_lookup_at(o, "rows"@, 9);
}

proof fn lemma_member_dry_run(js: JobSpec)
    ensures
        lookup(members_of(jobspec_json(js)), "dry_run"@) == Some(Json::Bool(js.dry_run)),
{
    let o = members_of(jobspec_json(js));
    reveal_strlit("dry_run");
    reveal_strlit("effect");
    reveal_strlit("plugin_path");
    reveal_strlit("seed");
    reveal_strlit("fps");
    reveal_strlit("duration");
    reveal_strlit("output");
    reveal_strlit("width");
    reveal_strlit("height");
    reveal_strlit("cols");
    reveal_strlit("rows");
    assert(o[0].0.len() != "dry_run"@.len());
    assert(o[1].0.len() != "dry_run"@.len());
    assert(o[2].0.len() != "dry_run"@.len());
    assert(o[3].0.len() != "dry_run"@.len());
    assert(o[4].0.len() != "dry_run"@.len());
    assert(o[5].0.len() != "dry_run"@.len());
    assert(o[6].0.len() != "dry_run"@.len());
    assert(o[7].0.len() != "dry_run"@.len());
    assert(o[8].0.len() != "dry_run"@.len());
    assert(o[9].0.len() != "dry_run"@.len());
    lemma_lookup_at(o, "dry_run"@, 10);
}

proof fn lemma_member_raw(js: JobSpec)
    ensures
        lookup(members_of(jobspec_json(js)), "raw"@) == Some(Json::Bool(js.raw)),
{
    let o = members_of(jobspec_json(js));
    reveal_strlit("raw");
    reveal_strlit("effect");
    reveal_strlit("plugin_path");
    reveal_strlit("seed");
    reveal_strlit("fps");
    reveal_strlit("duration");
    reveal_strlit("output");
    reveal_strlit("width");
    reveal_strlit("height");
    reveal_strlit("cols");
    reveal_strlit("rows");
    reveal_strlit("dry_run");
    assert(o[0].0.len() != "raw"@.len());
    assert(o[1].0.len() != "raw"@.len());
    assert(o[2].0.len() != "raw"@.len());
    assert(o[3].0[0] != "raw"@[0]);
    assert(o[4].0.len() != "raw"@.len());
    assert(o[5].0.len() != "raw"@.len());
    assert(o[6].0.len() != "raw"@.len());
    assert(o[7].0.len() != "raw"@.len());
    assert(o[8].0.len() != "raw"@.len());
    assert(o[9].0.len() != "raw"@.len());
    assert(o[10].0.len() != "raw"@.len());
    lemma_lookup_at(o, "raw"@, 11);
}

proof fn lemma_member_segment(js: JobSpec)
    ensures
        lookup(members_of(jobspec_json(js)), "segment"@) == Some(opt_json(js.segment)),
{
    let o = members_of(jobspec_json(js));
    reveal_strlit("segment");
    reveal_strlit("effect");
    reveal_strlit("plugin_path");
    reveal_strlit("seed");
    reveal_strlit("fps");
    reveal_strlit("duration");
    reveal_strlit("output");
    reveal_strlit("width");
    reveal_strlit("height");
    reveal_strlit("cols");
    reveal_strlit("rows");
    reveal_strlit("dry_run");
    reveal_strlit("raw");
    assert(o[0].0.len() != "segment"@.len());
    assert(o[1].0.len() != "segment"@.len());
    assert(o[2].0.len() != "segment"@.len());
    assert(o[3].0.len() != "segment"@.len());
    assert(o[4].0.len() != "segment"@.len());
    assert(o[5].0.len() != "segment"@.len());
    assert(o[6].0.len() != "segment"@.len());
    assert(o[7].0.len() != "segment"@.len());
    assert(o[8].0.len() != "segment"@.len());
    assert(o[9].0.len() != "segment"@.len());
    assert(o[10].0[0] != "segment"@[0]);
    assert(o[11].0.len() != "segment"@.len());
    lemma_lookup_at(o, "segment"@, 12);
}

proof fn lemma_member_audio(js: JobSpec)
    ensures
        lookup(members_of(jobspec_json(js)), "audio"@) == Some(opt_json(js.audio)),
{
    let o = members_of(jobspec_json(js));
    reveal_strlit("audio");
    reveal_strlit("effect");
    reveal_strlit("plugin_path");
    reveal_strlit("seed");
    reveal_strlit("fps");
    reveal_strlit("duration");
    reveal_strlit("output");
    reveal_strlit("width");
    reveal_strlit("height");
    reveal_strlit("cols");
    reveal_strlit("rows");
    reveal_strlit("dry_run");
    reveal_strlit("raw");
    reveal_strlit("segment");
    assert(o[0].0.len() != "audio"@.len());
    assert(o[1].0.len() != "audio"@.len());
    assert(o[2].0.len() != "audio"@.len());
    assert(o[3].0.len() != "audio"@.len());
    assert(o[4].0.len() != "audio"@.len());
    assert(o[5].0.len() != "audio"@.len());
    assert(o[6].0[0] != "audio"@[0]);
    assert(o[7].0.len() != "audio"@.len());
    assert(o[8].0.len() != "audio"@.len());
    assert(o[9].0.len() != "audio"@.len());
    assert(o[10].0.len() != "audio"@.len());
    assert(o[11].0.len() != "audio"@.len());
    assert(o[12].0.len() != "audio"@.len());
    lemma_lookup_at(o, "audio"@, 13);
}

proof fn lemma_member_resume(js: JobSpec)
    ensures
        lookup(members_of(jobspec_json(js)), "resume"@) == Some(Json::Bool(js.resume)),
{
    let o = members_of(jobspec_json(js));
    reveal_strlit("resume");
    reveal_strlit("effect");
    reveal_strlit("plugin_path");
    reveal_strlit("seed");
    reveal_strlit("fps");
    reveal_strlit("duration");
    reveal_strlit("output");
    reveal_strlit("width");
    reveal_strlit("height");
    reveal_strlit("cols");
    reveal_strlit("rows");
    reveal_strlit("dry_run");
    reveal_strlit("raw");
    reveal_strlit("segment");
    reveal_strlit("audio");
    assert(o[0].0[0] != "resume"@[0]);
    assert(o[1].0.len() != "resume"@.len());
    assert(o[2].0.len() != "resume"@.len());
    assert(o[3].0.len() != "resume"@.len());
    assert(o[4].0.len() != "resume"@.len());
    assert(o[5].0[0] != "resume"@[0]);
    assert(o[6].0.len() != "resume"@.len());
    assert(o[7].0[0] != "resume"@[0]);
    assert(o[8].0.len() != "resume"@.len());
    assert(o[9].0.len() != "resume"@.len());
    assert(o[10].0.len() != "resume"@.len());
    assert(o[11].0.len() != "resume"@.len());
    assert(o[12].0.len() != "resume"@.len());
    assert(o[13].0.len() != "resume"@.len());
    lemma_lookup_at(o, "resume"@, 14);
}

proof fn lemma_member_crf(js: JobSpec)
    ensures
        lookup(members_of(jobspec_json(js)), "crf"@) == Some(Json::UInt(js.crf as u64)),
{
    let o = members_of(jobspec_json(js));
    reveal_strlit("crf");
    reveal_strlit("effect");
    reveal_strlit("plugin_path");
    reveal_strlit("seed");
    reveal_strlit("fps");
    reveal_strlit("duration");
    reveal_strlit("output");
    reveal_strlit("width");
    reveal_strlit("height");
    reveal_strlit("cols");
    reveal_strlit("rows");
    reveal_strlit("dry_run");
    reveal_strlit("raw");
    reveal_strlit("segment");
    reveal_strlit("audio");
    reveal_strlit("resume");
    assert(o[0].0.len() != "crf"@.len());
    assert(o[1].0.len() != "crf"@.len());
    assert(o[2].0.len() != "crf"@.len());
    assert(o[3].0[0] != "crf"@[0]);
    assert(o[4].0.len() != "crf"@.len());
    assert(o[5].0.len() != "crf"@.len());
    assert(o[6].0.len() != "crf"@.len());
    assert(o[7].0.len() != "crf"@.len());
    assert(o[8].0.len() != "crf"@.len());
    assert(o[9].0.len() != "crf"@.len());
    assert(o[10].0.len() != "crf"@.len());
    assert(o[11].0[0] != "crf"@[0]);
    assert(o[12].0.len() != "crf"@.len());
    assert(o[13].0.len() != "crf"@.len());
    assert(o[14].0.len() != "crf"@.len());
    lemma_lookup_at(o, "crf"@, 15);
}

proof fn lemma_member_preset(js: JobSpec)
    ensures
        lookup(members_of(jobspec_json(js)), "preset"@) == Some(opt_json(js.preset)),
{
    let o = members_of(jobspec_json(js));
    reveal_strlit("preset");
    reveal_strlit("effect");
    reveal_strlit("plugin_path");
    reveal_strlit("seed");
    reveal_strlit("fps");
    reveal_strlit("duration");
    reveal_strlit("output");
    reveal_strlit("width");
    reveal_strlit("height");
    reveal_strlit("cols");
    reveal_strlit("rows");
    reveal_strlit("dry_run");
    reveal_strlit("raw");
    reveal_strlit("segment");
    reveal_strlit("audio");
    reveal_strlit("resume");
    reveal_strlit("crf");
    assert(o[0].0[0] != "preset"@[0]);
    assert(o[1].0.len() != "preset"@.len());
    assert(o[2].0.len() != "preset"@.len());
    assert(o[3].0.len() != "preset"@.len());
    assert(o[4].0.len() != "preset"@.len());
    assert(o[5].0[0] != "preset"@[0]);
    assert(o[6].0.len() != "preset"@.len());
    assert(o[7].0[0] != "preset"@[0]);
    assert(o[8].0.len() != "preset"@.len());
    assert(o[9].0.len() != "preset"@.len());
    assert(o[10].0.len() != "preset"@.len());
    assert(o[11].0.len() != "preset"@.len());
    assert(o[12].0.len() != "preset"@.len());
    assert(o[13].0.len() != "preset"@.len());
    assert(o[14].0[0] != "preset"@[0]);
    assert(o[15].0.len() != "preset"@.len());
    lemma_lookup_at(o, "preset"@, 16);
}

proof fn lemma_member_encoder(js: JobSpec)
    ensures
        lookup(members_of(jobspec_json(js)), "encoder"@) == Some(opt_json(js.encoder)),
{
    let o = members_of(jobspec_json(js));
    reveal_strlit("encoder");
    reveal_strlit("effect");
    reveal_strlit("plugin_path");
    reveal_strlit("seed");
    reveal_strlit("fps");
    reveal_strlit("duration");
    reveal_strlit("output");
    reveal_strlit("width");
    reveal_strlit("height");
    reveal_strlit("cols");
    reveal_strlit("rows");
    reveal_strlit("dry_run");
    reveal_strlit("raw");
    reveal_strlit("segment");
    reveal_strlit("audio");
    reveal_strlit("resume");
    reveal_strlit("crf");
    reveal_strlit("preset");
    assert(o[0].0.len() != "encoder"@.len());
    assert(o[1].0.len() != "encoder"@.len());
    assert(o[2].0.len() != "encoder"@.len());
    assert(o[3].0.len() != "encoder"@.len());
    assert(o[4].0.len() != "encoder"@.len());
    assert(o[5].0.len() != "encoder"@.len());
    assert(o[6].0.len() != "encoder"@.len());
    assert(o[7].0.len() != "encoder"@.len());
    assert(o[8].0.len() != "encoder"@.len());
    assert(o[9].0.len() != "encoder"@.len());
    assert(o[10].0[0] != "encoder"@[0]);
    assert(o[11].0.len() != "encoder"@.len());
    assert(o[12].0[0] != "encoder"@[0]);
    assert(o[13].0.len() != "encoder"@.len());
    assert(o[14].0.len() != "encoder"@.len());
    assert(o[15].0.len() != "encoder"@.len());
    assert(o[16].0.len() != "encoder"@.len());
    lemma_lookup_at(o, "encoder"@, 17);
}

proof fn lemma_member_prefer_hw(js: JobSpec)
    ensures
        lookup(members_of(jobspec_json(js)), "prefer_hw"@) == Some(Json::Bool(js.prefer_hw)),
{
    let o = members_of(jobspec_json(js));
    reveal_strlit("prefer_hw");
    reveal_strlit("effect");
    reveal_strlit("plugin_path");
    reveal_strlit("seed");
    reveal_strlit("fps");
    reveal_strlit("duration");
    reveal_strlit("output");
    reveal_strlit("width");
    reveal_strlit("height");
    reveal_strlit("cols");
    reveal_strlit("rows");
    reveal_strlit("dry_run");
    reveal_strlit("raw");
    reveal_strlit("segment");
    reveal_strlit("audio");
    reveal_strlit("resume");
    reveal_strlit("crf");
    reveal_strlit("preset");
    reveal_strlit("encoder");
    assert(o[0].0.len() != "prefer_hw"@.len());
    assert(o[1].0.len() != "prefer_hw"@.len());
    assert(o[2].0.len() != "prefer_hw"@.len());
    assert(o[3].0.len() != "prefer_hw"@.len());
    assert(o[4].0.len() != "prefer_hw"@.len());
    assert(o[5].0.len() != "prefer_hw"@.len());
    assert(o[6].0.len() != "prefer_hw"@.len());
    assert(o[7].0.len() != "prefer_hw"@.len());
    assert(o[8].0.len() != "prefer_hw"@.len());
    assert(o[9].0.len() != "prefer_hw"@.len());
    assert(o[10].0.len() != "prefer_hw"@.len());
    assert(o[11].0.len() != "prefer_hw"@.len());
    assert(o[12].0.len() != "prefer_hw"@.len());
    assert(o[13].0.len() != "prefer_hw"@.len());
    assert(o[14].0.len() != "prefer_hw"@.len());
    assert(o[15].0.len() != "prefer_hw"@.len());
    assert(o[16].0.len() != "prefer_hw"@.len());
    assert(o[17].0.len() != "prefer_hw"@.len());
    lemma_lookup_at(o, "prefer_hw"@, 18);
}

proof fn lemma_member_gpu_upscale(js: JobSpec)
    ensures
        lookup(members_of(jobspec_json(js)), "gpu_upscale"@) == Some(Json::Bool(js.gpu_upscale)),
{
    let o = members_of(jobspec_json(js));
    reveal_strlit("gpu_upscale");
    reveal_strlit("effect");
    reveal_strlit("plugin_path");
    reveal_strlit("seed");
    reveal_strlit("fps");
    reveal_strlit("duration");
    reveal_strlit("output");
    reveal_strlit("width");
    reveal_strlit("height");
    reveal_strlit("cols");
    reveal_strlit("rows");
    reveal_strlit("dry_run");
    reveal_strlit("raw");
    reveal_strlit("segment");
    reveal_strlit("audio");
    reveal_strlit("resume");
    reveal_strlit("crf");
    reveal_strlit("preset");
    reveal_strlit("encoder");
    reveal_strlit("prefer_hw");
    assert(o[0].0.len() != "gpu_upscale"@.len());
    assert(o[1].0[0] != "gpu_upscale"@[0]);
    assert(o[2].0.len() != "gpu_upscale"@.len());
    assert(o[3].0.len() != "gpu_upscale"@.len());
    assert(o[4].0.len() != "gpu_upscale"@.len());
    assert(o[5].0.len() != "gpu_upscale"@.len());
    assert(o[6].0.len() != "gpu_upscale"@.len());
    assert(o[7].0.len() != "gpu_upscale"@.len());
    assert(o[8].0.len() != "gpu_upscale"@.len());
    assert(o[9].0.len() != "gpu_upscale"@.len());
    assert(o[10].0.len() != "gpu_upscale"@.len());
    assert(o[11].0.len() != "gpu_upscale"@.len());
    assert(o[12].0.len() != "gpu_upscale"@.len());
    assert(o[13].0.len() != "gpu_upscale"@.len());
    assert(o[14].0.len() != "gpu_upscale"@.len());
    assert(o[15].0.len() != "gpu_upscale"@.len());
    assert(o[16].0.len() != "gpu_upscale"@.len());
    assert(o[17].0.len() != "gpu_upscale"@.len());
    assert(o[18].0.len() != "gpu_upscale"@.len());
    lemma_lookup_at(o, "gpu_upscale"@, 19);
}

proof fn lemma_member_format(js: JobSpec)
    ensures
        lookup(members_of(jobspec_json(js)), "format"@) == Some(opt_json(js.format)),
{
    let o = members_of(jobspec_json(js));
    reveal_strlit("format");
    reveal_strlit("effect");
    reveal_strlit("plugin_path");
    reveal_strlit("seed");
    reveal_strlit("fps");
    reveal_strlit("duration");
    reveal_strlit("output");
    reveal_strlit("width");
    reveal_strlit("height");
    reveal_strlit("cols");
    reveal_strlit("rows");
    reveal_strlit("dry_run");
    reveal_strlit("raw");
    reveal_strlit("segment");
    reveal_strlit("audio");
    reveal_strlit("resume");
    reveal_strlit("crf");
    reveal_strlit("preset");
    reveal_strlit("encoder");
    reveal_strlit("prefer_hw");
    reveal_strlit("gpu_upscale");
    assert(o[0].0[0] != "format"@[0]);
    assert(o[1].0.len() != "format"@.len());
    assert(o[2].0.len() != "format"@.len());
    assert(o[3].0.len() != "format"@.len());
    assert(o[4].0.len() != "format"@.len());
    assert(o[5].0[0] != "format"@[0]);
    assert(o[6].0.len() != "format"@.len());
    assert(o[7].0[0] != "format"@[0]);
    assert(o[8].0.len() != "format"@.len());
    assert(o[9].0.len() != "format"@.len());
    assert(o[10].0.len() != "format"@.len());
    assert(o[11].0.len() != "format"@.len());
    assert(o[12].0.len() != "format"@.len());
    assert(o[13].0.len() != "format"@.len());
    assert(o[14].0[0] != "format"@[0]);
    assert(o[15].0.len() != "format"@.len());
    assert(o[16].0[0] != "format"@[0]);
    assert(o[17].0.len() != "format"@.len());
    assert(o[18].0.len() != "format"@.len());
    assert(o[19].0.len() != "format"@.len());
    lemma_lookup_at(o, "format"@, 20);
}

proof fn lemma_member_container(js: JobSpec)
    ensures
        lookup(members_of(jobspec_json(js)), "container"@) == Some(opt_json(js.container)),
{
    let o = members_of(jobspec_json(js));
    reveal_strlit("container");
    reveal_strlit("effect");
    reveal_strlit("plugin_path");
    reveal_strlit("seed");
    reveal_strlit("fps");
    reveal_strlit("duration");
    reveal_strlit("output");
    reveal_strlit("width");
    reveal_strlit("height");
    reveal_strlit("cols");
    reveal_strlit("rows");
    reveal_strlit("dry_run");
    reveal_strlit("raw");
    reveal_strlit("segment");
    reveal_strlit("audio");
    reveal_strlit("resume");
    reveal_strlit("crf");
    reveal_strlit("preset");
    reveal_strlit("encoder");
    reveal_strlit("prefer_hw");
    reveal_strlit("gpu_upscale");
    reveal_strlit("format");
    assert(o[0].0.len() != "container"@.len());
    assert(o[1].0.len() != "container"@.len());
    assert(o[2].0.len() != "container"@.len());
    assert(o[3].0.len() != "container"@.len());
    assert(o[4].0.len() != "container"@.len());
    assert(o[5].0.len() != "container"@.len());
    assert(o[6].0.len() != "container"@.len());
    assert(o[7].0.len() != "container"@.len());
    assert(o[8].0.len() != "container"@.len());
    assert(o[9].0.len() != "container"@.len());
    assert(o[10].0.len() != "container"@.len());
    assert(o[11].0.len() != "container"@.len());
    assert(o[12].0.len() != "container"@.len());
    assert(o[13].0.len() != "container"@.len());
    assert(o[14].0.len() != "container"@.len());
    assert(o[15].0.len() != "container"@.len());
    assert(o[16].0.len() != "container"@.len());
    assert(o[17].0.len() != "container"@.len());
    assert(o[18].0[0] != "container"@[0]);
    assert(o[19].0.len() != "container"@.len());
    assert(o[20].0.len() != "container"@.len());
    lemma_lookup_at(o, "container"@, 21);
}

proof fn lemma_member_baseline_dir(js: JobSpec)
    ensures
        lookup(members_of(jobspec_json(js)), "baseline_dir"@) == Some(opt_json(js.baseline_dir)),
{
    let o = members_of(jobspec_json(js));
    reveal_strlit("baseline_dir");
    reveal_strlit("effect");
    reveal_strlit("plugin_path");
    reveal_strlit("seed");
    reveal_strlit("fps");
    reveal_strlit("duration");
    reveal_strlit("output");
    reveal_strlit("width");
    reveal_strlit("height");
    reveal_strlit("cols");
    reveal_strlit("rows");
    reveal_strlit("dry_run");
    reveal_strlit("raw");
    reveal_strlit("segment");
    reveal_strlit("audio");
    reveal_strlit("resume");
    reveal_strlit("crf");
    reveal_strlit("preset");
    reveal_strlit("encoder");
    reveal_strlit("prefer_hw");
    reveal_strlit("gpu_upscale");
    reveal_strlit("format");
    reveal_strlit("container");
    assert(o[0].0.len() != "baseline_dir"@.len());
    assert(o[1].0.len() != "baseline_dir"@.len());
    assert(o[2].0.len() != "baseline_dir"@.len());
    assert(o[3].0.len() != "baseline_dir"@.len());
    assert(o[4].0.len() != "baseline_dir"@.len());
    assert(o[5].0.len() != "baseline_dir"@.len());
    assert(o[6].0.len() != "baseline_dir"@.len());
    assert(o[7].0.len() != "baseline_dir"@.len());
    assert(o[8].0.len() != "baseline_dir"@.len());
    assert(o[9].0.len() != "baseline_dir"@.len());
    assert(o[10].0.len() != "baseline_dir"@.len());
    assert(o[11].0.len() != "baseline_dir"@.len());
    assert(o[12].0.len() != "baseline_dir"@.len());
    assert(o[13].0.len() != "baseline_dir"@.len());
    assert(o[14].0.len() != "baseline_dir"@.len());
    assert(o[15].0.len() != "baseline_dir"@.len());
    assert(o[16].0.len() != "baseline_dir"@.len());
    assert(o[17].0.len() != "baseline_dir"@.len());
    assert(o[18].0.len() != "baseline_dir"@.len());
    assert(o[19].0.len() != "baseline_dir"@.len());
    assert(o[20].0.len() != "baseline_dir"@.len());
    assert(o[21].0.len() != "baseline_dir"@.len());
    lemma_lookup_at(o, "baseline_dir"@, 22);
}

proof fn lemma_member_snapshot_last_only(js: JobSpec)
    ensures
        lookup(members_of(jobspec_json(js)), "snapshot_last_only"@) == Some(Json::Bool(js.snapshot_last_only)),
{
    let o = members_of(jobspec_json(js));
    reveal_strlit("snapshot_last_only");
    reveal_strlit("effect");
    reveal_strlit("plugin_path");
    reveal_strlit("seed");
    reveal_strlit("fps");
    reveal_strlit("duration");
    reveal_strlit("output");
    reveal_strlit("width");
    reveal_strlit("height");
    reveal_strlit("cols");
    reveal_strlit("rows");
    reveal_strlit("dry_run");
    reveal_strlit("raw");
    reveal_strlit("segment");
    reveal_strlit("audio");
    reveal_strlit("resume");
    reveal_strlit("crf");
    reveal_strlit("preset");
    reveal_strlit("encoder");
    reveal_strlit("prefer_hw");
    reveal_strlit("gpu_upscale");
    reveal_strlit("format");
    reveal_strlit("container");
    reveal_strlit("baseline_dir");
    assert(o[0].0.len() != "snapshot_last_only"@.len());
    assert(o[1].0.len() != "snapshot_last_only"@.len());
    assert(o[2].0.len() != "snapshot_last_only"@.len());
    assert(o[3].0.len() != "snapshot_last_only"@.len());
    assert(o[4].0.len() != "snapshot_last_only"@.len());
    assert(o[5].0.len() != "snapshot_last_only"@.len());
    assert(o[6].0.len() != "snapshot_last_only"@.len());
    assert(o[7].0.len() != "snapshot_last_only"@.len());
    assert(o[8].0.len() != "snapshot_last_only"@.len());
    assert(o[9].0.len() != "snapshot_last_only"@.len());
    assert(o[10].0.len() != "snapshot_last_only"@.len());
    assert(o[11].0.len() != "snapshot_last_only"@.len());
    assert(o[12].0.len() != "snapshot_last_only"@.len());
    assert(o[13].0.len() != "snapshot_last_only"@.len());
    assert(o[14].0.len() != "snapshot_last_only"@.len());
    assert(o[15].0.len() != "snapshot_last_only"@.len());
    assert(o[16].0.len() != "snapshot_last_only"@.len());
    assert(o[17].0.len() != "snapshot_last_only"@.len());
    assert(o[18].0.len() != "snapshot_last_only"@.len());
    assert(o[19].0.len() != "snapshot_last_only"@.len());
    assert(o[20].0.len() != "snapshot_last_only"@.len());
    assert(o[21].0.len() != "snapshot_last_only"@.len());
    assert(o[22].0.len() != "snapshot_last_only"@.len());
    lemma_lookup_at(o, "snapshot_last_only"@, 23);
}

proof fn lemma_member_update_baselines(js: JobSpec)
    ensures
        lookup(members_of(jobspec_json(js)), "update_baselines"@) == Some(Json::Bool(js.update_baselines)),
{
    let o = members_of(jobspec_json(js));
    reveal_strlit("update_baselines");
    reveal_strlit("effect");
    reveal_strlit("plugin_path");
    reveal_strlit("seed");
    reveal_strlit("fps");
    reveal_strlit("duration");
    reveal_strlit("output");
    reveal_strlit("width");
    reveal_strlit("height");
    reveal_strlit("cols");
    reveal_strlit("rows");
    reveal_strlit("dry_run");
    reveal_strlit("raw");
    reveal_strlit("segment");
    reveal_strlit("audio");
    reveal_strlit("resume");
    reveal_strlit("crf");
    reveal_strlit("preset");
    reveal_strlit("encoder");
    reveal_strlit("prefer_hw");
    reveal_strlit("gpu_upscale");
    reveal_strlit("format");
    reveal_strlit("container");
    reveal_strlit("baseline_dir");
    reveal_strlit("snapshot_last_only");
    assert(o[0].0.len() != "update_baselines"@.len());
    assert(o[1].0.len() != "update_baselines"@.len());
    assert(o[2].0.len() != "update_baselines"@.len());
    assert(o[3].0.len() != "update_baselines"@.len());
    assert(o[4].0.len() != "update_baselines"@.len());
    assert(o[5].0.len() != "update_baselines"@.len());
    assert(o[6].0.len() != "update_baselines"@.len());
    assert(o[7].0.len() != "update_baselines"@.len());
    assert(o[8].0.len() != "update_baselines"@.len());
    assert(o[9].0.len() != "update_baselines"@.len());
    assert(o[10].0.len() != "update_baselines"@.len());
    assert(o[11].0.len() != "update_baselines"@.len());
    assert(o[12].0.len() != "update_baselines"@.len());
    assert(o[13].0.len() != "update_baselines"@.len());
    assert(o[14].0.len() != "update_baselines"@.len());
    assert(o[15].0.len() != "update_baselines"@.len());
    assert(o[16].0.len() != "update_baselines"@.len());
    assert(o[17].0.len() != "update_baselines"@.len());
    assert(o[18].0.len() != "update_baselines"@.len());
    assert(o[19].0.len() != "update_baselines"@.len());
    assert(o[20].0.len() != "update_baselines"@.len());
    assert(o[21].0.len() != "update_baselines"@.len());
    assert(o[22].0.len() != "update_baselines"@.len());
    assert(o[23].0.len() != "update_baselines"@.len());
    lemma_lookup_at(o, "update_baselines"@, 24);
}

proof fn lemma_member_cpu_raster(js: JobSpec)
    ensures
        lookup(members_of(jobspec_json(js)), "cpu_raster"@) == Some(Json::Bool(js.cpu_raster)),
{
    let o = members_of(jobspec_json(js));
    reveal_strlit("cpu_raster");
    reveal_strlit("effect");
    reveal_strlit("plugin_path");
    reveal_strlit("seed");
    reveal_strlit("fps");
    reveal_strlit("duration");
    reveal_strlit("output");
    reveal_strlit("width");
    reveal_strlit("height");
    reveal_strlit("cols");
    reveal_strlit("rows");
    reveal_strlit("dry_run");
    reveal_strlit("raw");
    reveal_strlit("segment");
    reveal_strlit("audio");
    reveal_strlit("resume");
    reveal_strlit("crf");
    reveal_strlit("preset");
    reveal_strlit("encoder");
    reveal_strlit("prefer_hw");
    reveal_strlit("gpu_upscale");
    reveal_strlit("format");
    reveal_strlit("container");
    reveal_strlit("baseline_dir");
    reveal_strlit("snapshot_last_only");
    reveal_strlit("update_baselines");
    assert(o[0].0.len() != "cpu_raster"@.len());
    assert(o[1].0.len() != "cpu_raster"@.len());
    assert(o[2].0.len() != "cpu_raster"@.len());
    assert(o[3].0.len() != "cpu_raster"@.len());
    assert(o[4].0.len() != "cpu_raster"@.len());
    assert(o[5].0.len() != "cpu_raster"@.len());
    assert(o[6].0.len() != "cpu_raster"@.len());
    assert(o[7].0.len() != "cpu_raster"@.len());
    assert(o[8].0.len() != "cpu_raster"@.len());
    assert(o[9].0.len() != "cpu_raster"@.len());
    assert(o[10].0.len() != "cpu_raster"@.len());
    assert(o[11].0.len() != "cpu_raster"@.len());
    assert(o[12].0.len() != "cpu_raster"@.len());
    assert(o[13].0.len() != "cpu_raster"@.len());
    assert(o[14].0.len() != "cpu_raster"@.len());
    assert(o[15].0.len() != "cpu_raster"@.len());
    assert(o[16].0.len() != "cpu_raster"@.len());
    assert(o[17].0.len() != "cpu_raster"@.len());
    assert(o[18].0.len() != "cpu_raster"@.len());
    assert(o[19].0.len() != "cpu_raster"@.len());
    assert(o[20].0.len() != "cpu_raster"@.len());
    assert(o[21].0.len() != "cpu_raster"@.len());
    assert(o[22].0.len() != "cpu_raster"@.len());
    assert(o[23].0.len() != "cpu_raster"@.len());
    assert(o[24].0.len() != "cpu_raster"@.len());
    lemma_lookup_at(o, "cpu_raster"@, 25);
}

/// Two job specs hold the same fields.
pub open spec fn same_jobspec(a: JobSpec, b: JobSpec) -> bool {
    &&& a.effect@ == b.effect@
    &&& opt_view(a.plugin_path) == opt_view(b.plugin_path)
    &&& a.seed == b.seed
    &&& a.fps == b.fps
    &&& a.duration@ == b.duration@
    &&& a.output@ == b.output@
    &&& a.width == b.width
    &&& a.height == b.height
    &&& a.cols == b.cols
    &&& a.rows == b.rows
    &&& a.dry_run == b.dry_run
    &&& a.raw == b.raw
    &&& opt_view(a.segment) == opt_view(b.segment)
    &&& opt_view(a.audio) == opt_view(b.audio)
    &&& a.resume == b.resume
    &&& a.crf == b.crf
    &&& opt_view(a.preset) == opt_view(b.preset)
    &&& opt_view(a.encoder) == opt_view(b.encoder)
    &&& a.prefer_hw == b.prefer_hw
    &&& a.gpu_upscale == b.gpu_upscale
    &&& opt_view(a.format) == opt_view(b.format)
    &&& opt_view(a.container) == opt_view(b.container)
    &&& opt_view(a.baseline_dir) == opt_view(b.baseline_dir)
    &&& a.snapshot_last_only == b.snapshot_last_only
    &&& a.update_baselines == b.update_baselines
    &&& a.cpu_raster == b.cpu_raster
}

/// Reading back the JSON a job spec writes succeeds and gives the same
/// spec.
pub proof fn law_jobspec_roundtrip(js: JobSpec, back: JobSpec)
    ensures
        jobspec_json_error(jobspec_json(js)) is None,
        jobspec_fields(back, members_of(jobspec_json(js))) ==> same_jobspec(back, js),
{
    lemma_member_effect(js);
    lemma_member_plugin_path(js);
    lemma_member_seed(js);
    lemma_member_fps(js);
    lemma_member_duration(js);
    lemma_member_output(js);
    lemma_member_width(js);
    lemma_member_height(js);
    lemma_member_cols(js);
    lemma_member_rows(js);
    lemma_member_dry_run(js);
    lemma_member_raw(js);
    lemma_member_segment(js);
    lemma_member_audio(js);
    lemma_member_resume(js);
    lemma_member_crf(js);
    lemma_member_preset(js);
    lemma_member_encoder(js);
    lemma_member_prefer_hw(js);
    lemma_member_gpu_upscale(js);
    lemma_member_format(js);
    lemma_member_container(js);
    lemma_member_baseline_dir(js);
    lemma_member_snapshot_last_only(js);
    lemma_member_update_baselines(js);
    lemma_member_cpu_raster(js);
    if jobspec_fields(back, members_of(jobspec_json(js))) {
        if let Some(c) = back.cols {
            assert(c as u64 as usize == c);
        }
        if let Some(r) = back.rows {
            assert(r as u64 as usize == r);
        }
    }
}

/// A job spec written out as a job file (`to_json`) reads back
/// (`from_json`) as the same spec: the text parses to the JSON the spec
/// writes, and that JSON reads back as the spec.
pub proof fn law_jobspec_file_roundtrip(js: JobSpec, back: JobSpec)
    ensures
        parse_spec(encode_utf8(json_text(jobspec_json(js), true, Seq::empty()))) == Ok::<
            Json,
            (Seq<char>, int),
        >(jobspec_json(js)),
        jobspec_json_error(jobspec_json(js)) is None,
        jobspec_fields(back, members_of(jobspec_json(js))) ==> same_jobspec(back, js),
{
    let pairs = jobspec_json(js)->Object_0;
    assert forall|k: int| 0 <= k < pairs.len() implies readable(#[trigger] pairs[k].1, 1) by {}
    lemma_readable_pairs_from(pairs, 1);
    law_json_text_roundtrip(jobspec_json(js), true);
    law_jobspec_roundtrip(js, back);
}

/// Resolving a spec (`res` is what `into_job` owes for it, see
/// `job_outcome`) whose duration is `Ns` or bare `N`, with no segment
/// length and a known format and container, gives a job of `N` seconds.
pub proof fn law_into_job_seconds(
    js: JobSpec,
    n: u64,
    res: Result<(RenderJob, EncodeBackend), RenderError>,
)
    requires
        n > 0,
        js.duration@ == decimal_chars(n as nat) + seq!['s'] || js.duration@ == decimal_chars(
            n as nat,
        ),
        js.segment is None,
        spec_format(js) is Some,
        spec_container(js) is Some,
        job_outcome(js, res),
    ensures
        res matches Ok((job, _)) && job.duration == n,
{
    law_seconds_suffix(n);
    law_bare_number_is_seconds(n);
}

/// Resolving a spec whose duration is zero, bare or with a unit, fails
/// with the duration error `duration must be > 0: <text>`.
pub proof fn law_into_job_zero(
    js: JobSpec,
    unit: Seq<char>,
    res: Result<(RenderJob, EncodeBackend), RenderError>,
)
    requires
        unit.len() == 0 || (unit.len() == 1 && unit_secs(unit[0]) is Some),
        js.duration@ == seq!['0'] + unit,
        job_outcome(js, res),
    ensures
        res is Err,
        duration_error(res) == Some("duration must be > 0: "@ + js.duration@),
{
    law_zero_is_invalid(unit);
    let t = seq!['0'] + unit;
    if unit.len() == 1 {
        assert(t.drop_last() =~= seq!['0']);
        assert(t.last() == unit[0]);
    } else {
        assert(t =~= seq!['0']);
        assert(unit_secs('0') is None);
    }
    assert(all_digit_chars(seq!['0']));
    assert(digit_chars_value(seq!['0']) == 0) by {
        assert(seq!['0'].drop_last() =~= Seq::<char>::empty());
        assert(digit_chars_value(Seq::<char>::empty()) == 0);
        assert(seq!['0'].last() == '0');
    }
}

} // verus!
