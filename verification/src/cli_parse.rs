use crate::cli::{cli_container_spec, cli_format_spec, Args, CliContainer, CliFormat};
use crate::error::concat_str;
use crate::models::{all_digit_chars, digit_chars_value};
use crate::text::{chars_vec, push_char};
use vstd::prelude::*;

verus! {

/// Why argument parsing stopped: help was asked for, or an argument is
/// wrong (with the message to show above the usage text).
#[derive(Debug)]
pub enum CliStop {
    Help,
    Invalid(String),
}

/// The model of parsed arguments: texts by their characters.
pub struct ArgsView {
    pub job_file: Option<Seq<char>>,
    pub effect: Option<Seq<char>>,
    pub plugin_path: Option<Seq<char>>,
    pub seed: u64,
    pub fps: u32,
    pub duration: Seq<char>,
    pub segment: Option<Seq<char>>,
    pub audio: Option<Seq<char>>,
    pub output: Option<Seq<char>>,
    pub width: u32,
    pub height: u32,
    pub cols: Option<usize>,
    pub rows: Option<usize>,
    pub dry_run: bool,
    pub raw: bool,
    pub resume: bool,
    pub crf: u8,
    pub preset: Option<Seq<char>>,
    pub encoder: Option<Seq<char>>,
    pub no_hw_encode: bool,
    pub no_gpu_upscale: bool,
    pub format: CliFormat,
    pub container: CliContainer,
    pub stdout_raw: bool,
    pub baseline_dir: Option<Seq<char>>,
    pub update_baselines: bool,
    pub snapshot_last_only: bool,
    pub cpu_raster: bool,
}

/// The text of an optional string.
pub open spec fn opt_chars(o: Option<String>) -> Option<Seq<char>> {
    match o {
        Some(s) => Some(s@),
        None => None,
    }
}

/// The model of parsed arguments.
pub open spec fn args_view(a: Args) -> ArgsView {
    ArgsView {
        job_file: opt_chars(a.job_file),
        effect: opt_chars(a.effect),
        plugin_path: opt_chars(a.plugin_path),
        seed: a.seed,
        fps: a.fps,
        duration: a.duration@,
        segment: opt_chars(a.segment),
        audio: opt_chars(a.audio),
        output: opt_chars(a.output),
        width: a.width,
        height: a.height,
        cols: a.cols,
        rows: a.rows,
        dry_run: a.dry_run,
        raw: a.raw,
        resume: a.resume,
        crf: a.crf,
        preset: opt_chars(a.preset),
        encoder: opt_chars(a.encoder),
        no_hw_encode: a.no_hw_encode,
        no_gpu_upscale: a.no_gpu_upscale,
        format: a.format,
        container: a.container,
        stdout_raw: a.stdout_raw,
        baseline_dir: opt_chars(a.baseline_dir),
        update_baselines: a.update_baselines,
        snapshot_last_only: a.snapshot_last_only,
        cpu_raster: a.cpu_raster,
    }
}

/// The arguments before any flag is read.
pub open spec fn default_view() -> ArgsView {
    ArgsView {
        job_file: None,
        effect: None,
        plugin_path: None,
        seed: 0x00C0_FFEE,
        fps: 30,
        duration: "10s"@,
        segment: None,
        audio: None,
        output: None,
        width: 1280,
        height: 720,
        cols: None,
        rows: None,
        dry_run: false,
        raw: false,
        resume: false,
        crf: 35,
        preset: None,
        encoder: None,
        no_hw_encode: false,
        no_gpu_upscale: false,
        format: CliFormat::Mp4,
        container: CliContainer::Mkv,
        stdout_raw: false,
        baseline_dir: None,
        update_baselines: false,
        snapshot_last_only: false,
        cpu_raster: false,
    }
}

/// Index of the first `c` in `s`, or -1.
pub open spec fn first_index(s: Seq<char>, c: char) -> int
    decreases s.len(),
{
    if s.len() == 0 {
        -1
    } else if s[0] == c {
        0
    } else {
        let r = first_index(s.drop_first(), c);
        if r < 0 {
            -1
        } else {
            r + 1
        }
    }
}

/// A long option written `--name=value` splits into `--name` and the
/// value; anything else stands alone.
pub open spec fn split_arg(arg: Seq<char>) -> (Seq<char>, Option<Seq<char>>) {
    if arg.len() >= 2 && arg[0] == '-' && arg[1] == '-' && first_index(arg.skip(2), '=') >= 0 {
        let k = first_index(arg.skip(2), '=') + 2;
        (arg.take(k), Some(arg.skip(k + 1)))
    } else {
        (arg, None)
    }
}

/// An unsigned number as the standard parser reads it: an optional `+`,
/// then decimal digits, no larger than `max`.
pub open spec fn uint_value(s: Seq<char>, max: nat) -> Option<nat> {
    let d = if s.len() > 0 && s[0] == '+' {
        s.drop_first()
    } else {
        s
    };
    if d.len() == 0 || !all_digit_chars(d) || digit_chars_value(d) > max {
        None
    } else {
        Some(digit_chars_value(d))
    }
}

/// `"invalid value '<v>' for '<name>'"`.
pub open spec fn bad_value_msg(v: Seq<char>, name: Seq<char>) -> Seq<char> {
    "invalid value '"@ + v + "' for '"@ + name + "'"@
}

/// The flag a switch-style option sets, if `name` is one.
pub open spec fn is_switch(name: Seq<char>) -> bool {
    name == "--dry-run"@ || name == "--raw"@ || name == "--resume"@ || name == "--no-hw-encode"@ || name == "--no-gpu-upscale"@ || name == "--stdout-raw"@ || name == "--update-baselines"@ || name == "--snapshot-last-only"@ || name == "--cpu-raster"@
}

/// The model after the switch `name` is given.
pub open spec fn set_switch(a: ArgsView, name: Seq<char>) -> ArgsView {
    if name == "--dry-run"@ {
        ArgsView { dry_run: true, ..a }
    } else if name == "--raw"@ {
        ArgsView { raw: true, ..a }
    } else if name == "--resume"@ {
        ArgsView { resume: true, ..a }
    } else if name == "--no-hw-encode"@ {
        ArgsView { no_hw_encode: true, ..a }
    } else if name == "--no-gpu-upscale"@ {
        ArgsView { no_gpu_upscale: true, ..a }
    } else if name == "--stdout-raw"@ {
        ArgsView { stdout_raw: true, ..a }
    } else if name == "--update-baselines"@ {
        ArgsView { update_baselines: true, ..a }
    } else if name == "--snapshot-last-only"@ {
        ArgsView { snapshot_last_only: true, ..a }
    } else if name == "--cpu-raster"@ {
        ArgsView { cpu_raster: true, ..a }
    } else {
        a
    }
}

/// The option that takes a value, if `name` is one; its canonical name
/// for messages.
pub open spec fn valued_canon(name: Seq<char>) -> Option<Seq<char>> {
    if name == "--job-file"@ {
        Some("--job-file"@)
    } else if name == "-e"@ || name == "--effect"@ {
        Some("--effect"@)
    } else if name == "--plugin-path"@ {
        Some("--plugin-path"@)
    } else if name == "--seed"@ {
        Some("--seed"@)
    } else if name == "--fps"@ {
        Some("--fps"@)
    } else if name == "--duration"@ {
        Some("--duration"@)
    } else if name == "--segment"@ {
        Some("--segment"@)
    } else if name == "--audio"@ {
        Some("--audio"@)
    } else if name == "-o"@ || name == "--output"@ {
        Some("--output"@)
    } else if name == "--width"@ {
        Some("--width"@)
    } else if name == "--height"@ {
        Some("--height"@)
    } else if name == "--cols"@ {
        Some("--cols"@)
    } else if name == "--rows"@ {
        Some("--rows"@)
    } else if name == "--crf"@ {
        Some("--crf"@)
    } else if name == "--preset"@ {
        Some("--preset"@)
    } else if name == "--encoder"@ {
        Some("--encoder"@)
    } else if name == "--format"@ {
        Some("--format"@)
    } else if name == "--container"@ {
        Some("--container"@)
    } else if name == "--baseline-dir"@ {
        Some("--baseline-dir"@)
    } else {
        None
    }
}

/// The model after option `canon` takes the value `v`, or the message
/// when the value is refused.
pub open spec fn set_value(a: ArgsView, canon: Seq<char>, v: Seq<char>) -> Result<ArgsView, Seq<char>> {
    if canon == "--job-file"@ {
        Ok(ArgsView { job_file: Some(v), ..a })
    } else if canon == "--effect"@ {
        Ok(ArgsView { effect: Some(v), ..a })
    } else if canon == "--plugin-path"@ {
        Ok(ArgsView { plugin_path: Some(v), ..a })
    } else if canon == "--seed"@ {
        match uint_value(v, u64::MAX as nat) {
            Some(x) => Ok(ArgsView { seed: x as u64, ..a }),
            None => Err(bad_value_msg(v, canon)),
        }
    } else if canon == "--fps"@ {
        match uint_value(v, u32::MAX as nat) {
            Some(x) => Ok(ArgsView { fps: x as u32, ..a }),
            None => Err(bad_value_msg(v, canon)),
        }
    } else if canon == "--duration"@ {
        Ok(ArgsView { duration: v, ..a })
    } else if canon == "--segment"@ {
        Ok(ArgsView { segment: Some(v), ..a })
    } else if canon == "--audio"@ {
        Ok(ArgsView { audio: Some(v), ..a })
    } else if canon == "--output"@ {
        Ok(ArgsView { output: Some(v), ..a })
    } else if canon == "--width"@ {
        match uint_value(v, u32::MAX as nat) {
            Some(x) => Ok(ArgsView { width: x as u32, ..a }),
            None => Err(bad_value_msg(v, canon)),
        }
    } else if canon == "--height"@ {
        match uint_value(v, u32::MAX as nat) {
            Some(x) => Ok(ArgsView { height: x as u32, ..a }),
            None => Err(bad_value_msg(v, canon)),
        }
    } else if canon == "--cols"@ {
        match uint_value(v, usize::MAX as nat) {
            Some(x) => Ok(ArgsView { cols: Some(x as usize), ..a }),
            None => Err(bad_value_msg(v, canon)),
        }
    } else if canon == "--rows"@ {
        match uint_value(v, usize::MAX as nat) {
            Some(x) => Ok(ArgsView { rows: Some(x as usize), ..a }),
            None => Err(bad_value_msg(v, canon)),
        }
    } else if canon == "--crf"@ {
        match uint_value(v, u8::MAX as nat) {
            Some(x) => Ok(ArgsView { crf: x as u8, ..a }),
            None => Err(bad_value_msg(v, canon)),
        }
    } else if canon == "--preset"@ {
        Ok(ArgsView { preset: Some(v), ..a })
    } else if canon == "--encoder"@ {
        Ok(ArgsView { encoder: Some(v), ..a })
    } else if canon == "--format"@ {
        match cli_format_spec(v) {
            Some(x) => Ok(ArgsView { format: x, ..a }),
            None => Err("invalid value '"@ + v + "' for '--format' [possible values: mp4, png, raw]"@),
        }
    } else if canon == "--container"@ {
        match cli_container_spec(v) {
            Some(x) => Ok(ArgsView { container: x, ..a }),
            None => Err("invalid value '"@ + v + "' for '--container' [possible values: mkv, mp4]"@),
        }
    } else if canon == "--baseline-dir"@ {
        Ok(ArgsView { baseline_dir: Some(v), ..a })
    } else {
        Ok(a)
    }
}

/// What the spec parser owes at the end of the arguments.
pub open spec fn finish_view(a: ArgsView) -> Result<ArgsView, Option<Seq<char>>> {
    if a.job_file is None && a.effect is None {
        Err(Some("the following required arguments were not provided: --effect <NAME>"@))
    } else if a.job_file is None && a.output is None && !a.dry_run && !a.stdout_raw {
        Err(Some("the following required arguments were not provided: --output <PATH>"@))
    } else {
        Ok(a)
    }
}

/// Read the arguments `toks` from position `i` into the model `a`. An
/// error of `None` asks for help; `Some(m)` reports `m`.
pub open spec fn run_args(toks: Seq<Seq<char>>, i: int, a: ArgsView) -> Result<ArgsView, Option<Seq<char>>>
    decreases toks.len() - i,
{
    if i < 0 || i >= toks.len() {
        finish_view(a)
    } else {
        let (name, inline) = split_arg(toks[i]);
        if name == "-h"@ || name == "--help"@ {
            Err(None)
        } else if is_switch(name) {
            run_args(toks, i + 1, set_switch(a, name))
        } else if valued_canon(name) is Some {
            let canon = valued_canon(name)->0;
            let (val, next) = match inline {
                Some(v) => (Some(v), i),
                None => if i + 1 < toks.len() {
                    (Some(toks[i + 1]), i + 1)
                } else {
                    (None, i + 1)
                },
            };
            match val {
                None => Err(Some("expected value for '"@ + canon + "'"@)),
                Some(v) => match set_value(a, canon, v) {
                    Err(m) => Err(Some(m)),
                    Ok(a2) => run_args(toks, next + 1, a2),
                },
            }
        } else {
            Err(Some("unexpected argument '"@ + name + "'"@))
        }
    }
}

/// The texts of a list of strings.
pub open spec fn texts(v: Seq<String>) -> Seq<Seq<char>> {
    Seq::new(v.len(), |i: int| v[i]@)
}


/// The words of the command line after the program name.
pub open spec fn arg_tokens(v: Seq<String>) -> Seq<Seq<char>> {
    if v.len() == 0 {
        Seq::empty()
    } else {
        texts(v.skip(1))
    }
}

/// What [`Args::parse_from`] owes for the outcome `out`.
pub open spec fn parse_outcome(out: Result<ArgsView, Option<Seq<char>>>, res: Result<Args, CliStop>) -> bool {
    match out {
        Ok(av) => res matches Ok(a) && args_view(a) == av,
        Err(None) => res matches Err(CliStop::Help),
        Err(Some(m)) => res matches Err(CliStop::Invalid(e)) && e@ == m,
    }
}

fn same_chars(s: &str, lit: &str) -> (r: bool)
    ensures
        r == (s@ == lit@),
{
    let a = s.to_owned();
    let b = lit.to_owned();
    a == b
}

/// Split `--name=value` into its name and value.
fn split_arg_exec(arg: &str) -> (r: (String, Option<String>))
    ensures
        (r.0@, opt_chars(r.1)) == split_arg(arg@),
{
    let cs = chars_vec(arg);
    let n = cs.len();
    if n >= 2 && cs[0] == '-' && cs[1] == '-' {
        let mut k: usize = 2;
        proof {
            assert(arg@.skip(2).skip(0) =~= arg@.skip(2));
        }
        while k < n && cs[k] != '='
            invariant
                cs@ == arg@,
                n == cs@.len(),
                2 <= k <= n,
                first_index(arg@.skip(2), '=') == if first_index(arg@.skip(k as int), '=') < 0 {
                    -1
                } else {
                    first_index(arg@.skip(k as int), '=') + k - 2
                },
            decreases n - k,
        {
            assert(arg@.skip(k as int).drop_first() =~= arg@.skip(k + 1));
            k = k + 1;
        }
        if k < n {
            assert(arg@.skip(k as int)[0] == '=');
            let mut name = String::new();
            let mut i: usize = 0;
            while i < k
                invariant
                    cs@ == arg@,
                    k < n == cs@.len(),
                    i <= k,
                    name@ == arg@.take(i as int),
                decreases k - i,
            {
                push_char(&mut name, cs[i]);
                i = i + 1;
                assert(name@ =~= arg@.take(i as int));
            }
            let mut val = String::new();
            let mut j: usize = k + 1;
            while j < n
                invariant
                    cs@ == arg@,
                    n == cs@.len(),
                    k + 1 <= j <= n,
                    val@ == arg@.subrange(k + 1, j as int),
                decreases n - j,
            {
                push_char(&mut val, cs[j]);
                j = j + 1;
                assert(val@ =~= arg@.subrange(k + 1, j as int));
            }
            assert(val@ =~= arg@.skip(k + 1));
            return (name, Some(val));
        }
        assert(arg@.skip(k as int).len() == 0);
    }
    (arg.to_owned(), None)
}

/// An unsigned number no larger than `max`, as the standard parser reads
/// it.
pub fn parse_uint(s: &str, max: u64) -> (r: Option<u64>)
    ensures
        r matches Some(v) ==> uint_value(s@, max as nat) == Some(v as nat),
        r is None <==> uint_value(s@, max as nat) is None,
{
    let cs = chars_vec(s);
    let n = cs.len();
    let start: usize = if n > 0 && cs[0] == '+' {
        1
    } else {
        0
    };
    let ghost d = if s@.len() > 0 && s@[0] == '+' {
        s@.drop_first()
    } else {
        s@
    };
    assert(d =~= cs@.skip(start as int));
    if start == n {
        assert(d.len() == 0);
        return None;
    }
    let mut v: u64 = 0;
    let mut i = start;
    while i < n
        invariant
            cs@ == s@,
            n == cs@.len(),
            d == cs@.skip(start as int),
            d == (if s@.len() > 0 && s@[0] == '+' {
                s@.drop_first()
            } else {
                s@
            }),
            start <= i <= n,
            forall|k: int| 0 <= k < i - start ==> crate::models::is_digit_char(#[trigger] d[k]),
            v == digit_chars_value(d.take(i - start)),
            v <= max,
        decreases n - i,
    {
        let c = cs[i];
        if !('0' <= c && c <= '9') {
            assert(d[i - start] == c);
            assert(!all_digit_chars(d));
            return None;
        }
        assert(d.take(i - start + 1).drop_last() =~= d.take(i - start));
        let dig = (c as u32 - 48) as u64;
        let nv = match v.checked_mul(10) {
            Some(t) => t.checked_add(dig),
            None => None,
        };
        match nv {
            Some(x) => {
                if x > max {
                    proof {
                        lemma_digits_grow(d, i - start + 1);
                        assert(x == digit_chars_value(d.take(i - start + 1)));
                    }
                    return None;
                }
                v = x;
            },
            None => {
                proof {
                    lemma_digits_grow(d, i - start + 1);
                }
                return None;
            },
        }
        i = i + 1;
    }
    assert(d.take(i - start) =~= d);
    Some(v)
}

/// A longer digit string is worth at least as much as its prefix.
proof fn lemma_digits_grow(d: Seq<char>, k: int)
    requires
        0 <= k <= d.len(),
    ensures
        all_digit_chars(d) ==> digit_chars_value(d) >= digit_chars_value(d.take(k)),
    decreases d.len() - k,
{
    if k < d.len() {
        lemma_digits_grow(d, k + 1);
        assert(d.take(k + 1).drop_last() =~= d.take(k));
    } else {
        assert(d.take(k) =~= d);
    }
}

/// The canonical name of an option that takes a value.
fn canon_of(name: &str) -> (r: Option<&'static str>)
    ensures
        r matches Some(c) ==> valued_canon(name@) == Some(c@),
        r is None <==> valued_canon(name@) is None,
{
    if same_chars(name, "--job-file") {
        Some("--job-file")
    } else if same_chars(name, "-e") || same_chars(name, "--effect") {
        Some("--effect")
    } else if same_chars(name, "--plugin-path") {
        Some("--plugin-path")
    } else if same_chars(name, "--seed") {
        Some("--seed")
    } else if same_chars(name, "--fps") {
        Some("--fps")
    } else if same_chars(name, "--duration") {
        Some("--duration")
    } else if same_chars(name, "--segment") {
        Some("--segment")
    } else if same_chars(name, "--audio") {
        Some("--audio")
    } else if same_chars(name, "-o") || same_chars(name, "--output") {
        Some("--output")
    } else if same_chars(name, "--width") {
        Some("--width")
    } else if same_chars(name, "--height") {
        Some("--height")
    } else if same_chars(name, "--cols") {
        Some("--cols")
    } else if same_chars(name, "--rows") {
        Some("--rows")
    } else if same_chars(name, "--crf") {
        Some("--crf")
    } else if same_chars(name, "--preset") {
        Some("--preset")
    } else if same_chars(name, "--encoder") {
        Some("--encoder")
    } else if same_chars(name, "--format") {
        Some("--format")
    } else if same_chars(name, "--container") {
        Some("--container")
    } else if same_chars(name, "--baseline-dir") {
        Some("--baseline-dir")
    } else {
        None
    }
}

/// `true` when `name` is a switch.
fn switch_of(name: &str) -> (r: bool)
    ensures
        r == is_switch(name@),
{
    same_chars(name, "--dry-run") || same_chars(name, "--raw") || same_chars(name, "--resume") || same_chars(name, "--no-hw-encode") || same_chars(name, "--no-gpu-upscale") || same_chars(name, "--stdout-raw") || same_chars(name, "--update-baselines") || same_chars(name, "--snapshot-last-only") || same_chars(name, "--cpu-raster")
}

impl Args {
    /// The arguments before any flag is read.
    pub fn defaults() -> (a: Args)
        ensures
            args_view(a) == default_view(),
    {
        let a = Args {
            job_file: None,
            effect: None,
            plugin_path: None,
            seed: 0x00C0_FFEE,
            fps: 30,
            duration: "10s".to_owned(),
            segment: None,
            audio: None,
            output: None,
            width: 1280,
            height: 720,
            cols: None,
            rows: None,
            dry_run: false,
            raw: false,
            resume: false,
            crf: 35,
            preset: None,
            encoder: None,
            no_hw_encode: false,
            no_gpu_upscale: false,
            format: CliFormat::Mp4,
            container: CliContainer::Mkv,
            stdout_raw: false,
            baseline_dir: None,
            update_baselines: false,
            snapshot_last_only: false,
            cpu_raster: false,
        };
        assert(args_view(a) == default_view());
        a
    }

    fn set_switch_exec(&mut self, name: &str)
        requires
            is_switch(name@),
        ensures
            args_view(*final(self)) == set_switch(args_view(*old(self)), name@),
    {
        if same_chars(name, "--dry-run") {
            self.dry_run = true;
        } else if same_chars(name, "--raw") {
            self.raw = true;
        } else if same_chars(name, "--resume") {
            self.resume = true;
        } else if same_chars(name, "--no-hw-encode") {
            self.no_hw_encode = true;
        } else if same_chars(name, "--no-gpu-upscale") {
            self.no_gpu_upscale = true;
        } else if same_chars(name, "--stdout-raw") {
            self.stdout_raw = true;
        } else if same_chars(name, "--update-baselines") {
            self.update_baselines = true;
        } else if same_chars(name, "--snapshot-last-only") {
            self.snapshot_last_only = true;
        } else if same_chars(name, "--cpu-raster") {
            self.cpu_raster = true;
        }
    }

    #[verifier::rlimit(100)]
    #[verifier::spinoff_prover]
    fn set_value_exec(&mut self, canon: &str, v: String) -> (r: Result<(), String>)
        ensures
            match set_value(args_view(*old(self)), canon@, v@) {
                Ok(av) => r is Ok && args_view(*final(self)) == av,
                Err(m) => r matches Err(e) && e@ == m,
            },
    {
        if same_chars(canon, "--job-file") {
            self.job_file = Some(v);
            Ok(())
        } else if same_chars(canon, "--effect") {
            self.effect = Some(v);
            Ok(())
        } else if same_chars(canon, "--plugin-path") {
            self.plugin_path = Some(v);
            Ok(())
        } else if same_chars(canon, "--seed") {
            match parse_uint(v.as_str(), u64::MAX as u64) {
                Some(x) => {
                    self.seed = x;
                    Ok(())
                },
                None => {
                    let head = concat_str("invalid value '", v.as_str());
                    let mid = concat_str(head.as_str(), "' for '");
                    let m2 = concat_str(mid.as_str(), canon);
                    Err(concat_str(m2.as_str(), "'"))
                },
            }
        } else if same_chars(canon, "--fps") {
            match parse_uint(v.as_str(), u32::MAX as u64) {
                Some(x) => {
                    self.fps = x as u32;
                    Ok(())
                },
                None => {
                    let head = concat_str("invalid value '", v.as_str());
                    let mid = concat_str(head.as_str(), "' for '");
                    let m2 = concat_str(mid.as_str(), canon);
                    Err(concat_str(m2.as_str(), "'"))
                },
            }
        } else if same_chars(canon, "--duration") {
            self.duration = v;
            Ok(())
        } else if same_chars(canon, "--segment") {
            self.segment = Some(v);
            Ok(())
        } else if same_chars(canon, "--audio") {
            self.audio = Some(v);
            Ok(())
        } else if same_chars(canon, "--output") {
            self.output = Some(v);
            Ok(())
        } else if same_chars(canon, "--width") {
            match parse_uint(v.as_str(), u32::MAX as u64) {
                Some(x) => {
                    self.width = x as u32;
                    Ok(())
                },
                None => {
                    let head = concat_str("invalid value '", v.as_str());
                    let mid = concat_str(head.as_str(), "' for '");
                    let m2 = concat_str(mid.as_str(), canon);
                    Err(concat_str(m2.as_str(), "'"))
                },
            }
        } else if same_chars(canon, "--height") {
            match parse_uint(v.as_str(), u32::MAX as u64) {
                Some(x) => {
                    self.height = x as u32;
                    Ok(())
                },
                None => {
                    let head = concat_str("invalid value '", v.as_str());
                    let mid = concat_str(head.as_str(), "' for '");
                    let m2 = concat_str(mid.as_str(), canon);
                    Err(concat_str(m2.as_str(), "'"))
                },
            }
        } else if same_chars(canon, "--cols") {
            match parse_uint(v.as_str(), usize::MAX as u64) {
                Some(x) => {
                    self.cols = Some(x as usize);
                    Ok(())
                },
                None => {
                    let head = concat_str("invalid value '", v.as_str());
                    let mid = concat_str(head.as_str(), "' for '");
                    let m2 = concat_str(mid.as_str(), canon);
                    Err(concat_str(m2.as_str(), "'"))
                },
            }
        } else if same_chars(canon, "--rows") {
            match parse_uint(v.as_str(), usize::MAX as u64) {
                Some(x) => {
                    self.rows = Some(x as usize);
                    Ok(())
                },
                None => {
                    let head = concat_str("invalid value '", v.as_str());
                    let mid = concat_str(head.as_str(), "' for '");
                    let m2 = concat_str(mid.as_str(), canon);
                    Err(concat_str(m2.as_str(), "'"))
                },
            }
        } else if same_chars(canon, "--crf") {
            match parse_uint(v.as_str(), u8::MAX as u64) {
                Some(x) => {
                    self.crf = x as u8;
                    Ok(())
                },
                None => {
                    let head = concat_str("invalid value '", v.as_str());
                    let mid = concat_str(head.as_str(), "' for '");
                    let m2 = concat_str(mid.as_str(), canon);
                    Err(concat_str(m2.as_str(), "'"))
                },
            }
        } else if same_chars(canon, "--preset") {
            self.preset = Some(v);
            Ok(())
        } else if same_chars(canon, "--encoder") {
            self.encoder = Some(v);
            Ok(())
        } else if same_chars(canon, "--format") {
            match CliFormat::parse(v.as_str()) {
                Ok(x) => {
                    self.format = x;
                    Ok(())
                },
                Err(e) => Err(e),
            }
        } else if same_chars(canon, "--container") {
            match CliContainer::parse(v.as_str()) {
                Ok(x) => {
                    self.container = x;
                    Ok(())
                },
                Err(e) => Err(e),
            }
        } else if same_chars(canon, "--baseline-dir") {
            self.baseline_dir = Some(v);
            Ok(())
        } else {
            Ok(())
        }
    }

    /// Parse an argv-style list (the first element is the program name).
    /// Stops at `-h`/`--help` or at the first bad argument, with the
    /// message to show.
    pub fn parse_from(args: &[String]) -> (res: Result<Args, CliStop>)
        ensures
            parse_outcome(run_args(arg_tokens(args@), 0, default_view()), res),
    {
        let ghost toks = arg_tokens(args@);
        let n = args.len();
        let mut a = Args::defaults();
        if n == 0 {
            return Args::finish(a);
        }
        let mut i: usize = 1;
        assert(toks.len() == n - 1);
        loop
            invariant
                n == args@.len(),
                n >= 1,
                toks == arg_tokens(args@),
                1 <= i <= n + 1,
                run_args(toks, 0, default_view()) == run_args(toks, i - 1, args_view(a)),
            decreases n + 1 - i,
        {
            if i >= n {
                proof {
                    assert(run_args(toks, i - 1, args_view(a)) == finish_view(args_view(a)));
                }
                return Args::finish(a);
            }
            match Args::parse_step(&mut a, args, i) {
                Ok(j) => {
                    i = j;
                },
                Err(stop) => {
                    return Err(stop);
                },
            }
        }
    }

    /// Read the argument at `i` (and its value, if it takes one).
    #[verifier::rlimit(100)]
    #[verifier::spinoff_prover]
    fn parse_step(a: &mut Args, args: &[String], i: usize) -> (r: Result<usize, CliStop>)
        requires
            1 <= i < args@.len(),
        ensures
            r matches Ok(j) ==> i < j <= args@.len() + 1 && run_args(
                arg_tokens(args@),
                i - 1,
                args_view(*old(a)),
            ) == run_args(arg_tokens(args@), j - 1, args_view(*final(a))),
            r matches Err(stop) ==> parse_outcome(
                run_args(arg_tokens(args@), i - 1, args_view(*old(a))),
                Err(stop),
            ),
    {
        let ghost toks = arg_tokens(args@);
        let n = args.len();
        assert(toks[i - 1] == args@[i as int]@);
        let (name, inline) = split_arg_exec(args[i].as_str());
        if same_chars(name.as_str(), "-h") || same_chars(name.as_str(), "--help") {
            return Err(CliStop::Help);
        }
        if switch_of(name.as_str()) {
            a.set_switch_exec(name.as_str());
            return Ok(i + 1);
        }
        match canon_of(name.as_str()) {
            Some(canon) => {
                let mut next = i;
                let val = match inline {
                    Some(v) => v,
                    None => {
                        if i + 1 < n {
                            next = i + 1;
                            assert(toks[i as int] == args@[i + 1]@);
                            args[i + 1].clone()
                        } else {
                            let head = concat_str("expected value for '", canon);
                            return Err(CliStop::Invalid(concat_str(head.as_str(), "'")));
                        }
                    },
                };
                match a.set_value_exec(canon, val) {
                    Ok(()) => Ok(next + 1),
                    Err(m) => Err(CliStop::Invalid(m)),
                }
            },
            None => {
                let head = concat_str("unexpected argument '", name.as_str());
                Err(CliStop::Invalid(concat_str(head.as_str(), "'")))
            },
        }
    }

    /// Check the arguments every run needs.
    fn finish(a: Args) -> (res: Result<Args, CliStop>)
        ensures
            parse_outcome(finish_view(args_view(a)), res),
    {
        if a.job_file.is_none() {
            if a.effect.is_none() {
                return Err(
                    CliStop::Invalid(
                        "the following required arguments were not provided: --effect <NAME>".to_owned(),
                    ),
                );
            }
            if a.output.is_none() && !a.dry_run && !a.stdout_raw {
                return Err(
                    CliStop::Invalid(
                        "the following required arguments were not provided: --output <PATH>".to_owned(),
                    ),
                );
            }
        }
        Ok(a)
    }
}

} // verus!
