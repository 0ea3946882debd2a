use crate::cli_parse::{arg_tokens, bad_value_msg, opt_chars, parse_uint, uint_value, CliStop};
use crate::error::concat_str;
use vstd::prelude::*;

verus! {

/// A studio subcommand.
#[derive(Debug)]
pub enum Cmd {
    /// Interactive Director TUI (same as default with no subcommand)
    Tui,
    /// Add a job to the queue
    Enqueue {
        effect: String,
        output: String,
        duration: String,
        seed: u64,
        fps: u32,
        width: u32,
        height: u32,
        dry_run: bool,
        id: Option<String>,
        segment: Option<String>,
        audio: Option<String>,
        resume: bool,
        crf: u8,
        preset: Option<String>,
        no_hw_encode: bool,
        no_gpu_upscale: bool,
    },
    /// List queue entries
    List,
    /// Run the next pending job (or all with --all)
    Run { all: bool },
}

/// The studio command line: queue file and subcommand.
#[derive(Debug)]
pub struct StudioArgs {
    pub queue: Option<String>,
    pub cmd: Option<Cmd>,
}

/// The options of `enqueue` as read so far.
pub struct EnqueueView {
    pub effect: Option<Seq<char>>,
    pub output: Option<Seq<char>>,
    pub duration: Seq<char>,
    pub seed: u64,
    pub fps: u32,
    pub width: u32,
    pub height: u32,
    pub dry_run: bool,
    pub id: Option<Seq<char>>,
    pub segment: Option<Seq<char>>,
    pub audio: Option<Seq<char>>,
    pub resume: bool,
    pub crf: u8,
    pub preset: Option<Seq<char>>,
    pub no_hw_encode: bool,
    pub no_gpu_upscale: bool,
}

/// The model of a subcommand.
pub enum CmdView {
    Tui,
    Enqueue(EnqueueView),
    List,
    Run(bool),
}

/// `enqueue` before any option is read.
pub open spec fn enqueue_defaults() -> EnqueueView {
    EnqueueView {
        effect: None,
        output: None,
        duration: "10s"@,
        seed: 0x00C0_FFEE,
        fps: 30,
        width: 1280,
        height: 720,
        dry_run: false,
        id: None,
        segment: None,
        audio: None,
        resume: false,
        crf: 35,
        preset: None,
        no_hw_encode: false,
        no_gpu_upscale: false,
    }
}

/// `enqueue` switches.
pub open spec fn enqueue_switch(e: EnqueueView, name: Seq<char>) -> Option<EnqueueView> {
    if name == "--dry-run"@ {
        Some(EnqueueView { dry_run: true, ..e })
    } else if name == "--resume"@ {
        Some(EnqueueView { resume: true, ..e })
    } else if name == "--no-hw-encode"@ {
        Some(EnqueueView { no_hw_encode: true, ..e })
    } else if name == "--no-gpu-upscale"@ {
        Some(EnqueueView { no_gpu_upscale: true, ..e })
    } else {
        None
    }
}

/// The canonical name of an `enqueue` option that takes a value.
pub open spec fn enqueue_canon(name: Seq<char>) -> Option<Seq<char>> {
    if name == "-e"@ || name == "--effect"@ {
        Some("--effect"@)
    } else if name == "-o"@ || name == "--output"@ {
        Some("--output"@)
    } else if name == "--duration"@ {
        Some("--duration"@)
    } else if name == "--seed"@ {
        Some("--seed"@)
    } else if name == "--fps"@ {
        Some("--fps"@)
    } else if name == "--width"@ {
        Some("--width"@)
    } else if name == "--height"@ {
        Some("--height"@)
    } else if name == "--id"@ {
        Some("--id"@)
    } else if name == "--segment"@ {
        Some("--segment"@)
    } else if name == "--audio"@ {
        Some("--audio"@)
    } else if name == "--crf"@ {
        Some("--crf"@)
    } else if name == "--preset"@ {
        Some("--preset"@)
    } else {
        None
    }
}

/// `enqueue` after option `canon` takes `v`, or the message.
pub open spec fn enqueue_value(e: EnqueueView, canon: Seq<char>, v: Seq<char>) -> Result<EnqueueView, Seq<char>> {
    if canon == "--effect"@ {
        Ok(EnqueueView { effect: Some(v), ..e })
    } else if canon == "--output"@ {
        Ok(EnqueueView { output: Some(v), ..e })
    } else if canon == "--duration"@ {
        Ok(EnqueueView { duration: v, ..e })
    } else if canon == "--seed"@ {
        match uint_value(v, u64::MAX as nat) {
            Some(x) => Ok(EnqueueView { seed: x as u64, ..e }),
            None => Err(bad_value_msg(v, canon)),
        }
    } else if canon == "--fps"@ {
        match uint_value(v, u32::MAX as nat) {
            Some(x) => Ok(EnqueueView { fps: x as u32, ..e }),
            None => Err(bad_value_msg(v, canon)),
        }
    } else if canon == "--width"@ {
        match uint_value(v, u32::MAX as nat) {
            Some(x) => Ok(EnqueueView { width: x as u32, ..e }),
            None => Err(bad_value_msg(v, canon)),
        }
    } else if canon == "--height"@ {
        match uint_value(v, u32::MAX as nat) {
            Some(x) => Ok(EnqueueView { height: x as u32, ..e }),
            None => Err(bad_value_msg(v, canon)),
        }
    } else if canon == "--id"@ {
        Ok(EnqueueView { id: Some(v), ..e })
    } else if canon == "--segment"@ {
        Ok(EnqueueView { segment: Some(v), ..e })
    } else if canon == "--audio"@ {
        Ok(EnqueueView { audio: Some(v), ..e })
    } else if canon == "--crf"@ {
        match uint_value(v, u8::MAX as nat) {
            Some(x) => Ok(EnqueueView { crf: x as u8, ..e }),
            None => Err(bad_value_msg(v, canon)),
        }
    } else if canon == "--preset"@ {
        Ok(EnqueueView { preset: Some(v), ..e })
    } else {
        Ok(e)
    }
}

/// Read `enqueue` options from `j` to the end; `--queue` may appear among
/// them.
pub open spec fn enqueue_opts(
    toks: Seq<Seq<char>>,
    j: int,
    queue: Option<Seq<char>>,
    e: EnqueueView,
) -> Result<(Option<Seq<char>>, EnqueueView), Seq<char>>
    decreases toks.len() - j,
{
    if j < 0 || j >= toks.len() {
        Ok((queue, e))
    } else {
        let name = toks[j];
        if enqueue_switch(e, name) is Some {
            enqueue_opts(toks, j + 1, queue, enqueue_switch(e, name)->0)
        } else if name == "--queue"@ || enqueue_canon(name) is Some {
            let canon = if name == "--queue"@ {
                "--queue"@
            } else {
                enqueue_canon(name)->0
            };
            if j + 1 >= toks.len() {
                Err("expected value for '"@ + canon + "'"@)
            } else if name == "--queue"@ {
                enqueue_opts(toks, j + 2, Some(toks[j + 1]), e)
            } else {
                match enqueue_value(e, canon, toks[j + 1]) {
                    Err(m) => Err(m),
                    Ok(e2) => enqueue_opts(toks, j + 2, queue, e2),
                }
            }
        } else {
            Err("unexpected argument '"@ + name + "' for 'enqueue'"@)
        }
    }
}

/// Read `run` options from `j` to the end.
pub open spec fn run_opts(toks: Seq<Seq<char>>, j: int, queue: Option<Seq<char>>, all: bool) -> Result<
    (Option<Seq<char>>, bool),
    Seq<char>,
>
    decreases toks.len() - j,
{
    if j < 0 || j >= toks.len() {
        Ok((queue, all))
    } else {
        let name = toks[j];
        if name == "--all"@ {
            run_opts(toks, j + 1, queue, true)
        } else if name == "--queue"@ {
            if j + 1 >= toks.len() {
                Err("expected value for '"@ + "--queue"@ + "'"@)
            } else {
                run_opts(toks, j + 2, Some(toks[j + 1]), all)
            }
        } else {
            Err("unexpected argument '"@ + name + "' for 'run'"@)
        }
    }
}

/// Read the studio command line from `i`. An error of `None` asks for
/// help.
pub open spec fn studio_run(
    toks: Seq<Seq<char>>,
    i: int,
    queue: Option<Seq<char>>,
    cmd: Option<CmdView>,
) -> Result<(Option<Seq<char>>, Option<CmdView>), Option<Seq<char>>>
    decreases toks.len() - i,
{
    if i < 0 || i >= toks.len() {
        Ok((queue, cmd))
    } else {
        let a = toks[i];
        if a == "-h"@ || a == "--help"@ {
            Err(None)
        } else if a == "--queue"@ {
            if i + 1 >= toks.len() {
                Err(Some("expected value for '"@ + "--queue"@ + "'"@))
            } else {
                studio_run(toks, i + 2, Some(toks[i + 1]), cmd)
            }
        } else if a == "tui"@ {
            studio_run(toks, i + 1, queue, Some(CmdView::Tui))
        } else if a == "list"@ {
            studio_run(toks, i + 1, queue, Some(CmdView::List))
        } else if a == "run"@ {
            match run_opts(toks, i + 1, queue, false) {
                Err(m) => Err(Some(m)),
                Ok((q, all)) => Ok((q, Some(CmdView::Run(all)))),
            }
        } else if a == "enqueue"@ {
            match enqueue_opts(toks, i + 1, queue, enqueue_defaults()) {
                Err(m) => Err(Some(m)),
                Ok((q, e)) => if e.effect is None {
                    Err(Some("required: --effect <NAME>"@))
                } else if e.output is None {
                    Err(Some("required: --output <PATH>"@))
                } else {
                    Ok((q, Some(CmdView::Enqueue(e))))
                },
            }
        } else {
            Err(Some("unexpected argument '"@ + a + "'"@))
        }
    }
}

/// The model of a parsed `enqueue`.
pub open spec fn enqueue_view_of(c: Cmd) -> EnqueueView {
    match c {
        Cmd::Enqueue {
            effect,
            output,
            duration,
            seed,
            fps,
            width,
            height,
            dry_run,
            id,
            segment,
            audio,
            resume,
            crf,
            preset,
            no_hw_encode,
            no_gpu_upscale,
        } => EnqueueView {
            effect: Some(effect@),
            output: Some(output@),
            duration: duration@,
            seed,
            fps,
            width,
            height,
            dry_run,
            id: opt_chars(id),
            segment: opt_chars(segment),
            audio: opt_chars(audio),
            resume,
            crf,
            preset: opt_chars(preset),
            no_hw_encode,
            no_gpu_upscale,
        },
        _ => enqueue_defaults(),
    }
}

/// The model of a subcommand.
pub open spec fn cmd_view(c: Cmd) -> CmdView {
    match c {
        Cmd::Tui => CmdView::Tui,
        Cmd::List => CmdView::List,
        Cmd::Run { all } => CmdView::Run(all),
        Cmd::Enqueue { .. } => CmdView::Enqueue(enqueue_view_of(c)),
    }
}

/// What [`parse_args`] owes for the outcome `out`.
pub open spec fn studio_outcome(
    out: Result<(Option<Seq<char>>, Option<CmdView>), Option<Seq<char>>>,
    res: Result<StudioArgs, CliStop>,
) -> bool {
    match out {
        Ok((q, c)) => res matches Ok(a) && opt_chars(a.queue) == q && match a.cmd {
            Some(cmd) => c == Some(cmd_view(cmd)),
            None => c is None,
        },
        Err(None) => res matches Err(CliStop::Help),
        Err(Some(m)) => res matches Err(CliStop::Invalid(e)) && e@ == m,
    }
}

fn same_chars(s: &str, lit: &str) -> (r: bool)
    ensures
        r == (s@ == lit@),
{
    let a = s.to_owned();
    let b = lit.to_owned();
    a == b
}

/// The options of `enqueue` being read.
struct EnqueueState {
    effect: Option<String>,
    output: Option<String>,
    duration: String,
    seed: u64,
    fps: u32,
    width: u32,
    height: u32,
    dry_run: bool,
    id: Option<String>,
    segment: Option<String>,
    audio: Option<String>,
    resume: bool,
    crf: u8,
    preset: Option<String>,
    no_hw_encode: bool,
    no_gpu_upscale: bool,
}

/// The model of the `enqueue` options read so far.
spec fn state_view(s: EnqueueState) -> EnqueueView {
    EnqueueView {
        effect: opt_chars(s.effect),
        output: opt_chars(s.output),
        duration: s.duration@,
        seed: s.seed,
        fps: s.fps,
        width: s.width,
        height: s.height,
        dry_run: s.dry_run,
        id: opt_chars(s.id),
        segment: opt_chars(s.segment),
        audio: opt_chars(s.audio),
        resume: s.resume,
        crf: s.crf,
        preset: opt_chars(s.preset),
        no_hw_encode: s.no_hw_encode,
        no_gpu_upscale: s.no_gpu_upscale,
    }
}

fn enqueue_canon_exec(name: &str) -> (r: Option<&'static str>)
    ensures
        r matches Some(c) ==> enqueue_canon(name@) == Some(c@),
        r is None <==> enqueue_canon(name@) is None,
{
    if same_chars(name, "-e") || same_chars(name, "--effect") {
        Some("--effect")
    } else if same_chars(name, "-o") || same_chars(name, "--output") {
        Some("--output")
    } else if same_chars(name, "--duration") {
        Some("--duration")
    } else if same_chars(name, "--seed") {
        Some("--seed")
    } else if same_chars(name, "--fps") {
        Some("--fps")
    } else if same_chars(name, "--width") {
        Some("--width")
    } else if same_chars(name, "--height") {
        Some("--height")
    } else if same_chars(name, "--id") {
        Some("--id")
    } else if same_chars(name, "--segment") {
        Some("--segment")
    } else if same_chars(name, "--audio") {
        Some("--audio")
    } else if same_chars(name, "--crf") {
        Some("--crf")
    } else if same_chars(name, "--preset") {
        Some("--preset")
    } else {
        None
    }
}

impl EnqueueState {
    fn switch(&mut self, name: &str) -> (r: bool)
        ensures
            r == enqueue_switch(state_view(*old(self)), name@) is Some,
            r ==> state_view(*final(self)) == enqueue_switch(state_view(*old(self)), name@)->0,
            !r ==> *final(self) == *old(self),
    {
        if same_chars(name, "--dry-run") {
            self.dry_run = true;
            true
        } else if same_chars(name, "--resume") {
            self.resume = true;
            true
        } else if same_chars(name, "--no-hw-encode") {
            self.no_hw_encode = true;
            true
        } else if same_chars(name, "--no-gpu-upscale") {
            self.no_gpu_upscale = true;
            true
        } else {
            false
        }
    }

    #[verifier::rlimit(100)]
    #[verifier::spinoff_prover]
    fn set(&mut self, canon: &str, v: String) -> (r: Result<(), String>)
        ensures
            match enqueue_value(state_view(*old(self)), canon@, v@) {
                Ok(ev) => r is Ok && state_view(*final(self)) == ev,
                Err(m) => r matches Err(e) && e@ == m,
            },
    {
        if same_chars(canon, "--effect") {
            self.effect = Some(v);
            Ok(())
        } else if same_chars(canon, "--output") {
            self.output = Some(v);
            Ok(())
        } else if same_chars(canon, "--duration") {
            self.duration = v;
            Ok(())
        } else if same_chars(canon, "--seed") {
            match parse_uint(v.as_str(), u64::MAX as u64) {
                Some(x) => {
                    self.seed = x;
                    Ok(())
                },
                None => {
                    let head = concat_str("invalid value '", v.as_str());
                    let mid = concat_str(head.as_str(), "' for '");
                    let m2 = concat_str(mid.as_str(), canon);
                    Err(concat_str(m2.as_str(), "'"))
                },
            }
        } else if same_chars(canon, "--fps") {
            match parse_uint(v.as_str(), u32::MAX as u64) {
                Some(x) => {
                    self.fps = x as u32;
                    Ok(())
                },
                None => {
                    let head = concat_str("invalid value '", v.as_str());
                    let mid = concat_str(head.as_str(), "' for '");
                    let m2 = concat_str(mid.as_str(), canon);
                    Err(concat_str(m2.as_str(), "'"))
                },
            }
        } else if same_chars(canon, "--width") {
            match parse_uint(v.as_str(), u32::MAX as u64) {
                Some(x) => {
                    self.width = x as u32;
                    Ok(())
                },
                None => {
                    let head = concat_str("invalid value '", v.as_str());
                    let mid = concat_str(head.as_str(), "' for '");
                    let m2 = concat_str(mid.as_str(), canon);
                    Err(concat_str(m2.as_str(), "'"))
                },
            }
        } else if same_chars(canon, "--height") {
            match parse_uint(v.as_str(), u32::MAX as u64) {
                Some(x) => {
                    self.height = x as u32;
                    Ok(())
                },
                None => {
                    let head = concat_str("invalid value '", v.as_str());
                    let mid = concat_str(head.as_str(), "' for '");
                    let m2 = concat_str(mid.as_str(), canon);
                    Err(concat_str(m2.as_str(), "'"))
                },
            }
        } else if same_chars(canon, "--id") {
            self.id = Some(v);
            Ok(())
        } else if same_chars(canon, "--segment") {
            self.segment = Some(v);
            Ok(())
        } else if same_chars(canon, "--audio") {
            self.audio = Some(v);
            Ok(())
        } else if same_chars(canon, "--crf") {
            match parse_uint(v.as_str(), u8::MAX as u64) {
                Some(x) => {
                    self.crf = x as u8;
                    Ok(())
                },
                None => {
                    let head = concat_str("invalid value '", v.as_str());
                    let mid = concat_str(head.as_str(), "' for '");
                    let m2 = concat_str(mid.as_str(), canon);
                    Err(concat_str(m2.as_str(), "'"))
                },
            }
        } else if same_chars(canon, "--preset") {
            self.preset = Some(v);
            Ok(())
        } else {
            Ok(())
        }
    }
}

/// `--name` takes the next argument; the message names `name` when there
/// is none.
fn next_val(argv: &[String], j: usize, name: &str) -> (r: Result<String, String>)
    requires
        j < argv@.len(),
    ensures
        j + 1 < argv@.len() ==> (r matches Ok(v) && v@ == argv@[j + 1]@),
        j + 1 >= argv@.len() ==> (r matches Err(e) && e@ == "expected value for '"@ + name@ + "'"@),
{
    let n = argv.len();
    if j + 1 < n {
        Ok(argv[j + 1].clone())
    } else {
        let head = concat_str("expected value for '", name);
        Err(concat_str(head.as_str(), "'"))
    }
}

/// Read `run` options from `argv[j..]` (indices into the full command line).
fn parse_run(argv: &[String], j: usize, queue: &mut Option<String>) -> (r: Result<bool, String>)
    requires
        1 <= j <= argv@.len(),
    ensures
        match run_opts(arg_tokens(argv@), j - 1, opt_chars(*old(queue)), false) {
            Ok((q, all)) => r == Ok::<bool, String>(all) && opt_chars(*final(queue)) == q,
            Err(m) => r matches Err(e) && e@ == m,
        },
{
    let ghost toks = arg_tokens(argv@);
    let n = argv.len();
    let mut all = false;
    let mut k = j;
    loop
        invariant
            n == argv@.len(),
            toks == arg_tokens(argv@),
            1 <= k <= n + 1,
            run_opts(toks, j - 1, opt_chars(*old(queue)), false) == run_opts(
                toks,
                k - 1,
                opt_chars(*queue),
                all,
            ),
        decreases n + 1 - k,
    {
        if k >= n {
            return Ok(all);
        }
        assert(toks[k - 1] == argv@[k as int]@);
        if same_chars(argv[k].as_str(), "--all") {
            all = true;
            k = k + 1;
        } else if same_chars(argv[k].as_str(), "--queue") {
            match next_val(argv, k, "--queue") {
                Ok(v) => {
                    assert(toks[k as int] == argv@[k + 1]@);
                    *queue = Some(v);
                    k = k + 2;
                },
                Err(e) => {
                    return Err(e);
                },
            }
        } else {
            let head = concat_str("unexpected argument '", argv[k].as_str());
            return Err(concat_str(head.as_str(), "' for 'run'"));
        }
    }
}

/// Read `enqueue` options from `argv[j..]`.
#[verifier::rlimit(100)]
fn parse_enqueue(argv: &[String], j: usize, queue: &mut Option<String>) -> (r: Result<Cmd, String>)
    requires
        1 <= j <= argv@.len(),
    ensures
        match enqueue_opts(arg_tokens(argv@), j - 1, opt_chars(*old(queue)), enqueue_defaults()) {
            Ok((q, e)) => if e.effect is None {
                r matches Err(m) && m@ == "required: --effect <NAME>"@
            } else if e.output is None {
                r matches Err(m) && m@ == "required: --output <PATH>"@
            } else {
                r matches Ok(c) && cmd_view(c) == CmdView::Enqueue(e) && opt_chars(*final(queue)) == q
            },
            Err(m) => r matches Err(x) && x@ == m,
        },
{
    let ghost toks = arg_tokens(argv@);
    let n = argv.len();
    let mut st = EnqueueState {
        effect: None,
        output: None,
        duration: "10s".to_owned(),
        seed: 0x00C0_FFEE,
        fps: 30,
        width: 1280,
        height: 720,
        dry_run: false,
        id: None,
        segment: None,
        audio: None,
        resume: false,
        crf: 35,
        preset: None,
        no_hw_encode: false,
        no_gpu_upscale: false,
    };
    assert(state_view(st) == enqueue_defaults());
    let mut k = j;
    while k < n
        invariant
            n == argv@.len(),
            toks == arg_tokens(argv@),
            1 <= k <= n + 1,
            enqueue_opts(toks, j - 1, opt_chars(*old(queue)), enqueue_defaults()) == enqueue_opts(
                toks,
                k - 1,
                opt_chars(*queue),
                state_view(st),
            ),
        decreases n + 1 - k,
    {
        assert(toks[k - 1] == argv@[k as int]@);
        let name = argv[k].as_str();
        if st.switch(name) {
            k = k + 1;
        } else if same_chars(name, "--queue") {
            match next_val(argv, k, "--queue") {
                Ok(v) => {
                    assert(toks[k as int] == argv@[k + 1]@);
                    *queue = Some(v);
                    k = k + 2;
                },
                Err(e) => {
                    return Err(e);
                },
            }
        } else {
            match enqueue_canon_exec(name) {
                Some(canon) => {
                    let v = match next_val(argv, k, canon) {
                        Ok(v) => v,
                        Err(e) => {
                            return Err(e);
                        },
                    };
                    assert(toks[k as int] == argv@[k + 1]@);
                    match st.set(canon, v) {
                        Ok(()) => {},
                        Err(e) => {
                            return Err(e);
                        },
                    }
                    k = k + 2;
                },
                None => {
                    let head = concat_str("unexpected argument '", name);
                    return Err(concat_str(head.as_str(), "' for 'enqueue'"));
                },
            }
        }
    }
    let effect = match st.effect {
        Some(e) => e,
        None => {
            return Err("required: --effect <NAME>".to_owned());
        },
    };
    let output = match st.output {
        Some(o) => o,
        None => {
            return Err("required: --output <PATH>".to_owned());
        },
    };
    Ok(
        Cmd::Enqueue {
            effect,
            output,
            duration: st.duration,
            seed: st.seed,
            fps: st.fps,
            width: st.width,
            height: st.height,
            dry_run: st.dry_run,
            id: st.id,
            segment: st.segment,
            audio: st.audio,
            resume: st.resume,
            crf: st.crf,
            preset: st.preset,
            no_hw_encode: st.no_hw_encode,
            no_gpu_upscale: st.no_gpu_upscale,
        },
    )
}

/// Parse the studio command line (the first element is the program
/// name). Stops at `-h`/`--help` or at the first bad argument.
pub fn parse_args(argv: &[String]) -> (res: Result<StudioArgs, CliStop>)
    ensures
        studio_outcome(studio_run(arg_tokens(argv@), 0, None, None), res),
{
    let ghost toks = arg_tokens(argv@);
    let n = argv.len();
    let mut queue: Option<String> = None;
    let mut cmd: Option<Cmd> = None;
    if n == 0 {
        return Ok(StudioArgs { queue, cmd });
    }
    let mut i: usize = 1;
    loop
        invariant
            n == argv@.len(),
            n >= 1,
            toks == arg_tokens(argv@),
            1 <= i <= n + 1,
            studio_run(toks, 0, None, None) == studio_run(
                toks,
                i - 1,
                opt_chars(queue),
                match cmd {
                    Some(c) => Some(cmd_view(c)),
                    None => None,
                },
            ),
        decreases n + 1 - i,
    {
        if i >= n {
            return Ok(StudioArgs { queue, cmd });
        }
        assert(toks[i - 1] == argv@[i as int]@);
        let a = argv[i].as_str();
        if same_chars(a, "-h") || same_chars(a, "--help") {
            return Err(CliStop::Help);
        } else if same_chars(a, "--queue") {
            match next_val(argv, i, "--queue") {
                Ok(v) => {
                    assert(toks[i as int] == argv@[i + 1]@);
                    queue = Some(v);
                    i = i + 2;
                },
                Err(e) => {
                    return Err(CliStop::Invalid(e));
                },
            }
        } else if same_chars(a, "tui") {
            cmd = Some(Cmd::Tui);
            i = i + 1;
        } else if same_chars(a, "list") {
            cmd = Some(Cmd::List);
            i = i + 1;
        } else if same_chars(a, "run") {
            return match parse_run(argv, i + 1, &mut queue) {
                Ok(all) => Ok(StudioArgs { queue, cmd: Some(Cmd::Run { all }) }),
                Err(e) => Err(CliStop::Invalid(e)),
            };
        } else if same_chars(a, "enqueue") {
            return match parse_enqueue(argv, i + 1, &mut queue) {
                Ok(c) => Ok(StudioArgs { queue, cmd: Some(c) }),
                Err(e) => Err(CliStop::Invalid(e)),
            };
        } else {
            let head = concat_str("unexpected argument '", a);
            return Err(CliStop::Invalid(concat_str(head.as_str(), "'")));
        }
    }
}

} // verus!
