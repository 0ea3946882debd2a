use studio::cli::{CliContainer, CliFormat};
use studio::cli_parse::CliStop;
use studio::studio_cli::{parse_args, Cmd};

fn argv(words: &[&str]) -> Vec<String> {
    std::iter::once("prog").chain(words.iter().copied()).map(String::from).collect()
}

#[test]
fn render_flags_parse() {
    let a = studio::cli::Args::parse_from(&argv(&[
        "-e", "ripple", "--duration=5m", "--fps", "60", "-o", "out.mkv", "--format", "png",
        "--container=mp4", "--dry-run", "--cols", "+12",
    ]))
    .expect("args");
    assert_eq!(a.effect.as_deref(), Some("ripple"));
    assert_eq!(a.duration, "5m");
    assert_eq!(a.fps, 60);
    assert_eq!(a.output.as_deref(), Some("out.mkv"));
    assert_eq!(a.format, CliFormat::Png);
    assert_eq!(a.container, CliContainer::Mp4);
    assert!(a.dry_run);
    assert_eq!(a.cols, Some(12));
    assert_eq!(a.seed, 0x00C0_FFEE);
}

#[test]
fn render_flag_errors() {
    let err = |w: &[&str]| match studio::cli::Args::parse_from(&argv(w)) {
        Err(CliStop::Invalid(m)) => m,
        other => panic!("{other:?}"),
    };
    assert_eq!(err(&["--fps"]), "expected value for '--fps'");
    assert_eq!(err(&["-e", "x", "--fps", "-1"]), "invalid value '-1' for '--fps'");
    assert_eq!(err(&["-e", "x", "--crf", "256"]), "invalid value '256' for '--crf'");
    assert_eq!(err(&["--bogus"]), "unexpected argument '--bogus'");
    assert_eq!(err(&["--bogus=1"]), "unexpected argument '--bogus'");
    assert_eq!(
        err(&[]),
        "the following required arguments were not provided: --effect <NAME>"
    );
    assert_eq!(
        err(&["-e", "x"]),
        "the following required arguments were not provided: --output <PATH>"
    );
    assert!(matches!(studio::cli::Args::parse_from(&argv(&["-h"])), Err(CliStop::Help)));
    assert!(studio::cli::Args::parse_from(&argv(&["--job-file", "j.json"])).is_ok());
}

#[test]
fn studio_commands_parse() {
    let a = parse_args(&argv(&["--queue", "q.json", "list"])).expect("args");
    assert_eq!(a.queue.as_deref(), Some("q.json"));
    assert!(matches!(a.cmd, Some(Cmd::List)));
    let a = parse_args(&argv(&["run", "--all", "--queue", "x"])).expect("args");
    assert!(matches!(a.cmd, Some(Cmd::Run { all: true })));
    assert_eq!(a.queue.as_deref(), Some("x"));
    let a = parse_args(&argv(&["enqueue", "-e", "beams", "-o", "o.mkv", "--crf", "20", "--id", "j"]))
        .expect("args");
    match a.cmd {
        Some(Cmd::Enqueue { effect, output, crf, id, duration, .. }) => {
            assert_eq!((effect.as_str(), output.as_str(), crf), ("beams", "o.mkv", 20));
            assert_eq!(id.as_deref(), Some("j"));
            assert_eq!(duration, "10s");
        }
        other => panic!("{other:?}"),
    }
    assert!(parse_args(&argv(&[])).expect("args").cmd.is_none());
}

#[test]
fn studio_command_errors() {
    let err = |w: &[&str]| match parse_args(&argv(w)) {
        Err(CliStop::Invalid(m)) => m,
        other => panic!("{other:?}"),
    };
    assert_eq!(err(&["enqueue", "-o", "x"]), "required: --effect <NAME>");
    assert_eq!(err(&["enqueue", "-e", "x"]), "required: --output <PATH>");
    assert_eq!(err(&["run", "--fast"]), "unexpected argument '--fast' for 'run'");
    assert_eq!(err(&["enqueue", "--fps", "x"]), "invalid value 'x' for '--fps'");
    assert_eq!(err(&["--queue"]), "expected value for '--queue'");
    assert_eq!(err(&["fly"]), "unexpected argument 'fly'");
    assert!(matches!(parse_args(&argv(&["--help"])), Err(CliStop::Help)));
}
