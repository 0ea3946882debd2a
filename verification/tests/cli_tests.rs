use studio::cli::{Args, CliContainer, CliFormat};
use studio::error::RenderError;
use studio::models::{Container, EncodeBackend, OutputFormat};

fn args() -> Args {
    Args {
        job_file: None,
        effect: Some("beams".into()),
        plugin_path: None,
        seed: 0x00C0_FFEE,
        fps: 30,
        duration: "10s".into(),
        segment: None,
        audio: None,
        output: None,
        width: 1280,
        height: 720,
        cols: None,
        rows: None,
        dry_run: true,
        raw: false,
        resume: false,
        crf: 35,
        preset: None,
        encoder: None,
        no_hw_encode: false,
        no_gpu_upscale: false,
        format: CliFormat::Mp4,
        container: CliContainer::Mkv,
        stdout_raw: false,
        baseline_dir: None,
        update_baselines: false,
        snapshot_last_only: false,
        cpu_raster: false,
    }
}

#[test]
fn flag_values_parse_exactly() {
    assert_eq!(CliFormat::parse("png"), Ok(CliFormat::Png));
    assert_eq!(
        CliFormat::parse("PNG").unwrap_err(),
        "invalid value 'PNG' for '--format' [possible values: mp4, png, raw]"
    );
    assert_eq!(CliContainer::parse("mp4"), Ok(CliContainer::Mp4));
    assert!(CliContainer::parse("avi").is_err());
}

#[test]
fn dry_run_defaults_output() {
    let (job, backend) = args().into_job(None).expect("job");
    assert_eq!(job.output, "dry-run.mkv");
    assert_eq!(job.frame_count(), 300);
    assert_eq!(job.format, OutputFormat::Mp4);
    assert!(matches!(backend, EncodeBackend::RawDump));
}

#[test]
fn stdout_raw_selects_raw_stream() {
    let mut a = args();
    a.dry_run = false;
    a.stdout_raw = true;
    let (job, backend) = a.into_job(None).expect("job");
    assert_eq!(job.output, "<stdout>");
    assert_eq!(job.format, OutputFormat::Raw);
    assert!(matches!(backend, EncodeBackend::StdoutRaw));
}

#[test]
fn missing_effect_or_output_is_a_job_error() {
    let mut a = args();
    a.effect = None;
    match a.into_job(None) {
        Err(RenderError::Job(m)) => assert_eq!(m, "--effect required without --job-file"),
        other => panic!("{other:?}"),
    }
    let mut a = args();
    a.dry_run = false;
    assert!(matches!(a.into_job(None), Err(RenderError::Job(_))));
    let mut a = args();
    a.output = Some("o.mp4".into());
    a.dry_run = false;
    a.container = CliContainer::Mp4;
    a.no_hw_encode = true;
    let (job, backend) = a.into_job(None).expect("job");
    assert_eq!(job.container, Container::Mp4);
    assert!(!job.prefer_hw);
    assert!(matches!(backend, EncodeBackend::FfmpegH264));
}

#[test]
fn job_file_text_replaces_flags() {
    let mut a = args();
    a.job_file = Some("job.json".into());
    let text = r#"{"effect":"ripple","duration":"2s","output":"x.mkv","format":"png"}"#;
    let (job, backend) = a.into_job(Some(text)).expect("job");
    assert_eq!(job.effect, "ripple");
    assert_eq!(job.duration, 2);
    assert!(matches!(backend, EncodeBackend::PngSequence));
    let mut a = args();
    a.job_file = Some("job.json".into());
    match a.into_job(Some("{")) {
        Err(RenderError::Job(m)) => assert_eq!(
            m,
            "invalid job file job.json: expected object key at line 1 column 2"
        ),
        other => panic!("{other:?}"),
    }
}
