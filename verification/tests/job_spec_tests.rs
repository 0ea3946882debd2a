use studio::error::RenderError;
use studio::job_spec::JobSpec;
use studio::models::{Container, EncodeBackend, OutputFormat};

fn sample_spec() -> JobSpec {
    JobSpec {
        effect: "ripple".into(),
        plugin_path: None,
        seed: 1,
        fps: 30,
        duration: "10s".into(),
        output: "/tmp/o.mkv".into(),
        width: 1280,
        height: 720,
        cols: None,
        rows: None,
        dry_run: true,
        raw: false,
        segment: Some("5s".into()),
        audio: None,
        resume: true,
        crf: 35,
        preset: Some("10".into()),
        encoder: None,
        prefer_hw: true,
        gpu_upscale: true,
        format: Some("png".into()),
        container: Some("mp4".into()),
        baseline_dir: Some("/tmp/baselines".into()),
        snapshot_last_only: true,
        update_baselines: false,
        cpu_raster: true,
    }
}

#[test]
fn roundtrip_json() {
    let s = sample_spec().to_value().to_json();
    let back = JobSpec::from_json(&s).expect("de");
    assert_eq!(back.effect, "ripple");
    assert_eq!(back.segment.as_deref(), Some("5s"));
    assert_eq!(back.format.as_deref(), Some("png"));
    assert_eq!(back.container.as_deref(), Some("mp4"));
    assert!(back.snapshot_last_only);
    assert!(back.cpu_raster);
    let (job, backend) = back.into_job().expect("job");
    assert_eq!(job.frame_count(), 300);
    assert!(job.resume);
    assert_eq!(job.format, OutputFormat::Png);
    assert_eq!(job.container, Container::Mp4);
    assert!(matches!(backend, EncodeBackend::PngSequence));
}

#[test]
fn raw_flag_overrides_format_to_raw() {
    let mut spec = sample_spec();
    spec.effect = "beams".into();
    spec.seed = 0xDEAD_BEEF;
    spec.duration = "2s".into();
    spec.raw = true;
    spec.format = Some("mp4".into());
    spec.segment = None;
    spec.resume = false;
    spec.preset = None;
    let (job, backend) = spec.into_job().expect("job");
    assert_eq!(job.format, OutputFormat::Raw);
    assert!(matches!(backend, EncodeBackend::StdoutRaw));
}

#[test]
fn from_json_defaults_and_required_fields() {
    let s = JobSpec::from_json(r#"{"effect":"x","duration":"3m","output":"o.mkv","id":"ignored"}"#)
        .expect("minimal");
    assert_eq!(s.seed, 0x00C0_FFEE);
    assert_eq!((s.fps, s.width, s.height, s.crf), (30, 1280, 720, 35));
    assert!(s.prefer_hw && s.gpu_upscale && !s.dry_run);
    assert_eq!(
        JobSpec::from_json(r#"{"effect":"x","output":"o"}"#).unwrap_err(),
        "missing field `duration`"
    );
    assert_eq!(
        JobSpec::from_json(r#"{"effect":1,"duration":"1s","output":"o"}"#).unwrap_err(),
        "invalid type for `effect`: expected string"
    );
    assert_eq!(
        JobSpec::from_json(r#"{"effect":"x","duration":"1s","output":"o","crf":256}"#)
            .unwrap_err(),
        "invalid type for `crf`: expected unsigned integer"
    );
    assert_eq!(
        JobSpec::from_json(r#"{"effect":"x","duration":"1s","output":"o","raw":"yes"}"#)
            .unwrap_err(),
        "invalid type for `raw`: expected bool"
    );
    assert_eq!(JobSpec::from_json("[]").unwrap_err(), "invalid type: expected object");
    assert_eq!(
        JobSpec::from_json("{").unwrap_err(),
        "expected object key at line 1 column 2"
    );
}

#[test]
fn into_job_errors_in_field_order() {
    let mut s = sample_spec();
    s.duration = "0s".into();
    assert!(matches!(s.into_job(), Err(RenderError::Duration(_))));
    let mut s = sample_spec();
    s.segment = Some("x".into());
    assert!(matches!(s.into_job(), Err(RenderError::Duration(_))));
    let mut s = sample_spec();
    s.format = Some("GIF".into());
    match s.into_job() {
        Err(RenderError::Job(m)) => assert_eq!(m, "unknown format 'gif'"),
        other => panic!("{other:?}"),
    }
    let mut s = sample_spec();
    s.container = Some("AVI".into());
    match s.into_job() {
        Err(RenderError::Job(m)) => assert_eq!(m, "unknown container 'avi'"),
        other => panic!("{other:?}"),
    }
    let mut s = sample_spec();
    s.format = Some("Video".into());
    s.container = Some("MATROSKA".into());
    s.dry_run = false;
    let (job, backend) = s.into_job().expect("job");
    assert_eq!(job.container, Container::Mkv);
    assert!(matches!(backend, EncodeBackend::FfmpegAv1));
}

#[test]
fn to_json_is_pretty_and_ordered() {
    let text = sample_spec().to_json();
    assert!(text.starts_with("{\n  \"effect\": \"ripple\",\n  \"plugin_path\": null,\n  \"seed\": 1,"));
    assert!(text.ends_with("\"cpu_raster\": true\n}"));
}
