use studio::models::{Container, EncodeBackend, OutputFormat, RenderJob};
use studio::pipeline::{run_pipeline, PipelineStep, SnapshotOutcome};

fn sample_job(dur_secs: u64, seg: Option<u64>) -> RenderJob {
    RenderJob {
        effect: "beams".into(),
        plugin_path: None,
        seed: 42,
        fps: 30,
        duration: dur_secs,
        width: 64,
        height: 64,
        output: "/tmp/unused.mkv".into(),
        cols: None,
        rows: None,
        dry_run: true,
        segment: seg,
        audio: None,
        resume: false,
        crf: 35,
        preset: None,
        encoder: None,
        prefer_hw: true,
        gpu_upscale: true,
        format: OutputFormat::Mp4,
        container: Container::Mkv,
        baseline_dir: None,
        snapshot_last_only: false,
        update_baselines: false,
        cpu_raster: false,
    }
}

#[test]
fn dry_run_reports_frame_count_and_segments() {
    let job = sample_job(120, Some(60));
    let r = match run_pipeline(&job, EncodeBackend::RawDump).expect("dry") {
        PipelineStep::Finished(r) => r,
        other => panic!("{other:?}"),
    };
    assert_eq!(r.frames, 3600);
    assert_eq!(r.segments, 2);
    assert!(r.dry_run);
    assert_eq!(r.resumed_segments, 0);
    assert!(matches!(r.snapshot, SnapshotOutcome::Skipped));
    assert_eq!(r.output, "/tmp/unused.mkv");
}

#[test]
fn real_run_hands_back_the_plan() {
    let mut job = sample_job(90, Some(60));
    job.dry_run = false;
    match run_pipeline(&job, EncodeBackend::FfmpegAv1).expect("plan") {
        PipelineStep::Render { plans, frames } => {
            assert_eq!(frames, 2700);
            assert_eq!(plans.iter().map(|p| p.duration).collect::<Vec<_>>(), vec![60, 30]);
        }
        other => panic!("{other:?}"),
    }
}
