use studio::job_spec::JobSpec;
use studio::log::{choose_level, DEBUG, INFO, WARN};
use studio::studio::{JobQueue, JobStatus, StudioJob};
use studio::studio_run::{enqueue_job, run_step, EnqueueOptions};

fn opts(id: Option<&str>) -> EnqueueOptions {
    EnqueueOptions {
        effect: "beams".into(),
        output: "o.mkv".into(),
        duration: "30s".into(),
        seed: 7,
        fps: 24,
        width: 640,
        height: 360,
        dry_run: true,
        id: id.map(|s| s.to_string()),
        segment: Some("10s".into()),
        audio: None,
        resume: true,
        crf: 20,
        preset: Some("slow".into()),
        no_hw_encode: true,
        no_gpu_upscale: false,
    }
}

fn base_spec() -> JobSpec {
    let q = JobQueue::new();
    enqueue_job(opts(Some("x")), &q).spec
}

#[test]
fn enqueue_builds_spec_and_id() {
    let mut q = JobQueue::new();
    let j = enqueue_job(opts(None), &q);
    assert_eq!(j.id, "job-1");
    let s = &j.spec;
    assert_eq!((s.effect.as_str(), s.output.as_str(), s.duration.as_str()), ("beams", "o.mkv", "30s"));
    assert_eq!((s.seed, s.fps, s.width, s.height, s.crf), (7, 24, 640, 360, 20));
    assert!(s.dry_run && s.resume && !s.raw && !s.cpu_raster);
    assert!(!s.prefer_hw && s.gpu_upscale);
    assert_eq!(s.plugin_path, None);
    assert_eq!(s.segment.as_deref(), Some("10s"));
    assert_eq!(s.preset.as_deref(), Some("slow"));
    assert_eq!((s.cols, s.rows), (None, None));
    assert!(s.encoder.is_none() && s.format.is_none() && s.container.is_none());
    q.enqueue(j);
    let j2 = enqueue_job(opts(Some("mine")), &q);
    assert_eq!(j2.id, "mine");
    let j3 = enqueue_job(opts(None), &q);
    assert_eq!(j3.id, "job-2");
}

#[test]
fn run_step_marks_running_then_done_or_failed() {
    let mut q = JobQueue::new();
    q.enqueue(StudioJob::new("a".into(), base_spec()));
    q.enqueue(StudioJob::new("b".into(), base_spec()));
    q.enqueue(StudioJob::new("c".into(), base_spec()));
    q.entries[0].status = JobStatus::Done;
    // start: the first pending entry runs
    assert_eq!(run_step(&mut q, false, None), Some(1));
    assert_eq!(q.entries[1].status, JobStatus::Running);
    assert_eq!(q.entries[2].status, JobStatus::Pending);
    // without --all the run stops after one job
    assert_eq!(run_step(&mut q, false, Some((1, Ok("wrote 3 frames".into())))), None);
    assert_eq!(q.entries[1].status, JobStatus::Done);
    assert_eq!(q.entries[1].message, "wrote 3 frames");
    assert_eq!(q.entries[2].status, JobStatus::Pending);
    // with --all it goes on to the next pending entry
    assert_eq!(run_step(&mut q, true, None), Some(2));
    assert_eq!(run_step(&mut q, true, Some((2, Err("boom".into())))), None);
    assert_eq!(q.entries[2].status, JobStatus::Failed);
    assert_eq!(q.entries[2].message, "boom");
    assert_eq!(q.entries[0].status, JobStatus::Done);
    assert_eq!(run_step(&mut q, false, None), None);
}

#[test]
fn log_level_from_env_or_default() {
    assert_eq!(choose_level(Some("debug"), "info"), DEBUG);
    assert_eq!(choose_level(Some("nonsense"), "warn"), WARN);
    assert_eq!(choose_level(None, "bogus"), INFO);
}
