use studio::job_spec::JobSpec;
use studio::json_parse::parse;
use studio::studio::{JobQueue, JobStatus, QueueEntry, StudioError, StudioJob};

fn spec() -> JobSpec {
    JobSpec {
        effect: "ripple".into(),
        plugin_path: None,
        seed: 1,
        fps: 30,
        duration: "10s".into(),
        output: "/tmp/o.mkv".into(),
        width: 1280,
        height: 720,
        cols: None,
        rows: None,
        dry_run: false,
        raw: false,
        segment: Some("5s".into()),
        audio: None,
        resume: false,
        crf: 35,
        preset: None,
        encoder: None,
        prefer_hw: true,
        gpu_upscale: true,
        format: None,
        container: None,
        baseline_dir: None,
        snapshot_last_only: false,
        update_baselines: false,
        cpu_raster: false,
    }
}

#[test]
fn flatten_roundtrip() {
    let j = StudioJob { id: "1".into(), spec: spec() };
    let s = j.to_value().to_json();
    let v = parse(&s).expect("parse");
    let back = StudioJob::from_value(&v).expect("de");
    assert_eq!(back.id, "1");
    assert_eq!(back.spec.effect, "ripple");
    assert_eq!(back.spec.segment.as_deref(), Some("5s"));
}

#[test]
fn hostile_ids_get_plain_file_names() {
    for id in ["../../etc/evil", "..", "..\\win", "a/b/c", "", "...", "x\0y"] {
        let j = StudioJob::new(id.into(), spec());
        let name = j.job_file_name(7, 3);
        assert!(!name.contains('/'), "id {id:?} -> {name}");
        assert!(!name.contains('\\'), "id {id:?} -> {name}");
        assert!(!name.contains(".."), "id {id:?} -> {name}");
        assert!(name.starts_with("idle-studio-7-") && name.ends_with("-3.json"), "{name}");
    }
    let j = StudioJob::new("..".into(), spec());
    assert_eq!(j.job_file_name(1, 0), "idle-studio-1-job-0.json");
    let j = StudioJob::new("a/b".into(), spec());
    assert_eq!(j.job_file_name(1, 0), "idle-studio-1-a_b-0.json");
}

#[test]
fn status_names_roundtrip() {
    for st in [JobStatus::Pending, JobStatus::Running, JobStatus::Done, JobStatus::Failed] {
        assert_eq!(JobStatus::from_str(st.as_str()), Ok(st));
    }
    assert_eq!(JobStatus::from_str("queued").unwrap_err(), "unknown job status 'queued'");
}

#[test]
fn queue_roundtrip_and_ids() {
    let mut q = JobQueue::new();
    assert_eq!(q.next_id(), "job-1");
    q.enqueue(StudioJob::new("job-2".into(), spec()));
    assert_eq!(q.next_id(), "job-3");
    q.enqueue(StudioJob::new("job-1".into(), spec()));
    assert_eq!(q.next_id(), "job-3");
    assert_eq!(q.next_pending_index(), Some(0));
    q.entries[0].status = JobStatus::Done;
    assert_eq!(q.next_pending_index(), Some(1));
    let text = q.to_value().to_json_pretty();
    let back = JobQueue::from_value(&parse(&text).unwrap()).expect("queue");
    assert_eq!(back.entries.len(), 2);
    assert_eq!(back.entries[0].status, JobStatus::Done);
    assert_eq!(back.entries[1].job.id, "job-1");
    assert_eq!(back.entries[1].message, "");
}

#[test]
fn queue_errors() {
    assert_eq!(
        JobQueue::from_value(&parse("{}").unwrap()).unwrap_err(),
        "missing field `entries`"
    );
    assert_eq!(
        JobQueue::from_value(&parse(r#"{"entries": 3}"#).unwrap()).unwrap_err(),
        "invalid type for `entries`: expected array"
    );
    assert_eq!(
        QueueEntry::from_value(&parse(r#"{"status": "done"}"#).unwrap()).unwrap_err(),
        "missing field `job`"
    );
    assert_eq!(
        StudioJob::from_value(&parse(r#"{"id": 5}"#).unwrap()).unwrap_err(),
        "invalid type for `id`: expected string"
    );
    assert_eq!(StudioError::Queue("x".into()).to_string(), "queue error: x");
    assert_eq!(
        StudioError::from_json_error(parse("[").unwrap_err()).to_string(),
        "json error: unexpected end of input at line 1 column 2"
    );
}
