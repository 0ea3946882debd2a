use crate::job_spec::JobSpec;
use crate::studio::{is_next_id, JobQueue, JobStatus, QueueEntry, StudioJob};
use vstd::prelude::*;

verus! {

/// The options of `enqueue`.
pub struct EnqueueOptions {
    pub effect: String,
    pub output: String,
    pub duration: String,
    pub seed: u64,
    pub fps: u32,
    pub width: u32,
    pub height: u32,
    pub dry_run: bool,
    pub id: Option<String>,
    pub segment: Option<String>,
    pub audio: Option<String>,
    pub resume: bool,
    pub crf: u8,
    pub preset: Option<String>,
    pub no_hw_encode: bool,
    pub no_gpu_upscale: bool,
}

/// The job spec `enqueue` builds from its options: no plugin path, grid,
/// encoder, format, container or baselines; hardware encoding and GPU
/// upscaling unless switched off.
pub open spec fn enqueue_spec(o: EnqueueOptions) -> JobSpec {
    JobSpec {
        effect: o.effect,
        plugin_path: None,
        seed: o.seed,
        fps: o.fps,
        duration: o.duration,
        output: o.output,
        width: o.width,
        height: o.height,
        cols: None,
        rows: None,
        dry_run: o.dry_run,
        raw: false,
        segment: o.segment,
        audio: o.audio,
        resume: o.resume,
        crf: o.crf,
        preset: o.preset,
        encoder: None,
        prefer_hw: !o.no_hw_encode,
        gpu_upscale: !o.no_gpu_upscale,
        format: None,
        container: None,
        baseline_dir: None,
        snapshot_last_only: false,
        update_baselines: false,
        cpu_raster: false,
    }
}

/// The studio job `enqueue` adds: the spec its options describe, under the
/// given id or else the queue's next free id.
pub fn enqueue_job(opts: EnqueueOptions, queue: &JobQueue) -> (job: StudioJob)
    ensures
        job.spec == enqueue_spec(opts),
        opts.id matches Some(i) ==> job.id == i,
        opts.id is None ==> is_next_id(queue.entries@, job.id@),
{
    let id = match opts.id {
        Some(i) => i,
        None => queue.next_id(),
    };
    let spec = JobSpec {
        effect: opts.effect,
        plugin_path: None,
        seed: opts.seed,
        fps: opts.fps,
        duration: opts.duration,
        output: opts.output,
        width: opts.width,
        height: opts.height,
        cols: None,
        rows: None,
        dry_run: opts.dry_run,
        raw: false,
        segment: opts.segment,
        audio: opts.audio,
        resume: opts.resume,
        crf: opts.crf,
        preset: opts.preset,
        encoder: None,
        prefer_hw: !opts.no_hw_encode,
        gpu_upscale: !opts.no_gpu_upscale,
        format: None,
        container: None,
        baseline_dir: None,
        snapshot_last_only: false,
        update_baselines: false,
        cpu_raster: false,
    };
    StudioJob::new(id, spec)
}

/// The entries after the job at `i` finished: done with the runner's
/// message, or failed with its error text.
pub open spec fn finish_entries(es: Seq<QueueEntry>, i: int, outcome: Result<String, String>) -> Seq<
    QueueEntry,
> {
    let e = es[i];
    match outcome {
        Ok(m) => es.update(i, QueueEntry { job: e.job, status: JobStatus::Done, message: m }),
        Err(m) => es.update(i, QueueEntry { job: e.job, status: JobStatus::Failed, message: m }),
    }
}

/// `k` is the first pending entry of `es`.
pub open spec fn first_pending(es: Seq<QueueEntry>, k: int) -> bool {
    &&& 0 <= k < es.len()
    &&& es[k].status == JobStatus::Pending
    &&& forall|j: int| 0 <= j < k ==> (#[trigger] es[j]).status != JobStatus::Pending
}

/// No entry of `es` is pending.
pub open spec fn none_pending(es: Seq<QueueEntry>) -> bool {
    forall|j: int| 0 <= j < es.len() ==> (#[trigger] es[j]).status != JobStatus::Pending
}

/// Replace entry `i` with one holding the same job, the status `st` and
/// the message `m`.
fn set_entry(queue: &mut JobQueue, i: usize, st: JobStatus, m: String)
    requires
        i < old(queue).entries@.len(),
    ensures
        final(queue).entries@ == old(queue).entries@.update(
            i as int,
            QueueEntry { job: old(queue).entries@[i as int].job, status: st, message: m },
        ),
{
    let e = queue.entries.remove(i);
    queue.entries.insert(i, QueueEntry { job: e.job, status: st, message: m });
    assert(queue.entries@ =~= old(queue).entries@.update(
        i as int,
        QueueEntry { job: old(queue).entries@[i as int].job, status: st, message: m },
    ));
}

/// One step of running the queue. `finished` reports the job that was
/// running at index `i` and what running it gave: its entry becomes done
/// with the message, or failed with the error text. Then, when this is
/// the start (`finished` is `None`) or every pending job is to run
/// (`all`), the first pending entry is marked running and its index
/// returned for the caller to run; otherwise, or when nothing is pending,
/// the run stops with `None`.
pub fn run_step(queue: &mut JobQueue, all: bool, finished: Option<(usize, Result<String, String>)>) -> (next: Option<usize>)
    requires
        finished matches Some((i, _)) ==> i < old(queue).entries@.len(),
    ensures
        ({
            let mid = match finished {
                Some((i, r)) => finish_entries(old(queue).entries@, i as int, r),
                None => old(queue).entries@,
            };
            let go = finished is None || all;
            &&& go && none_pending(mid) ==> next is None && final(queue).entries@ == mid
            &&& !go ==> next is None && final(queue).entries@ == mid
            &&& next matches Some(k) ==> go && first_pending(mid, k as int)
                && final(queue).entries@ == mid.update(
                k as int,
                QueueEntry { job: mid[k as int].job, status: JobStatus::Running, message: mid[k as int].message },
            )
            &&& go && !none_pending(mid) ==> next is Some
        }),
{
    let start = finished.is_none();
    match finished {
        Some((i, Ok(m))) => set_entry(queue, i, JobStatus::Done, m),
        Some((i, Err(m))) => set_entry(queue, i, JobStatus::Failed, m),
        None => {},
    }
    if !(start || all) {
        return None;
    }
    let ghost mid = queue.entries@;
    match queue.next_pending_index() {
        None => None,
        Some(k) => {
            let e = queue.entries.remove(k);
            queue.entries.insert(k, QueueEntry { job: e.job, status: JobStatus::Running, message: e.message });
            assert(queue.entries@ =~= mid.update(
                k as int,
                QueueEntry { job: mid[k as int].job, status: JobStatus::Running, message: mid[k as int].message },
            ));
            Some(k)
        },
    }
}

} // verus!
