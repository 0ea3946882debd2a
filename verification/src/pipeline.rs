use crate::error::RenderError;
use crate::models::{
    frames_spec, part_len, plan_segments, segments_spec, EncodeBackend, RenderJob, SegmentPlan,
};
use vstd::prelude::*;

verus! {

/// Snapshot compare result of a finished render.
#[derive(Debug, Clone)]
pub enum SnapshotOutcome {
    Skipped,
    Matched { path: String },
    Updated { path: String },
    MissingBaseline { path: String },
    Mismatched { path: String, reason: String },
}

/// Outcome of a finished (or dry-run) pipeline.
#[derive(Debug, Clone)]
pub struct PipelineResult {
    pub frames: u64,
    pub output: String,
    pub dry_run: bool,
    pub segments: u32,
    /// Segments skipped via --resume (existing part files).
    pub resumed_segments: u32,
    /// Snapshot compare result, when `--baseline-dir` was set.
    pub snapshot: SnapshotOutcome,
}

/// What the pipeline decided: a dry run is finished at once; otherwise
/// the segments are to be rendered and encoded in order.
#[derive(Debug)]
pub enum PipelineStep {
    Finished(PipelineResult),
    Render { plans: Vec<SegmentPlan>, frames: u64 },
}

/// The segment plans of `job` are `plans`: one part per segment, in order,
/// covering the whole duration.
pub open spec fn plans_of(job: RenderJob, plans: Seq<SegmentPlan>) -> bool {
    &&& plans.len() == segments_spec(job.duration, job.segment)
    &&& forall|i: int|
        0 <= i < plans.len() ==> (#[trigger] plans[i]).index == i && plans[i].duration == if plans.len()
            == 1 {
            job.duration as int
        } else {
            part_len(job.duration, job.segment->0, plans.len(), i)
        }
}

/// Plan the render: split it into segments and count its frames. A dry
/// run ends here with its report; any other run continues with rendering
/// and encoding the planned segments.
pub fn run_pipeline(job: &RenderJob, backend: EncodeBackend) -> (res: Result<PipelineStep, RenderError>)
    ensures
        res is Ok,
        job.dry_run ==> (res matches Ok(PipelineStep::Finished(r)) && r.frames == frames_spec(
            job.duration,
            job.fps,
        ) && r.output == job.output && r.dry_run && r.segments == segments_spec(
            job.duration,
            job.segment,
        ) as u32 && r.resumed_segments == 0 && r.snapshot is Skipped),
        !job.dry_run ==> (res matches Ok(PipelineStep::Render { plans, frames }) && plans_of(
            *job,
            plans@,
        ) && frames == frames_spec(job.duration, job.fps)),
{
    let plans = match plan_segments(job) {
        Ok(p) => p,
        Err(e) => {
            return Err(e);
        },
    };
    let frames_total = job.frame_count();
    if job.dry_run {
        let n = plans.len();
        return Ok(
            PipelineStep::Finished(
                PipelineResult {
                    frames: frames_total,
                    output: job.output.clone(),
                    dry_run: true,
                    segments: #[verifier::truncate] (n as u32),
                    resumed_segments: 0,
                    snapshot: SnapshotOutcome::Skipped,
                },
            ),
        );
    }
    Ok(PipelineStep::Render { plans, frames: frames_total })
}

} // verus!
