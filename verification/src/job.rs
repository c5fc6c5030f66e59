//! The decisions of the background worker while it runs one job: the state
//! machine Normalizing → Synthesizing → Assembling → Ready (or Failed), and
//! which chunks are rendered anew. Chunk audio already on disk and recorded is
//! reused, so a retry resumes from the first chunk not yet rendered instead of
//! paying for it again. The worker performs each action and reports the event.
use vstd::prelude::*;

use crate::types::JobState;

verus! {

/// Where the run of one job stands.
#[derive(Debug, Clone, Copy, PartialEq, Eq, Structural)]
pub struct JobRun {
    /// The persisted state of the job.
    pub state: JobState,
    /// Index of the next chunk to render.
    pub next_chunk: usize,
    /// Number of chunks of the episode.
    pub chunks: usize,
}

/// What the worker reports back.
#[derive(Debug, Clone, Copy, PartialEq, Eq, Structural)]
pub enum JobEvent {
    /// The text was normalized and split into this many chunk rows.
    Prepared(usize),
    /// Ready for the next chunk; whether its audio is recorded and on disk.
    NextChunk(bool),
    /// The chunks were assembled and the final audio stored.
    Assembled,
    /// A step failed.
    Failed,
}

/// What the worker does next.
#[derive(Debug, Clone, Copy, PartialEq, Eq, Structural)]
pub enum JobAction {
    /// Persist the job's new state.
    SetState(JobState),
    /// Read the cached audio of this chunk.
    ReuseChunk(usize),
    /// Synthesize this chunk and record its audio.
    SynthesizeChunk(usize),
    /// Mark the episode ready and the job complete.
    MarkReady,
    /// Mark the job and the episode failed.
    MarkFailed,
    /// Nothing: the event does not apply in this state.
    Nothing,
}

/// A job as the worker starts it: normalizing, no chunks yet.
pub open spec fn job_start() -> JobRun {
    JobRun { state: JobState::Normalizing, next_chunk: 0, chunks: 0 }
}

/// The next run and action after `ev`.
pub open spec fn job_step(run: JobRun, ev: JobEvent) -> (JobRun, JobAction) {
    match (run.state, ev) {
        (JobState::Ready, _) | (JobState::Failed, _) => (run, JobAction::Nothing),
        (_, JobEvent::Failed) => (JobRun { state: JobState::Failed, ..run }, JobAction::MarkFailed),
        (JobState::Normalizing, JobEvent::Prepared(n)) => (
            JobRun { state: JobState::Synthesizing, next_chunk: 0, chunks: n },
            JobAction::SetState(JobState::Synthesizing),
        ),
        (JobState::Synthesizing, JobEvent::NextChunk(cached)) => if run.next_chunk < run.chunks {
            (
                JobRun { next_chunk: (run.next_chunk + 1) as usize, ..run },
                if cached {
                    JobAction::ReuseChunk(run.next_chunk)
                } else {
                    JobAction::SynthesizeChunk(run.next_chunk)
                },
            )
        } else {
            (JobRun { state: JobState::Assembling, ..run }, JobAction::SetState(JobState::Assembling))
        },
        (JobState::Assembling, JobEvent::Assembled) => (
            JobRun { state: JobState::Ready, ..run },
            JobAction::MarkReady,
        ),
        _ => (run, JobAction::Nothing),
    }
}

/// A run the worker can be in: chunks rendered so far within the count.
pub open spec fn run_ok(run: JobRun) -> bool {
    run.next_chunk <= run.chunks
}

/// The worker's next run and action after `ev`.
pub fn next_job_step(run: JobRun, ev: JobEvent) -> (res: (JobRun, JobAction))
    requires
        run_ok(run),
    ensures
        res == job_step(run, ev),
        run_ok(res.0),
{
    match (run.state, ev) {
        (JobState::Ready, _) | (JobState::Failed, _) => (run, JobAction::Nothing),
        (_, JobEvent::Failed) => (JobRun { state: JobState::Failed, ..run }, JobAction::MarkFailed),
        (JobState::Normalizing, JobEvent::Prepared(n)) => (
            JobRun { state: JobState::Synthesizing, next_chunk: 0, chunks: n },
            JobAction::SetState(JobState::Synthesizing),
        ),
        (JobState::Synthesizing, JobEvent::NextChunk(cached)) => if run.next_chunk < run.chunks {
            let action = if cached {
                JobAction::ReuseChunk(run.next_chunk)
            } else {
                JobAction::SynthesizeChunk(run.next_chunk)
            };
            (JobRun { next_chunk: run.next_chunk + 1, ..run }, action)
        } else {
            (JobRun { state: JobState::Assembling, ..run }, JobAction::SetState(JobState::Assembling))
        },
        (JobState::Assembling, JobEvent::Assembled) => (
            JobRun { state: JobState::Ready, ..run },
            JobAction::MarkReady,
        ),
        _ => (run, JobAction::Nothing),
    }
}

/// The worker's starting run.
pub fn start_job() -> (res: JobRun)
    ensures
        res == job_start(),
{
    JobRun { state: JobState::Normalizing, next_chunk: 0, chunks: 0 }
}

/// The position of a state along the run; Failed comes last.
pub open spec fn state_rank(s: JobState) -> int {
    match s {
        JobState::Pending => 0,
        JobState::Extracting => 1,
        JobState::Normalizing => 2,
        JobState::Segmenting => 3,
        JobState::Synthesizing => 4,
        JobState::Assembling => 5,
        JobState::Ready => 6,
        JobState::Failed => 7,
    }
}

/// The run and all actions after the events `evs`, from `run`.
pub open spec fn job_run(run: JobRun, evs: Seq<JobEvent>) -> (JobRun, Seq<JobAction>)
    decreases evs.len(),
{
    if evs.len() == 0 {
        (run, seq![])
    } else {
        let (r, acts) = job_run(run, evs.drop_last());
        let (r2, a) = job_step(r, evs.last());
        (r2, acts.push(a))
    }
}

/// The chunk indices that the actions render, reused or synthesized, in order.
pub open spec fn rendered(acts: Seq<JobAction>) -> Seq<int>
    decreases acts.len(),
{
    if acts.len() == 0 {
        seq![]
    } else {
        rendered(acts.drop_last()) + match acts.last() {
            JobAction::ReuseChunk(i) => seq![i as int],
            JobAction::SynthesizeChunk(i) => seq![i as int],
            _ => Seq::<int>::empty(),
        }
    }
}

/// The job's state only moves forward (Normalizing, Synthesizing, Assembling,
/// Ready, or Failed from any of them), and Ready and Failed are final.
pub proof fn law_job_states_move_forward(run: JobRun, ev: JobEvent)
    ensures
        state_rank(job_step(run, ev).0.state) >= state_rank(run.state),
        run.state == JobState::Ready || run.state == JobState::Failed ==> job_step(run, ev) == (
            run,
            JobAction::Nothing,
        ),
{
}

/// A chunk is synthesized only when its audio is not cached: a cached chunk is
/// read back, never paid for again.
pub proof fn law_cached_chunks_are_not_resynthesized(run: JobRun, ev: JobEvent)
    ensures
        job_step(run, ev).1 matches JobAction::SynthesizeChunk(i) ==> ev == JobEvent::NextChunk(false)
            && i == run.next_chunk && i < run.chunks,
        job_step(run, ev).1 matches JobAction::ReuseChunk(i) ==> ev == JobEvent::NextChunk(true)
            && i == run.next_chunk && i < run.chunks,
{
}

/// Assembly starts only once every chunk has been rendered.
pub proof fn law_assembly_after_every_chunk(run: JobRun, ev: JobEvent)
    requires
        run_ok(run),
    ensures
        job_step(run, ev).0.state == JobState::Assembling && run.state != JobState::Assembling
            ==> run.state == JobState::Synthesizing && run.next_chunk == run.chunks,
{
}

/// Over any run from the start, the chunks rendered are `0, 1, 2, ...` up to
/// the next chunk, each once and in order; a job that reaches Ready has
/// rendered every chunk exactly once.
pub proof fn law_each_chunk_rendered_once(evs: Seq<JobEvent>)
    ensures
        job_run(job_start(), evs).0.next_chunk <= job_run(job_start(), evs).0.chunks,
        rendered(job_run(job_start(), evs).1) == Seq::new(
            job_run(job_start(), evs).0.next_chunk as nat,
            |i: int| i,
        ),
        job_run(job_start(), evs).0.state == JobState::Ready ==> job_run(job_start(), evs).0.next_chunk
            == job_run(job_start(), evs).0.chunks,
        job_run(job_start(), evs).0.state == JobState::Assembling ==> job_run(job_start(), evs).0.next_chunk
            == job_run(job_start(), evs).0.chunks,
        job_run(job_start(), evs).0.state == JobState::Normalizing ==> job_run(job_start(), evs).0.next_chunk
            == 0,
    decreases evs.len(),
{
    if evs.len() > 0 {
        law_each_chunk_rendered_once(evs.drop_last());
        let (r, acts) = job_run(job_start(), evs.drop_last());
        let (r2, a) = job_step(r, evs.last());
        assert(acts.push(a).drop_last() =~= acts);
        assert(rendered(acts.push(a)) =~= Seq::new(r2.next_chunk as nat, |i: int| i));
    } else {
        assert(rendered(Seq::<JobAction>::empty()) =~= Seq::new(0nat, |i: int| i));
    }
}


/// A failure in any state but Ready or Failed fails the job: it moves to
/// Failed, keeping its chunk position, and the worker marks it failed.
pub proof fn law_failure_fails_the_job(run: JobRun)
    requires
        run.state != JobState::Ready,
        run.state != JobState::Failed,
    ensures
        job_step(run, JobEvent::Failed) == (
            JobRun { state: JobState::Failed, next_chunk: run.next_chunk, chunks: run.chunks },
            JobAction::MarkFailed,
        ),
{
}

/// Preparing a normalizing job starts synthesis at the first of its `n` chunks.
pub proof fn law_prepared_job_starts_synthesizing(run: JobRun, n: usize)
    requires
        run.state == JobState::Normalizing,
    ensures
        job_step(run, JobEvent::Prepared(n)) == (
            JobRun { state: JobState::Synthesizing, next_chunk: 0, chunks: n },
            JobAction::SetState(JobState::Synthesizing),
        ),
{
}

/// While chunks remain, each step renders the next one, read back when its
/// audio is cached and synthesized otherwise, and moves on by one; once none
/// remain the job moves to Assembling.
pub proof fn law_synthesis_renders_the_next_chunk(run: JobRun, cached: bool)
    requires
        run.state == JobState::Synthesizing,
        run_ok(run),
    ensures
        run.next_chunk < run.chunks ==> job_step(run, JobEvent::NextChunk(cached)) == (
            JobRun {
                state: JobState::Synthesizing,
                next_chunk: (run.next_chunk + 1) as usize,
                chunks: run.chunks,
            },
            if cached {
                JobAction::ReuseChunk(run.next_chunk)
            } else {
                JobAction::SynthesizeChunk(run.next_chunk)
            },
        ),
        run.next_chunk == run.chunks ==> job_step(run, JobEvent::NextChunk(cached)) == (
            JobRun { state: JobState::Assembling, next_chunk: run.next_chunk, chunks: run.chunks },
            JobAction::SetState(JobState::Assembling),
        ),
{
}

/// An assembled job is ready, and the worker marks it so.
pub proof fn law_assembled_job_is_ready(run: JobRun)
    requires
        run.state == JobState::Assembling,
    ensures
        job_step(run, JobEvent::Assembled) == (
            JobRun { state: JobState::Ready, next_chunk: run.next_chunk, chunks: run.chunks },
            JobAction::MarkReady,
        ),
{
}

/// An event that does not belong to the job's state changes nothing.
pub proof fn law_stray_events_do_nothing(run: JobRun, ev: JobEvent)
    requires
        ev != JobEvent::Failed,
        !(run.state == JobState::Normalizing && ev is Prepared),
        !(run.state == JobState::Synthesizing && ev is NextChunk),
        !(run.state == JobState::Assembling && ev == JobEvent::Assembled),
    ensures
        job_step(run, ev) == (run, JobAction::Nothing),
{
}
} // verus!
