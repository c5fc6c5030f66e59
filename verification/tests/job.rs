use audify::job::{next_job_step, start_job, JobAction, JobEvent, JobRun};
use audify::types::JobState;

fn drive(events: &[JobEvent]) -> (JobRun, Vec<JobAction>) {
    let mut run = start_job();
    let mut acts = Vec::new();
    for &ev in events {
        let (r, a) = next_job_step(run, ev);
        run = r;
        acts.push(a);
    }
    (run, acts)
}

#[test]
fn a_job_runs_through_its_states_in_order() {
    let (run, acts) = drive(&[
        JobEvent::Prepared(2),
        JobEvent::NextChunk(false),
        JobEvent::NextChunk(false),
        JobEvent::NextChunk(false),
        JobEvent::Assembled,
    ]);
    assert_eq!(run.state, JobState::Ready);
    assert_eq!(
        acts,
        vec![
            JobAction::SetState(JobState::Synthesizing),
            JobAction::SynthesizeChunk(0),
            JobAction::SynthesizeChunk(1),
            JobAction::SetState(JobState::Assembling),
            JobAction::MarkReady,
        ]
    );
}

#[test]
fn cached_chunks_are_reused_not_resynthesized() {
    let (_, acts) = drive(&[
        JobEvent::Prepared(3),
        JobEvent::NextChunk(true),
        JobEvent::NextChunk(true),
        JobEvent::NextChunk(false),
    ]);
    assert_eq!(
        acts[1..],
        [JobAction::ReuseChunk(0), JobAction::ReuseChunk(1), JobAction::SynthesizeChunk(2)]
    );
}

#[test]
fn failure_is_final_and_out_of_order_events_do_nothing() {
    let (run, acts) = drive(&[
        JobEvent::Assembled,
        JobEvent::Prepared(1),
        JobEvent::Failed,
        JobEvent::NextChunk(false),
        JobEvent::Assembled,
    ]);
    assert_eq!(run.state, JobState::Failed);
    assert_eq!(
        acts,
        vec![
            JobAction::Nothing,
            JobAction::SetState(JobState::Synthesizing),
            JobAction::MarkFailed,
            JobAction::Nothing,
            JobAction::Nothing,
        ]
    );
    let (run, acts) = drive(&[JobEvent::Prepared(0), JobEvent::NextChunk(true), JobEvent::Assembled]);
    assert_eq!(run.state, JobState::Ready);
    assert_eq!(acts[1], JobAction::SetState(JobState::Assembling));
}
