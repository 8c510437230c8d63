use vstd::prelude::*;

verus! {

/// What a worker does with the outcome of one blocking receive on its
/// inbound channel.
pub enum WorkerAction<J> {
    /// A job arrived: run it to completion on the worker's own thread.
    Run(J),
    /// Every sender is gone and the channel is empty: leave the loop.
    Stop,
}

/// One step of a worker's consume-execute loop: `message` is the job the
/// receive yielded, or `None` when the channel reported closure.
pub fn next_action<J>(message: Option<J>) -> (action: WorkerAction<J>)
    ensures
        match message {
            Some(job) => action == WorkerAction::Run(job),
            None => action == WorkerAction::<J>::Stop,
        },
{
    match message {
        Some(job) => WorkerAction::Run(job),
        None => WorkerAction::Stop,
    }
}

} // verus!
