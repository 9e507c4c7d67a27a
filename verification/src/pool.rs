use vstd::prelude::*;

use crate::error::TaskError;
use crate::task::Task;

verus! {

/// What a worker wakes up to: the shutdown signal, a popped task, an empty
/// queue, or a failed poll.
pub enum WorkerEvent {
    Shutdown,
    Popped(Task),
    Empty,
    PopFailed(TaskError),
}

/// What the worker does next: leave the loop, run the task, sleep one
/// polling interval, or poll again.
pub enum WorkerAction {
    Exit,
    Execute(Task),
    Sleep,
    Continue,
}

/// One turn of the worker loop, as a decision: the shutdown signal — and
/// only it — ends the loop, so every worker that receives the broadcast
/// leaves; a popped task is executed; an empty queue is slept on; a failed
/// poll is logged by the loop's runner and polled again. One bad task or
/// poll never ends a worker.
pub fn worker_step(event: WorkerEvent) -> (r: WorkerAction)
    ensures
        event is Shutdown <==> r is Exit,
        event matches WorkerEvent::Popped(t) ==> (r matches WorkerAction::Execute(t2) && t2 == t),
        event is Empty <==> r is Sleep,
        event is PopFailed <==> r is Continue,
{
    match event {
        WorkerEvent::Shutdown => WorkerAction::Exit,
        WorkerEvent::Popped(t) => WorkerAction::Execute(t),
        WorkerEvent::Empty => WorkerAction::Sleep,
        WorkerEvent::PopFailed(_) => WorkerAction::Continue,
    }
}

} // verus!
