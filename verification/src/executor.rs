use vstd::prelude::*;

use crate::broker::MemoryBroker;
use crate::codec::{parse_signature, ser_signature, SigView};
use crate::error::TaskError;
use crate::registry::TaskRegistry;
use crate::storage::MemoryStorage;
use crate::task::{StatusView, Task, TaskSignature, TaskStatus, TaskView};

verus! {

/// The task as the store sees it while its attempt runs.
pub open spec fn running_view(t: TaskView) -> TaskView {
    TaskView { status: StatusView::Running, ..t }
}

/// The task after a successful attempt: completed, carrying the handler's
/// bytes.
pub open spec fn completed_view(t: TaskView, bytes: Seq<u8>) -> TaskView {
    TaskView { status: StatusView::Completed, result: Some(bytes), ..t }
}

/// The task after its last allowed attempt failed.
pub open spec fn failed_view(t: TaskView, msg: Seq<char>) -> TaskView {
    TaskView { status: StatusView::Failed(msg), ..t }
}

/// The task on its way back to the queue: one more attempt used, pending
/// again.
pub open spec fn retried_view(t: TaskView) -> TaskView {
    TaskView { retries: (t.retries + 1) as u32, status: StatusView::Pending, ..t }
}

/// How one attempt ended.
pub enum AttemptResult {
    Completed(Seq<u8>),
    Requeued,
    FailedNow(Seq<char>),
}

/// The retry decision, the heart of the executor: a successful attempt
/// completes the task; a failed attempt re-enqueues it while attempts
/// remain, and otherwise fails it for good with the error's message.
pub open spec fn decide_attempt(t: TaskView, outcome: Result<Seq<u8>, Seq<char>>) -> (
    TaskView,
    AttemptResult,
) {
    match outcome {
        Ok(bytes) => (completed_view(t, bytes), AttemptResult::Completed(bytes)),
        Err(msg) => if t.retries < t.max_retries {
            (retried_view(t), AttemptResult::Requeued)
        } else {
            (failed_view(t, msg), AttemptResult::FailedNow(msg))
        },
    }
}

/// What concluding an attempt does to the store: the terminal snapshot is
/// recorded; a re-enqueued task leaves the store as it stands.
pub open spec fn finish_store_effect(
    st: Map<u128, TaskView>,
    t: TaskView,
    outcome: Result<Seq<u8>, Seq<char>>,
) -> Map<u128, TaskView> {
    let (t2, res) = decide_attempt(t, outcome);
    match res {
        AttemptResult::Requeued => st,
        _ => st.insert(t.id, t2),
    }
}

/// What one full attempt does to the queue: a re-enqueued task goes back
/// in, bound to its identifier; a terminal outcome leaves the queue alone.
pub open spec fn attempt_broker_effect(
    bq: crate::broker::BrokerView,
    t: TaskView,
    outcome: Result<Seq<u8>, Seq<char>>,
) -> crate::broker::BrokerView {
    let (t2, res) = decide_attempt(t, outcome);
    match res {
        AttemptResult::Requeued => crate::broker::BrokerView {
            tasks: bq.tasks.insert(t.id, t2),
            queue: bq.queue.push(t.id),
        },
        _ => bq,
    }
}

/// What one full attempt leaves in the store: the terminal snapshot when
/// the attempt ended the task, and the running snapshot of the attempt's
/// start when the task went back to the queue.
pub open spec fn attempt_store_effect(
    st: Map<u128, TaskView>,
    t: TaskView,
    outcome: Result<Seq<u8>, Seq<char>>,
) -> Map<u128, TaskView> {
    let (t2, res) = decide_attempt(t, outcome);
    match res {
        AttemptResult::Requeued => st.insert(t.id, running_view(t)),
        _ => st.insert(t.id, t2),
    }
}

/// The task's state after a run of attempts, each with the given handler
/// outcome, stopping at the first terminal state.
pub open spec fn run_attempts(t: TaskView, outs: Seq<Result<Seq<u8>, Seq<char>>>) -> TaskView
    decreases outs.len(),
{
    if outs.len() == 0 {
        t
    } else {
        let (t2, res) = decide_attempt(t, outs[0]);
        if res is Requeued {
            run_attempts(t2, outs.drop_first())
        } else {
            t2
        }
    }
}

/// Terminal mirroring: when an attempt completes or finally fails a task,
/// the store's record under its identifier carries that terminal status,
/// and a completed record carries its result.
pub proof fn lemma_terminal_mirroring(
    st: Map<u128, TaskView>,
    t: TaskView,
    outcome: Result<Seq<u8>, Seq<char>>,
)
    requires
        !(decide_attempt(t, outcome).1 is Requeued),
    ensures
        attempt_store_effect(st, t, outcome).contains_key(t.id),
        attempt_store_effect(st, t, outcome)[t.id] == decide_attempt(t, outcome).0,
        attempt_store_effect(st, t, outcome)[t.id].status.is_terminal(),
        decide_attempt(t, outcome).1 is Completed ==> attempt_store_effect(st, t, outcome)[t.id].result
            is Some,
{
}

/// Retry bound: when every attempt fails, the final state is a failure
/// after exactly the allowed number of retries.
pub proof fn lemma_retry_bound(t: TaskView, outs: Seq<Result<Seq<u8>, Seq<char>>>)
    requires
        t.wf(),
        outs.len() == t.max_retries - t.retries + 1,
        forall|i: int| 0 <= i < outs.len() ==> (#[trigger] outs[i]) is Err,
    ensures
        run_attempts(t, outs).status is Failed,
        run_attempts(t, outs).retries == t.max_retries,
        run_attempts(t, outs).max_retries == t.max_retries,
        run_attempts(t, outs).id == t.id,
    decreases outs.len(),
{
    assert(outs[0] is Err);
    if t.retries < t.max_retries {
        let t2 = retried_view(t);
        assert(forall|i: int|
            0 <= i < outs.drop_first().len() ==> (#[trigger] outs.drop_first()[i]) is Err);
        lemma_retry_bound(t2, outs.drop_first());
    }
}

/// Retry success: when a task starts fresh, every attempt but the last
/// fails and the last succeeds, the final state is completed with every
/// allowed retry used.
pub proof fn lemma_retry_success(t: TaskView, outs: Seq<Result<Seq<u8>, Seq<char>>>)
    requires
        t.wf(),
        outs.len() == t.max_retries - t.retries + 1,
        forall|i: int| 0 <= i < outs.len() - 1 ==> (#[trigger] outs[i]) is Err,
        outs.last() is Ok,
    ensures
        run_attempts(t, outs).status is Completed,
        run_attempts(t, outs).retries == t.max_retries,
        run_attempts(t, outs).result == Some(outs.last()->Ok_0),
        run_attempts(t, outs).id == t.id,
    decreases outs.len(),
{
    if outs.len() == 1 {
        assert(outs[0] == outs.last());
    } else {
        assert(outs[0] is Err);
        assert(t.retries < t.max_retries);
        let t2 = retried_view(t);
        assert(forall|i: int|
            0 <= i < outs.drop_first().len() - 1 ==> (#[trigger] outs.drop_first()[i]) is Err);
        assert(outs.drop_first().last() == outs.last());
        lemma_retry_success(t2, outs.drop_first());
    }
}

/// Handler isolation: one task's attempt touches only its own record, so a
/// later task with a working handler completes no matter how the earlier
/// attempt went.
pub proof fn lemma_handler_isolation(
    st: Map<u128, TaskView>,
    a: TaskView,
    b: TaskView,
    out_a: Result<Seq<u8>, Seq<char>>,
    bytes: Seq<u8>,
)
    requires
        a.id != b.id,
    ensures
        attempt_store_effect(attempt_store_effect(st, a, out_a), b, Ok(bytes)).contains_key(b.id),
        attempt_store_effect(attempt_store_effect(st, a, out_a), b, Ok(bytes))[b.id]
            == completed_view(b, bytes),
        attempt_store_effect(attempt_store_effect(st, a, out_a), b, Ok(bytes))[b.id].status
            is Completed,
{
}

/// The message recorded when no handler is registered under the name.
pub open spec fn handler_not_found_msg(name: Seq<char>) -> Seq<char> {
    "Task handler not found: "@ + name
}

/// Starts one attempt: marks the task running and mirrors it, then finds
/// the handler and checks the payload's signature. A missing handler, an
/// unreadable payload or a name mismatch fails the task for good, mirrors
/// the failure, and reports why; retry does not apply to these.
pub fn begin_attempt<'a, H>(
    storage: &mut MemoryStorage,
    registry: &'a TaskRegistry<H>,
    task: &mut Task,
) -> (r: Result<(&'a H, TaskSignature), TaskError>)
    requires
        old(storage).wf(),
    ensures
        final(storage).wf(),
        final(task)@.id == old(task)@.id,
        final(task)@.name == old(task)@.name,
        final(task)@.payload == old(task)@.payload,
        final(task)@.retries == old(task)@.retries,
        final(task)@.max_retries == old(task)@.max_retries,
        r matches Ok(pr) ==> final(task)@ == running_view(old(task)@) && final(storage)@ == old(
            storage)@.insert(old(task)@.id, running_view(old(task)@)) && registry@.contains_key(
            old(task)@.name) && *pr.0 == registry@[old(task)@.name] && pr.1@.name == old(
            task)@.name,
        forall|sv: SigView|
            old(task)@.payload == #[trigger] ser_signature(sv) ==> (r matches Ok(pr) ==> pr.1@
                == sv),
        r matches Err(e) ==> final(task)@.status is Failed && final(storage)@ == old(storage)@.insert(old(task)@.id, final(task)@),
        !registry@.contains_key(old(task)@.name) ==> (r matches Err(e) && e matches
            TaskError::HandlerNotFound(n) && n@ == old(task)@.name) && final(task)@ == failed_view(
            old(task)@,
            handler_not_found_msg(old(task)@.name),
        ),
        forall|sv: SigView|
            old(task)@.payload == #[trigger] ser_signature(sv) && registry@.contains_key(
                old(task)@.name,
            ) && sv.name == old(task)@.name ==> r is Ok,
        forall|sv: SigView|
            old(task)@.payload == #[trigger] ser_signature(sv) && registry@.contains_key(
                old(task)@.name,
            ) && sv.name != old(task)@.name ==> (r matches Err(e) && e is InvalidSignature),
{
    task.set_status(TaskStatus::Running);
    let _ = storage.update_task(task);
    let handler = match registry.get(task.name()) {
        Some(h) => h,
        None => {
            let e = TaskError::HandlerNotFound(task.name().to_owned());
            task.set_status(TaskStatus::Failed(e.message()));
            let _ = storage.update_task(task);
            proof {
                assert(final(storage)@ =~= old(storage)@.insert(old(task)@.id, final(task)@));
            }
            return Err(e);
        },
    };
    let sig = match parse_signature(task.payload()) {
        Ok(sig) => sig,
        Err(e) => {
            task.set_status(TaskStatus::Failed(e.message()));
            let _ = storage.update_task(task);
            proof {
                assert(final(storage)@ =~= old(storage)@.insert(old(task)@.id, final(task)@));
            }
            return Err(e);
        },
    };
    let names_match = {
        let key = task.name().to_owned();
        sig.name == key
    };
    if !names_match {
        let e = TaskError::InvalidSignature;
        task.set_status(TaskStatus::Failed(e.message()));
        let _ = storage.update_task(task);
        proof {
            assert(final(storage)@ =~= old(storage)@.insert(old(task)@.id, final(task)@));
        }
        return Err(e);
    }
    proof {
        assert(final(storage)@ =~= old(storage)@.insert(old(task)@.id, running_view(old(task)@)));
        assert(final(task)@ =~= running_view(old(task)@));
    }
    Ok((handler, sig))
}

/// Concludes one attempt from the handler's outcome, per the retry
/// decision: success completes and mirrors the task; a failure with
/// attempts left re-enqueues it without touching the store; a failure on
/// the last attempt fails it for good, mirrors that, and reports the
/// error.
pub fn finish_attempt(
    broker: &mut MemoryBroker,
    storage: &mut MemoryStorage,
    task: &mut Task,
    outcome: Result<Vec<u8>, TaskError>,
) -> (r: Result<(), TaskError>)
    requires
        old(broker).wf(),
        old(storage).wf(),
        old(task)@.wf(),
    ensures
        final(broker).wf(),
        final(storage).wf(),
        final(task)@ == decide_attempt(
            old(task)@,
            match outcome {
                Ok(b) => Ok(b@),
                Err(e) => Err(e.spec_message()),
            },
        ).0,
        final(storage)@ == finish_store_effect(
            old(storage)@,
            old(task)@,
            match outcome {
                Ok(b) => Ok(b@),
                Err(e) => Err(e.spec_message()),
            },
        ),
        final(broker)@ == attempt_broker_effect(
            old(broker)@,
            old(task)@,
            match outcome {
                Ok(b) => Ok(b@),
                Err(e) => Err(e.spec_message()),
            },
        ),
        outcome matches Ok(b) ==> r is Ok && final(broker)@ == old(broker)@,
        (outcome is Err && old(task)@.retries < old(task)@.max_retries) ==> r is Ok && final(
            broker)@.tasks == old(broker)@.tasks.insert(old(task)@.id, retried_view(old(task)@))
            && final(broker)@.queue == old(broker)@.queue.push(old(task)@.id) && final(storage)@
            == old(storage)@,
        outcome matches Err(e) ==> (old(task)@.retries >= old(task)@.max_retries ==> (r matches Err(
            e2) && e2 == e) && final(broker)@ == old(broker)@),
{
    match outcome {
        Ok(bytes) => {
            task.set_status(TaskStatus::Completed);
            task.set_result(bytes);
            let _ = storage.update_task(task);
            proof {
                assert(final(task)@ =~= completed_view(old(task)@, outcome->Ok_0@));
                assert(final(storage)@ =~= finish_store_effect(
                    old(storage)@,
                    old(task)@,
                    Ok(outcome->Ok_0@),
                ));
                assert(final(broker)@ =~= attempt_broker_effect(
                    old(broker)@,
                    old(task)@,
                    Ok(outcome->Ok_0@),
                ));
            }
            Ok(())
        },
        Err(e) => {
            if task.retries() < task.max_retries() {
                task.increment_retries();
                task.set_status(TaskStatus::Pending);
                let _ = broker.push(task);
                proof {
                    assert(final(task)@ =~= retried_view(old(task)@));
                    assert(final(storage)@ =~= finish_store_effect(
                        old(storage)@,
                        old(task)@,
                        Err(e.spec_message()),
                    ));
                    assert(final(broker)@ =~= attempt_broker_effect(
                        old(broker)@,
                        old(task)@,
                        Err(e.spec_message()),
                    ));
                }
                Ok(())
            } else {
                let msg = e.message();
                task.set_status(TaskStatus::Failed(msg));
                let _ = storage.update_task(task);
                proof {
                    assert(final(task)@ =~= failed_view(old(task)@, e.spec_message()));
                    assert(final(storage)@ =~= finish_store_effect(
                        old(storage)@,
                        old(task)@,
                        Err(e.spec_message()),
                    ));
                    assert(final(broker)@ =~= attempt_broker_effect(
                        old(broker)@,
                        old(task)@,
                        Err(e.spec_message()),
                    ));
                }
                Err(e)
            }
        },
    }
}

/// Runs one task attempt end to end against the in-memory backends: start
/// the attempt, call the handler, conclude per the retry decision. The
/// handler's outcome is its own; whatever it returns, the task ends
/// completed, re-enqueued, or failed with the error recorded.
pub fn execute_task<H: Fn(&TaskSignature) -> Result<Vec<u8>, TaskError>>(
    broker: &mut MemoryBroker,
    storage: &mut MemoryStorage,
    registry: &TaskRegistry<H>,
    task: &mut Task,
) -> (r: Result<(), TaskError>)
    requires
        old(broker).wf(),
        old(storage).wf(),
        old(task)@.wf(),
        forall|k: Seq<char>, sig: &TaskSignature|
            registry@.contains_key(k) ==> #[trigger] call_requires(registry@[k], (sig,)),
    ensures
        final(broker).wf(),
        final(storage).wf(),
        final(task)@.wf(),
        final(task)@.id == old(task)@.id,
        final(task)@.name == old(task)@.name,
        final(task)@.payload == old(task)@.payload,
        final(task)@.max_retries == old(task)@.max_retries,
        final(task)@.retries == old(task)@.retries || final(task)@.retries == old(task)@.retries
            + 1,
        r matches Err(e) ==> final(task)@.status is Failed && final(task)@.retries == old(
            task)@.retries && final(storage)@ == old(storage)@.insert(
            old(task)@.id,
            final(task)@,
        ) && final(broker)@ == old(broker)@,
        !registry@.contains_key(old(task)@.name) ==> (r matches Err(e) && e matches
            TaskError::HandlerNotFound(n) && n@ == old(task)@.name) && final(task)@ == failed_view(
            old(task)@,
            handler_not_found_msg(old(task)@.name),
        ) && final(storage)@ == old(storage)@.insert(old(task)@.id, final(task)@) && final(broker)@ == old(broker)@,
        forall|sv: SigView|
            old(task)@.payload == #[trigger] ser_signature(sv) && registry@.contains_key(
                old(task)@.name,
            ) && sv.name != old(task)@.name ==> (r matches Err(e) && e is InvalidSignature)
                && final(task)@.status is Failed && final(storage)@ == old(storage)@.insert(
                old(task)@.id,
                final(task)@,
            ) && final(broker)@ == old(broker)@,
        forall|sv: SigView|
            old(task)@.payload == #[trigger] ser_signature(sv) && registry@.contains_key(
                old(task)@.name,
            ) && sv.name == old(task)@.name ==> exists|o: Result<Vec<u8>, TaskError>|
                (#[trigger] call_ensures_of(registry@[old(task)@.name], sv, o)) && final(task)@
                    == decide_attempt(
                    old(task)@,
                    match o {
                        Ok(b) => Ok(b@),
                        Err(e) => Err(e.spec_message()),
                    },
                ).0 && final(storage)@ == attempt_store_effect(
                    old(storage)@,
                    old(task)@,
                    match o {
                        Ok(b) => Ok(b@),
                        Err(e) => Err(e.spec_message()),
                    },
                ) && final(broker)@ == attempt_broker_effect(
                    old(broker)@,
                    old(task)@,
                    match o {
                        Ok(b) => Ok(b@),
                        Err(e) => Err(e.spec_message()),
                    },
                ),
{
    let begun = begin_attempt(storage, registry, task);
    match begun {
        Ok((handler, sig)) => {
            let outcome = handler(&sig);
            proof {
                assert(task@.wf());
            }
            let ghost mid_storage = storage@;
            let r2 = finish_attempt(broker, storage, task, outcome);
            proof {
                let t0 = old(task)@;
                assert forall|sv: SigView|
                    t0.payload == #[trigger] ser_signature(sv) && registry@.contains_key(t0.name)
                        && sv.name == t0.name implies exists|o: Result<Vec<u8>, TaskError>|
                    (#[trigger] call_ensures_of(registry@[t0.name], sv, o)) && task@
                        == decide_attempt(
                        t0,
                        match o {
                            Ok(b) => Ok(b@),
                            Err(e) => Err(e.spec_message()),
                        },
                    ).0 && storage@ == attempt_store_effect(
                        old(storage)@,
                        t0,
                        match o {
                            Ok(b) => Ok(b@),
                            Err(e) => Err(e.spec_message()),
                        },
                    ) && broker@ == attempt_broker_effect(
                        old(broker)@,
                        t0,
                        match o {
                            Ok(b) => Ok(b@),
                            Err(e) => Err(e.spec_message()),
                        },
                    ) by {
                    assert(sig@ == sv);
                    assert(call_ensures(registry@[t0.name], (&sig,), outcome));
                    assert(call_ensures_of(registry@[t0.name], sv, outcome));
                    assert(mid_storage == old(storage)@.insert(t0.id, running_view(t0)));
                    let ov = match outcome {
                        Ok(b) => Ok(b@),
                        Err(e) => Err(e.spec_message()),
                    };
                    assert(storage@ == finish_store_effect(mid_storage, t0, ov));
                    assert(storage@ =~= attempt_store_effect(old(storage)@, t0, ov));
                    assert(broker@ == attempt_broker_effect(old(broker)@, running_view(t0), ov));
                    assert(broker@ =~= attempt_broker_effect(old(broker)@, t0, ov));
                }
                if r2 is Err {
                    assert(storage@ =~= old(storage)@.insert(old(task)@.id, task@));
                }
            }
            r2
        },
        Err(e) => {
            proof {
                assert(final(broker)@ =~= old(broker)@);
            }
            Err(e)
        },
    }
}

/// Whether a failed attempt goes back to the queue: attempts remain below
/// the bound. The loop that drives attempts from outside consults this
/// decision rather than restating it.
pub fn should_retry(retries: u32, max_retries: u32) -> (r: bool)
    ensures
        r == (retries < max_retries),
{
    retries < max_retries
}

/// The handler bound to the name could have returned this outcome for a
/// signature with this value.
pub open spec fn call_ensures_of<H: Fn(&TaskSignature) -> Result<Vec<u8>, TaskError>>(
    h: H,
    sv: SigView,
    o: Result<Vec<u8>, TaskError>,
) -> bool {
    exists|sig: &TaskSignature| sig@ == sv && call_ensures(h, (sig,), o)
}

} // verus!
