use vstd::prelude::*;
use vstd::string::StringExecFns;

use crate::error::TaskError;
use crate::shims::{redis_client_open, redis_url_ok};
use crate::table::TaskTable;
use crate::task::{Task, TaskView};

verus! {

/// The mathematical value of the in-memory queue: the stored snapshots and
/// the identifiers still waiting, oldest first.
#[verifier::ext_equal]
pub struct BrokerView {
    pub tasks: Map<u128, TaskView>,
    pub queue: Seq<u128>,
}

/// The process-local queue: a table of snapshots addressed by identifier,
/// and the identifiers waiting to be popped. Pop takes the most recently
/// pushed identifier, so ordering is last-in first-out; callers must not
/// rely on order with this backend.
pub struct MemoryBroker {
    pub tasks: TaskTable,
    pub queue: Vec<u128>,
}

impl View for MemoryBroker {
    type V = BrokerView;

    open spec fn view(&self) -> BrokerView {
        BrokerView { tasks: self.tasks@, queue: self.queue@ }
    }
}

impl MemoryBroker {
    /// Every waiting identifier has a stored snapshot.
    pub open spec fn wf(&self) -> bool {
        &&& self.tasks.wf()
        &&& forall|i: int|
            0 <= i < self.queue@.len() ==> self.tasks@.contains_key(#[trigger] self.queue@[i])
    }

    pub fn new() -> (r: MemoryBroker)
        ensures
            r.wf(),
            r@.tasks =~= Map::<u128, TaskView>::empty(),
            r@.queue =~= Seq::<u128>::empty(),
    {
        MemoryBroker { tasks: TaskTable::new(), queue: Vec::new() }
    }

    /// Appends the task to the queue and stores its snapshot, replacing a
    /// snapshot already held under the same identifier. Never fails.
    pub fn push(&mut self, task: &Task) -> (r: Result<(), TaskError>)
        requires
            old(self).wf(),
        ensures
            r is Ok,
            final(self).wf(),
            final(self)@.tasks == old(self)@.tasks.insert(task@.id, task@),
            final(self)@.queue == old(self)@.queue.push(task@.id),
    {
        self.tasks.insert(task.clone());
        self.queue.push(task.id());
        Ok(())
    }

    /// Removes and returns the most recently pushed task, or nothing when
    /// the queue is empty. The snapshot table keeps its entry. Never fails.
    pub fn pop(&mut self) -> (r: Result<Option<Task>, TaskError>)
        requires
            old(self).wf(),
        ensures
            final(self).wf(),
            final(self)@.tasks == old(self)@.tasks,
            old(self)@.queue.len() == 0 ==> (r matches Ok(t) && t is None) && final(self)@ == old(
            self)@,
            old(self)@.queue.len() > 0 ==> final(self)@.queue == old(self)@.queue.drop_last() && (
            r matches Ok(t) && t matches Some(popped) && popped@ == old(self)@.tasks[old(
            self)@.queue.last()]),
    {
        match self.queue.pop() {
            Some(id) => {
                match self.tasks.lookup(id) {
                    Some(t) => {
                        let popped = t.clone();
                        proof {
                            assert(final(self)@ =~= (BrokerView {
                                queue: old(self)@.queue.drop_last(),
                                ..old(self)@
                            }));
                        }
                        Ok(Some(popped))
                    },
                    None => {
                        // unreachable: every queued identifier has a snapshot
                        proof {
                            assert(old(self)@.queue.last() == old(self)@.queue[old(
                            self)@.queue.len() - 1]);
                            assert(false);
                        }
                        Ok(None)
                    },
                }
            },
            None => {
                proof {
                    assert(final(self)@ =~= old(self)@);
                }
                Ok(None)
            },
        }
    }

    /// Looks a task up by identifier, independently of queue position.
    /// Never fails.
    pub fn get_task(&self, id: u128) -> (r: Result<Option<Task>, TaskError>)
        requires
            self.wf(),
        ensures
            r matches Ok(t),
            r matches Ok(t) && t matches Some(found) ==> self@.tasks.contains_key(id) && found@
                == self@.tasks[id],
            r matches Ok(t) && t is None ==> !self@.tasks.contains_key(id),
    {
        match self.tasks.lookup(id) {
            Some(t) => Ok(Some(t.clone())),
            None => Ok(None),
        }
    }

    /// Replaces the stored snapshot of the task; queue positions do not
    /// change. Never fails.
    pub fn update_task(&mut self, task: &Task) -> (r: Result<(), TaskError>)
        requires
            old(self).wf(),
        ensures
            r is Ok,
            final(self).wf(),
            final(self)@.tasks == old(self)@.tasks.insert(task@.id, task@),
            final(self)@.queue == old(self)@.queue,
    {
        self.tasks.insert(task.clone());
        Ok(())
    }
}

/// The durable queue: tasks travel through a server-side list under one
/// queue key, and each snapshot sits under its identifier's own key. The
/// connection work happens outside the library; this type holds the client
/// and the key, built without touching the network.
pub struct RedisBroker {
    pub client: redis::Client,
    pub queue_key: String,
}

impl RedisBroker {
    /// Builds a client for the address; the address is only parsed here,
    /// not connected to, and construction succeeds exactly when it parses.
    pub fn new(redis_url: &str, queue_key: &str) -> (r: Result<RedisBroker, redis::RedisError>)
        ensures
            r is Ok <==> redis_url_ok(redis_url@),
            r matches Ok(b) ==> b.queue_key@ == queue_key@,
    {
        match redis_client_open(redis_url) {
            Ok(client) => Ok(RedisBroker { client, queue_key: queue_key.to_owned() }),
            Err(e) => Err(e),
        }
    }

    pub fn client(&self) -> (r: &redis::Client)
    {
        &self.client
    }

    pub fn queue_key(&self) -> (r: &str)
        ensures
            r@ == self.queue_key@,
    {
        self.queue_key.as_str()
    }
}

} // verus!
