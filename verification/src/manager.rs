use vstd::prelude::*;

use crate::broker::{BrokerView, MemoryBroker};
use crate::codec::ser_signature;
use crate::error::TaskError;
use crate::registry::TaskRegistry;
use crate::storage::MemoryStorage;
use crate::task::{Task, TaskSignature, TaskView};

verus! {

/// Wires the coordinator's collaborators together, filling in a fresh
/// in-memory backend for anything the caller does not supply.
pub struct TaskManagerBuilder<H> {
    pub broker: Option<MemoryBroker>,
    pub storage: Option<MemoryStorage>,
    pub registry: Option<TaskRegistry<H>>,
    pub concurrency: usize,
}

impl<H> TaskManagerBuilder<H> {
    pub fn new(concurrency: usize) -> (r: TaskManagerBuilder<H>)
        ensures
            r.broker is None,
            r.storage is None,
            r.registry is None,
            r.concurrency == concurrency,
    {
        TaskManagerBuilder { broker: None, storage: None, registry: None, concurrency }
    }

    pub fn with_broker(self, broker: MemoryBroker) -> (r: TaskManagerBuilder<H>)
        ensures
            r == (TaskManagerBuilder { broker: Some(broker), ..self }),
    {
        TaskManagerBuilder { broker: Some(broker), ..self }
    }

    pub fn with_storage(self, storage: MemoryStorage) -> (r: TaskManagerBuilder<H>)
        ensures
            r == (TaskManagerBuilder { storage: Some(storage), ..self }),
    {
        TaskManagerBuilder { storage: Some(storage), ..self }
    }

    pub fn with_registry(self, registry: TaskRegistry<H>) -> (r: TaskManagerBuilder<H>)
        ensures
            r == (TaskManagerBuilder { registry: Some(registry), ..self }),
    {
        TaskManagerBuilder { registry: Some(registry), ..self }
    }

    /// Builds the coordinator: supplied collaborators are taken as they
    /// are, missing ones start empty.
    pub fn build(self) -> (r: TaskManager<H>)
        requires
            self.broker matches Some(b) ==> b.wf(),
            self.storage matches Some(s) ==> s.wf(),
        ensures
            r.wf(),
            r.concurrency == self.concurrency,
            self.broker matches Some(b) ==> r.broker == b,
            self.broker is None ==> r.broker@.queue.len() == 0 && (r.broker@.tasks =~= Map::<
                u128,
                TaskView,
            >::empty()),
            self.storage matches Some(s) ==> r.storage == s,
            self.storage is None ==> (r.storage@ =~= Map::<u128, TaskView>::empty()),
            self.registry matches Some(g) ==> r.registry == g,
            self.registry is None ==> (r.registry@ =~= Map::<Seq<char>, H>::empty()),
    {
        let broker = match self.broker {
            Some(b) => b,
            None => MemoryBroker::new(),
        };
        let storage = match self.storage {
            Some(s) => s,
            None => MemoryStorage::new(),
        };
        let registry = match self.registry {
            Some(g) => g,
            None => TaskRegistry::new(),
        };
        TaskManager { broker, storage, registry, concurrency: self.concurrency }
    }
}

/// The coordinator over the in-memory backends: accepts work, hands
/// snapshots back, and holds the registry the workers consult. The worker
/// loops themselves run outside the library.
pub struct TaskManager<H> {
    pub broker: MemoryBroker,
    pub storage: MemoryStorage,
    pub registry: TaskRegistry<H>,
    pub concurrency: usize,
}

impl<H> TaskManager<H> {
    pub open spec fn wf(&self) -> bool {
        &&& self.broker.wf()
        &&& self.storage.wf()
    }

    pub fn builder(concurrency: usize) -> (r: TaskManagerBuilder<H>)
        ensures
            r.broker is None,
            r.storage is None,
            r.registry is None,
            r.concurrency == concurrency,
    {
        TaskManagerBuilder::new(concurrency)
    }

    /// Binds a handler under a name; later lookups under the name find it.
    /// Never fails here: locking around a shared registry is the caller's
    /// concern.
    pub fn register_handler(&mut self, name: &str, handler: H) -> (r: Result<(), TaskError>)
        ensures
            r is Ok,
            final(self).registry@ == old(self).registry@.insert(name@, handler),
            final(self).broker == old(self).broker,
            final(self).storage == old(self).storage,
            final(self).wf() == old(self).wf(),
    {
        self.registry.register(name, handler);
        Ok(())
    }

    /// Builds a fresh task around the serialized signature and queues it;
    /// the new task's identifier comes back. The identifier is drawn by
    /// the generator; the task enters the queue exactly once, bound to
    /// that identifier.
    pub fn enqueue_task(&mut self, signature: TaskSignature, max_retries: u32) -> (r: Result<
        u128,
        TaskError,
    >)
        requires
            old(self).wf(),
        ensures
            final(self).wf(),
            r is Ok,
            r matches Ok(id) ==> {
                let tv = final(self).broker@.tasks[id];
                &&& final(self).broker@.tasks.contains_key(id)
                &&& tv.id == id
                &&& tv.name == signature@.name
                &&& tv.payload == ser_signature(signature@)
                &&& tv.status is Pending
                &&& tv.retries == 0
                &&& tv.max_retries == max_retries
                &&& tv.result is None
                &&& final(self).broker@.tasks == old(self).broker@.tasks.insert(id, tv)
                &&& final(self).broker@.queue == old(self).broker@.queue.push(id)
            },
            final(self).storage == old(self).storage,
            final(self).registry == old(self).registry,
    {
        let payload = signature.to_bytes();
        let task = Task::new(signature.name, payload, max_retries);
        let _ = self.broker.push(&task);
        Ok(task.id())
    }

    /// The latest stored snapshot under the identifier; the store is the
    /// caller-visible source of truth once a worker has observed the task.
    pub fn get_task(&self, id: u128) -> (r: Result<Option<Task>, TaskError>)
        requires
            self.wf(),
        ensures
            r matches Ok(t),
            r matches Ok(t) && t matches Some(found) ==> self.storage@.contains_key(id) && found@
                == self.storage@[id],
            r matches Ok(t) && t is None ==> !self.storage@.contains_key(id),
    {
        self.storage.load_task(id)
    }

    /// A copy of every stored snapshot.
    pub fn list_tasks(&self) -> (r: Result<Vec<Task>, TaskError>)
        requires
            self.wf(),
        ensures
            r matches Ok(ts),
            r matches Ok(ts) ==> (forall|i: int|
                0 <= i < ts@.len() ==> self.storage@.contains_key((#[trigger] ts@[i])@.id)
                    && ts@[i]@ == self.storage@[ts@[i]@.id]) && (forall|id: u128| #[trigger]
                self.storage@.contains_key(id) ==> exists|i: int|
                    0 <= i < ts@.len() && (#[trigger] ts@[i])@.id == id) && (forall|i: int, j: int|
                0 <= i < j < ts@.len() ==> (#[trigger] ts@[i])@.id != (#[trigger] ts@[j])@.id),
    {
        self.storage.list_tasks()
    }
}

/// A task is finished when its status is terminal.
pub fn is_finished(task: &Task) -> (r: bool)
    ensures
        r == task@.status.is_terminal(),
{
    task.status().is_terminal()
}

/// One enqueue as the queue sees it.
pub open spec fn enqueue_step(bq: BrokerView, t: TaskView) -> BrokerView {
    BrokerView { tasks: bq.tasks.insert(t.id, t), queue: bq.queue.push(t.id) }
}

/// A run of enqueues, oldest first.
pub open spec fn enqueue_all(bq: BrokerView, ts: Seq<TaskView>) -> BrokerView
    decreases ts.len(),
{
    if ts.len() == 0 {
        bq
    } else {
        enqueue_all(enqueue_step(bq, ts[0]), ts.drop_first())
    }
}

/// Identifier uniqueness: the coordinator returns each drawn identifier
/// unchanged and queues each task under its own identifier exactly once,
/// so when the drawn identifiers are pairwise distinct — the identifier
/// generator's burden — the returned identifiers are pairwise distinct and
/// each maps to its own task.
pub proof fn lemma_enqueue_ids_distinct(bq: BrokerView, ts: Seq<TaskView>)
    requires
        forall|i: int, j: int|
            0 <= i < j < ts.len() ==> (#[trigger] ts[i]).id != (#[trigger] ts[j]).id,
        forall|i: int| 0 <= i < ts.len() ==> !bq.tasks.contains_key((#[trigger] ts[i]).id),
    ensures
        enqueue_all(bq, ts).queue == bq.queue + ts.map_values(|t: TaskView| t.id),
        forall|i: int|
            0 <= i < ts.len() ==> enqueue_all(bq, ts).tasks.contains_key((#[trigger] ts[i]).id)
                && enqueue_all(bq, ts).tasks[ts[i].id] == ts[i],
    decreases ts.len(),
{
    if ts.len() == 0 {
        assert(enqueue_all(bq, ts).queue =~= bq.queue + ts.map_values(|t: TaskView| t.id));
    } else {
        let bq2 = enqueue_step(bq, ts[0]);
        let rest = ts.drop_first();
        assert(forall|i: int, j: int|
            0 <= i < j < rest.len() ==> (#[trigger] rest[i]).id != (#[trigger] rest[j]).id) by {
            assert(forall|i: int| 0 <= i < rest.len() ==> rest[i] == ts[i + 1]);
        }
        assert(forall|i: int| 0 <= i < rest.len() ==> !bq2.tasks.contains_key((#[trigger] rest[i]).id))
            by {
            assert(forall|i: int| 0 <= i < rest.len() ==> rest[i] == ts[i + 1]);
        }
        lemma_enqueue_ids_distinct(bq2, rest);
        assert(enqueue_all(bq, ts).queue =~= bq.queue + ts.map_values(|t: TaskView| t.id)) by {
            assert(enqueue_all(bq, ts).queue == bq2.queue + rest.map_values(
                |t: TaskView| t.id,
            ));
            assert(forall|i: int| 0 <= i < rest.len() ==> rest[i] == ts[i + 1]);
        }
        assert forall|i: int| 0 <= i < ts.len() implies enqueue_all(bq, ts).tasks.contains_key(
            (#[trigger] ts[i]).id,
        ) && enqueue_all(bq, ts).tasks[ts[i].id] == ts[i] by {
            if i == 0 {
                assert(forall|j: int| 0 <= j < rest.len() ==> rest[j] == ts[j + 1]);
                assert(forall|j: int| 0 <= j < rest.len() ==> rest[j].id != ts[0].id);
                lemma_enqueue_preserves(bq2, rest, ts[0].id);
                assert(bq2.tasks[ts[0].id] == ts[0]);
            } else {
                assert(rest[i - 1] == ts[i]);
            }
        }
    }
}

/// Enqueues of other tasks do not touch an identifier none of them
/// carries.
proof fn lemma_enqueue_preserves(bq: BrokerView, ts: Seq<TaskView>, id: u128)
    requires
        forall|i: int| 0 <= i < ts.len() ==> (#[trigger] ts[i]).id != id,
    ensures
        enqueue_all(bq, ts).tasks.contains_key(id) == bq.tasks.contains_key(id),
        bq.tasks.contains_key(id) ==> enqueue_all(bq, ts).tasks[id] == bq.tasks[id],
    decreases ts.len(),
{
    if ts.len() > 0 {
        let bq2 = enqueue_step(bq, ts[0]);
        assert(forall|i: int| 0 <= i < ts.drop_first().len() ==> ts.drop_first()[i] == ts[i + 1]);
        lemma_enqueue_preserves(bq2, ts.drop_first(), id);
    }
}

} // verus!
