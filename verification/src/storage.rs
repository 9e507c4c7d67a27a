use vstd::prelude::*;
use vstd::string::StringExecFns;

use crate::error::TaskError;
use crate::shims::{redis_client_open, redis_url_ok};
use crate::table::TaskTable;
use crate::task::{Task, TaskView};

verus! {

/// The process-local result store: the latest snapshot of every task it was
/// handed, addressed by identifier.
pub struct MemoryStorage {
    pub tasks: TaskTable,
}

impl View for MemoryStorage {
    type V = Map<u128, TaskView>;

    open spec fn view(&self) -> Map<u128, TaskView> {
        self.tasks@
    }
}

impl MemoryStorage {
    pub open spec fn wf(&self) -> bool {
        self.tasks.wf()
    }

    pub fn new() -> (r: MemoryStorage)
        ensures
            r.wf(),
            r@ =~= Map::<u128, TaskView>::empty(),
    {
        MemoryStorage { tasks: TaskTable::new() }
    }

    /// Records the task's snapshot, replacing one already held under the
    /// same identifier. Never fails.
    pub fn store_task(&mut self, task: &Task) -> (r: Result<(), TaskError>)
        requires
            old(self).wf(),
        ensures
            r is Ok,
            final(self).wf(),
            final(self)@ == old(self)@.insert(task@.id, task@),
    {
        self.tasks.insert(task.clone());
        Ok(())
    }

    /// The latest snapshot recorded under the identifier, if any. Never
    /// fails.
    pub fn load_task(&self, id: u128) -> (r: Result<Option<Task>, TaskError>)
        requires
            self.wf(),
        ensures
            r matches Ok(t),
            r matches Ok(t) && t matches Some(found) ==> self@.contains_key(id) && found@ == self@[
                id],
            r matches Ok(t) && t is None ==> !self@.contains_key(id),
    {
        match self.tasks.lookup(id) {
            Some(t) => Ok(Some(t.clone())),
            None => Ok(None),
        }
    }

    /// Replaces the task's snapshot; same effect as storing it. Never
    /// fails.
    pub fn update_task(&mut self, task: &Task) -> (r: Result<(), TaskError>)
        requires
            old(self).wf(),
        ensures
            r is Ok,
            final(self).wf(),
            final(self)@ == old(self)@.insert(task@.id, task@),
    {
        self.tasks.insert(task.clone());
        Ok(())
    }

    /// Forgets the snapshot under the identifier; absent identifiers change
    /// nothing. Never fails.
    pub fn delete_task(&mut self, id: u128) -> (r: Result<(), TaskError>)
        requires
            old(self).wf(),
        ensures
            r is Ok,
            final(self).wf(),
            final(self)@ == old(self)@.remove(id),
    {
        self.tasks.remove(id);
        Ok(())
    }

    /// A copy of every recorded snapshot, one per identifier. Never fails.
    pub fn list_tasks(&self) -> (r: Result<Vec<Task>, TaskError>)
        requires
            self.wf(),
        ensures
            r matches Ok(ts),
            r matches Ok(ts) ==> (forall|i: int|
                0 <= i < ts@.len() ==> self@.contains_key((#[trigger] ts@[i])@.id) && ts@[i]@
                    == self@[ts@[i]@.id]) && (forall|id: u128| #[trigger]
                self@.contains_key(id) ==> exists|i: int|
                    0 <= i < ts@.len() && (#[trigger] ts@[i])@.id == id) && (forall|i: int, j: int|
                0 <= i < j < ts@.len() ==> (#[trigger] ts@[i])@.id != (#[trigger] ts@[j])@.id),
    {
        Ok(self.tasks.values())
    }
}

impl Default for MemoryStorage {
    /// The default store is empty.
    fn default() -> (r: Self)
        ensures
            r.wf(),
            r@ =~= Map::<u128, TaskView>::empty(),
    {
        MemoryStorage::new()
    }
}

/// The durable result store: each snapshot sits under `<prefix>:<id>` on an
/// external key/value server. The connection work happens outside the
/// library; this type holds the client and the prefix, built without
/// touching the network.
pub struct RedisStorage {
    pub client: redis::Client,
    pub prefix: String,
}

impl RedisStorage {
    /// Builds a client for the address; the address is only parsed here,
    /// not connected to, and construction succeeds exactly when it parses.
    pub fn new(redis_url: &str, prefix: &str) -> (r: Result<RedisStorage, redis::RedisError>)
        ensures
            r is Ok <==> redis_url_ok(redis_url@),
            r matches Ok(s) ==> s.prefix@ == prefix@,
    {
        match redis_client_open(redis_url) {
            Ok(client) => Ok(RedisStorage { client, prefix: prefix.to_owned() }),
            Err(e) => Err(e),
        }
    }

    pub fn client(&self) -> (r: &redis::Client)
    {
        &self.client
    }

    pub fn prefix(&self) -> (r: &str)
        ensures
            r@ == self.prefix@,
    {
        self.prefix.as_str()
    }
}

} // verus!
