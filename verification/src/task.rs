use vstd::prelude::*;

use crate::json::JValue;
use crate::shims::{fresh_task_id, now_millis};
use crate::timestamp::ts_in_range;

verus! {

/// Lifecycle state of a task, from creation to a terminal outcome.
#[derive(Debug, PartialEq, Eq)]
pub enum TaskStatus {
    Pending,
    Running,
    Completed,
    Cancelled,
    Failed(String),
}

/// The mathematical value of a status: the failure reason as a sequence of
/// characters.
pub enum StatusView {
    Pending,
    Running,
    Completed,
    Cancelled,
    Failed(Seq<char>),
}

impl StatusView {
    /// A terminal status admits no further transition.
    pub open spec fn is_terminal(self) -> bool {
        match self {
            StatusView::Completed => true,
            StatusView::Failed(_) => true,
            StatusView::Cancelled => true,
            _ => false,
        }
    }
}

impl View for TaskStatus {
    type V = StatusView;

    open spec fn view(&self) -> StatusView {
        match self {
            TaskStatus::Pending => StatusView::Pending,
            TaskStatus::Running => StatusView::Running,
            TaskStatus::Completed => StatusView::Completed,
            TaskStatus::Cancelled => StatusView::Cancelled,
            TaskStatus::Failed(m) => StatusView::Failed(m@),
        }
    }
}

impl TaskStatus {
    pub fn is_terminal(&self) -> (r: bool)
        ensures
            r == self@.is_terminal(),
    {
        match self {
            TaskStatus::Completed => true,
            TaskStatus::Failed(_) => true,
            TaskStatus::Cancelled => true,
            _ => false,
        }
    }
}

impl Clone for TaskStatus {
    /// A clone carries the same status, reason included.
    fn clone(&self) -> (r: Self)
        ensures
            r@ == self@,
    {
        match self {
            TaskStatus::Pending => TaskStatus::Pending,
            TaskStatus::Running => TaskStatus::Running,
            TaskStatus::Completed => TaskStatus::Completed,
            TaskStatus::Cancelled => TaskStatus::Cancelled,
            TaskStatus::Failed(m) => TaskStatus::Failed(m.clone()),
        }
    }
}

/// The mathematical value of a task: every field as a plain mathematical
/// object.
#[verifier::ext_equal]
pub struct TaskView {
    pub id: u128,
    pub name: Seq<char>,
    pub payload: Seq<u8>,
    pub status: StatusView,
    pub created_at: i64,
    pub retries: u32,
    pub max_retries: u32,
    pub result: Option<Seq<u8>>,
}

impl TaskView {
    /// The attempt counter never exceeds its bound.
    pub open spec fn wf(self) -> bool {
        self.retries <= self.max_retries
    }
}

/// One unit of deferred work: an immutable identity plus mutable lifecycle
/// fields. The identifier is held as the 128-bit value of a version-4 UUID;
/// the creation time as milliseconds since the Unix epoch.
#[derive(Debug, PartialEq)]
pub struct Task {
    pub id: u128,
    pub name: String,
    pub payload: Vec<u8>,
    pub status: TaskStatus,
    pub created_at: i64,
    pub retries: u32,
    pub max_retries: u32,
    pub result: Option<Vec<u8>>,
}

impl View for Task {
    type V = TaskView;

    open spec fn view(&self) -> TaskView {
        TaskView {
            id: self.id,
            name: self.name@,
            payload: self.payload@,
            status: self.status@,
            created_at: self.created_at,
            retries: self.retries,
            max_retries: self.max_retries,
            result: match self.result {
                Some(v) => Some(v@),
                None => None,
            },
        }
    }
}

impl Task {
    /// A fresh task: identity drawn from the identifier generator, creation
    /// time read from the clock — clamped into the range the record format
    /// carries — and lifecycle fields at their start values.
    pub fn new(name: String, payload: Vec<u8>, max_retries: u32) -> (t: Task)
        ensures
            t@.name == name@,
            t@.payload == payload@,
            t@.status == StatusView::Pending,
            t@.retries == 0,
            t@.max_retries == max_retries,
            t@.result is None,
            t@.wf(),
            ts_in_range(t@.created_at),
    {
        let now = now_millis();
        let created_at: i64 = if now < 0 {
            0
        } else if now >= 253402300800000 {
            253402300799999
        } else {
            now
        };
        Task {
            id: fresh_task_id(),
            name,
            payload,
            status: TaskStatus::Pending,
            created_at,
            retries: 0,
            max_retries,
            result: None,
        }
    }

    pub fn id(&self) -> (r: u128)
        ensures
            r == self@.id,
    {
        self.id
    }

    pub fn status(&self) -> (r: &TaskStatus)
        ensures
            r@ == self@.status,
    {
        &self.status
    }

    pub fn name(&self) -> (r: &str)
        ensures
            r@ == self@.name,
    {
        self.name.as_str()
    }

    pub fn payload(&self) -> (r: &Vec<u8>)
        ensures
            r@ == self@.payload,
    {
        &self.payload
    }

    pub fn retries(&self) -> (r: u32)
        ensures
            r == self@.retries,
    {
        self.retries
    }

    pub fn max_retries(&self) -> (r: u32)
        ensures
            r == self@.max_retries,
    {
        self.max_retries
    }

    pub fn created_at(&self) -> (r: i64)
        ensures
            r == self@.created_at,
    {
        self.created_at
    }

    /// Overwrites the status; every other field stays.
    pub fn set_status(&mut self, status: TaskStatus)
        ensures
            final(self)@ == (TaskView { status: status@, ..old(self)@ }),
    {
        self.status = status;
    }

    /// A task is ready when it waits in the queue.
    pub fn is_ready(&self) -> (r: bool)
        ensures
            r == (self@.status is Pending),
    {
        match self.status {
            TaskStatus::Pending => true,
            _ => false,
        }
    }

    /// Uses one more attempt; the bound of the data model keeps the counter
    /// within its limit.
    pub fn increment_retries(&mut self)
        requires
            old(self)@.retries < old(self)@.max_retries,
        ensures
            final(self)@ == (TaskView {
                retries: (old(self)@.retries + 1) as u32,
                ..old(self)@
            }),
            final(self)@.wf(),
    {
        self.retries = self.retries + 1;
    }

    pub fn get_result(&self) -> (r: Option<&Vec<u8>>)
        ensures
            r matches Some(v) ==> self@.result == Some(v@),
            r is None ==> self@.result is None,
    {
        self.result.as_ref()
    }

    /// Records the handler's output; every other field stays.
    pub fn set_result(&mut self, result: Vec<u8>)
        ensures
            final(self)@ == (TaskView { result: Some(result@), ..old(self)@ }),
    {
        self.result = Some(result);
    }
}

/// Copies each byte of a vector; written out because the contract needs the
/// copy to carry the same contents.
pub(crate) fn clone_bytes(v: &Vec<u8>) -> (r: Vec<u8>)
    ensures
        r@ == v@,
{
    let mut r: Vec<u8> = Vec::new();
    let mut i: usize = 0;
    while i < v.len()
        invariant
            i <= v.len(),
            r@ == v@.subrange(0, i as int),
        decreases v.len() - i,
    {
        r.push(v[i]);
        i = i + 1;
    }
    assert(r@ =~= v@);
    r
}

impl Clone for Task {
    /// A clone carries every field of the original unchanged.
    fn clone(&self) -> (r: Self)
        ensures
            r@ == self@,
    {
        let t = Task {
            id: self.id,
            name: self.name.clone(),
            payload: clone_bytes(&self.payload),
            status: self.status.clone(),
            created_at: self.created_at,
            retries: self.retries,
            max_retries: self.max_retries,
            result: match &self.result {
                Some(v) => Some(clone_bytes(v)),
                None => None,
            },
        };
        assert(t@ =~= self@);
        t
    }
}

/// The value carried inside a task's payload: which handler to run, with
/// which positional and named arguments.
#[derive(Debug)]
pub struct TaskSignature {
    pub name: String,
    pub args: Vec<JValue>,
    pub kwargs: Vec<(String, JValue)>,
}

impl TaskSignature {
    pub fn new(name: String, args: Vec<JValue>, kwargs: Vec<(String, JValue)>) -> (s:
        TaskSignature)
        ensures
            s.name == name,
            s.args == args,
            s.kwargs == kwargs,
    {
        TaskSignature { name, args, kwargs }
    }
}

} // verus!
