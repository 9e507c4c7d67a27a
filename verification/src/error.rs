use vstd::prelude::*;
use vstd::string::StringExecFns;

verus! {

/// Every failure the library reports, one variant per cause.
#[derive(Debug)]
pub enum TaskError {
    /// A handler returned a domain error.
    ExecutionError(String),
    /// A payload or snapshot failed to encode or decode.
    SerializationError(String),
    /// A task id was absent where one was required.
    NotFound(String),
    /// All execution attempts were used up.
    MaxRetriesExceeded,
    /// A signature was malformed before dispatch.
    ValidationError(String),
    /// No handler is registered under the task's name.
    HandlerNotFound(String),
    /// The payload's signature names a different handler than the task.
    InvalidSignature,
    /// The registry lock was contended or poisoned.
    RegistryLocked(String),
    /// The worker pool did not stop within its bound.
    ShutdownError(String),
    /// A caller passed a malformed argument.
    InvalidArgument(String),
    /// An escape hatch for backend errors.
    Other(String),
}

impl TaskError {
    /// The human-readable description of this error.
    pub open spec fn spec_message(&self) -> Seq<char> {
        match self {
            TaskError::ExecutionError(m) => "Task execution failed: "@ + m@,
            TaskError::SerializationError(m) => "Task serialization failed: "@ + m@,
            TaskError::NotFound(m) => "Task not found: "@ + m@,
            TaskError::MaxRetriesExceeded => "Maximum retries exceeded"@,
            TaskError::ValidationError(m) => "Task validation failed: "@ + m@,
            TaskError::HandlerNotFound(m) => "Task handler not found: "@ + m@,
            TaskError::InvalidSignature => "Invalid task signature"@,
            TaskError::RegistryLocked(m) => "Task registry is locked: "@ + m@,
            TaskError::ShutdownError(m) => "Shutdown error: "@ + m@,
            TaskError::InvalidArgument(m) => "Invalid argument: "@ + m@,
            TaskError::Other(m) => "Other error: "@ + m@,
        }
    }

    /// Renders the error as its message text.
    pub fn message(&self) -> (r: String)
        ensures
            r@ == self.spec_message(),
    {
        match self {
            TaskError::ExecutionError(m) => {
                let mut s = "Task execution failed: ".to_owned();
                s.append(m.as_str());
                s
            },
            TaskError::SerializationError(m) => {
                let mut s = "Task serialization failed: ".to_owned();
                s.append(m.as_str());
                s
            },
            TaskError::NotFound(m) => {
                let mut s = "Task not found: ".to_owned();
                s.append(m.as_str());
                s
            },
            TaskError::MaxRetriesExceeded => "Maximum retries exceeded".to_owned(),
            TaskError::ValidationError(m) => {
                let mut s = "Task validation failed: ".to_owned();
                s.append(m.as_str());
                s
            },
            TaskError::HandlerNotFound(m) => {
                let mut s = "Task handler not found: ".to_owned();
                s.append(m.as_str());
                s
            },
            TaskError::InvalidSignature => "Invalid task signature".to_owned(),
            TaskError::RegistryLocked(m) => {
                let mut s = "Task registry is locked: ".to_owned();
                s.append(m.as_str());
                s
            },
            TaskError::ShutdownError(m) => {
                let mut s = "Shutdown error: ".to_owned();
                s.append(m.as_str());
                s
            },
            TaskError::InvalidArgument(m) => {
                let mut s = "Invalid argument: ".to_owned();
                s.append(m.as_str());
                s
            },
            TaskError::Other(m) => {
                let mut s = "Other error: ".to_owned();
                s.append(m.as_str());
                s
            },
        }
    }
}

impl Clone for TaskError {
    /// A clone carries the same variant and message.
    fn clone(&self) -> (r: Self)
        ensures
            r == *self,
    {
        match self {
            TaskError::ExecutionError(m) => TaskError::ExecutionError(m.clone()),
            TaskError::SerializationError(m) => TaskError::SerializationError(m.clone()),
            TaskError::NotFound(m) => TaskError::NotFound(m.clone()),
            TaskError::MaxRetriesExceeded => TaskError::MaxRetriesExceeded,
            TaskError::ValidationError(m) => TaskError::ValidationError(m.clone()),
            TaskError::HandlerNotFound(m) => TaskError::HandlerNotFound(m.clone()),
            TaskError::InvalidSignature => TaskError::InvalidSignature,
            TaskError::RegistryLocked(m) => TaskError::RegistryLocked(m.clone()),
            TaskError::ShutdownError(m) => TaskError::ShutdownError(m.clone()),
            TaskError::InvalidArgument(m) => TaskError::InvalidArgument(m.clone()),
            TaskError::Other(m) => TaskError::Other(m.clone()),
        }
    }
}

} // verus!
