use bg_coor::codec::{deserialize_task, serialize_task, uuid_string};
use bg_coor::error::TaskError;
use bg_coor::task::{Task, TaskStatus};
use chrono::Utc;

#[test]
fn test_task_creation() {
    let name = "test_task".to_string();
    let payload = vec![1, 2, 3];
    let task = Task::new(name.clone(), payload.clone(), 3);

    assert_eq!(task.name(), name);
    assert_eq!(task.payload(), &payload);
    assert_eq!(*task.status(), TaskStatus::Pending);
    assert_eq!(task.retries(), 0);
    assert_eq!(task.max_retries(), 3);
    assert!(task.created_at() <= Utc::now().timestamp_millis());
}

#[test]
fn test_task_status_transitions() {
    let mut task = Task::new("test".to_string(), vec![], 3);

    assert_eq!(task.status(), &TaskStatus::Pending);

    task.set_status(TaskStatus::Running);
    assert_eq!(task.status(), &TaskStatus::Running);

    task.set_status(TaskStatus::Completed);
    assert_eq!(task.status(), &TaskStatus::Completed);

    task.set_status(TaskStatus::Failed("error".to_string()));
    match task.status() {
        TaskStatus::Failed(msg) => assert_eq!(msg, "error"),
        _ => panic!("Expected Failed status"),
    }
}

#[test]
fn test_task_serialization() {
    let task = Task::new("test".to_string(), vec![1, 2, 3], 3);
    let serialized = serialize_task(&task);
    let deserialized: Task = deserialize_task(&serialized).unwrap();

    assert_eq!(task.id(), deserialized.id());
    assert_eq!(task.status(), deserialized.status());
}

#[test]
fn test_task_display() {
    let task = Task::new("test_task".to_string(), vec![], 3);
    let display = task.display_string();
    assert!(display.contains("test_task"));
    assert!(display.contains(&uuid_string(task.id())));
}

#[test]
fn test_task_error_conversions() {
    let err = TaskError::NotFound("test".to_string());
    assert_eq!(err.message(), "Task not found: test");

    let err = TaskError::MaxRetriesExceeded;
    assert_eq!(err.message(), "Maximum retries exceeded");
}
