use bg_coor::codec::{
    deserialize_task, parse_signature, parse_uuid_string, serialize_task, uuid_string,
};
use bg_coor::error::TaskError;
use bg_coor::json::JValue;
use bg_coor::pool::{worker_step, WorkerAction, WorkerEvent};
use bg_coor::timestamp::{parse_timestamp_string, timestamp_string};
use bg_coor::task::{Task, TaskSignature, TaskStatus};

/// P7: serializing a task and reading it back yields an equal task, field
/// by field.
#[test]
fn task_round_trip() {
    let mut task = Task::new("résumé \"quoted\" \\slash".to_string(), vec![0, 1, 127, 255], 7);
    task.set_status(TaskStatus::Failed("boom 🜁 high".to_string()));
    task.set_result(vec![9, 8, 7]);

    let bytes = serialize_task(&task);
    let back = deserialize_task(&bytes).unwrap();

    assert_eq!(back.id(), task.id());
    assert_eq!(back.name(), task.name());
    assert_eq!(back.payload(), task.payload());
    assert_eq!(back.status(), task.status());
    assert_eq!(back.created_at(), task.created_at());
    assert_eq!(back.retries(), task.retries());
    assert_eq!(back.max_retries(), task.max_retries());
    assert_eq!(back.get_result().unwrap(), task.get_result().unwrap());
}

#[test]
fn task_round_trip_plain() {
    let task = Task::new("plain".to_string(), Vec::new(), 0);
    let bytes = serialize_task(&task);
    let back = deserialize_task(&bytes).unwrap();
    assert_eq!(back, task);
}

#[test]
fn task_wire_shape() {
    let task = Task::new("t".to_string(), vec![1, 2], 0);
    let text = String::from_utf8(serialize_task(&task)).unwrap();
    assert!(text.starts_with("{\"id\":\""));
    assert!(text.contains("\"name\":\"t\""));
    assert!(text.contains("\"payload\":[1,2]"));
    assert!(text.contains("\"status\":\"Pending\""));
    assert!(text.contains("\"result\":null"));
    assert!(text.ends_with("}"));
}

#[test]
fn failed_status_wire_shape() {
    let mut task = Task::new("t".to_string(), Vec::new(), 0);
    task.set_status(TaskStatus::Failed("why".to_string()));
    let text = String::from_utf8(serialize_task(&task)).unwrap();
    assert!(text.contains("\"status\":{\"Failed\":\"why\"}"));
}

#[test]
fn uuid_round_trip() {
    let id: u128 = 0x0123456789abcdef0011223344556677;
    let s = uuid_string(id);
    assert_eq!(s, "01234567-89ab-cdef-0011-223344556677");
    assert_eq!(parse_uuid_string(&s), Some(id));
    assert_eq!(parse_uuid_string("not-a-uuid"), None);
}

#[test]
fn signature_round_trip() {
    let sig = TaskSignature::new(
        "job".to_string(),
        vec![
            JValue::Int(5),
            JValue::Int(-17),
            JValue::Bool(true),
            JValue::Null,
            JValue::Str("hé \"q\" \\ 🜁".to_string()),
            JValue::Arr(vec![JValue::Int(1), JValue::Str("x".to_string())]),
        ],
        vec![
            ("alpha".to_string(), JValue::Int(1)),
            ("beta".to_string(), JValue::Obj(vec![("inner".to_string(), JValue::Bool(false))])),
        ],
    );
    let bytes = sig.to_bytes();
    let back = parse_signature(&bytes).unwrap();
    assert_eq!(back.name, sig.name);
    assert_eq!(back.args, sig.args);
    assert_eq!(back.kwargs, sig.kwargs);
}

#[test]
fn signature_wire_shape() {
    let sig = TaskSignature::new(
        "add".to_string(),
        vec![JValue::Int(5), JValue::Int(3)],
        Vec::new(),
    );
    let text = String::from_utf8(sig.to_bytes()).unwrap();
    assert_eq!(text, "{\"name\":\"add\",\"args\":[5,3],\"kwargs\":{}}");
}

#[test]
fn signature_rejects_junk() {
    assert!(parse_signature(&Vec::new()).is_err());
    assert!(parse_signature(&b"{\"name\":3}".to_vec()).is_err());
    assert!(parse_signature(&b"{\"name\":\"x\",\"args\":[1.5],\"kwargs\":{}}".to_vec()).is_err());
}

#[test]
fn error_messages() {
    assert_eq!(
        TaskError::ExecutionError("e".to_string()).message(),
        "Task execution failed: e"
    );
    assert_eq!(
        TaskError::SerializationError("s".to_string()).message(),
        "Task serialization failed: s"
    );
    assert_eq!(TaskError::NotFound("n".to_string()).message(), "Task not found: n");
    assert_eq!(TaskError::MaxRetriesExceeded.message(), "Maximum retries exceeded");
    assert_eq!(
        TaskError::ValidationError("v".to_string()).message(),
        "Task validation failed: v"
    );
    assert_eq!(
        TaskError::HandlerNotFound("h".to_string()).message(),
        "Task handler not found: h"
    );
    assert_eq!(TaskError::InvalidSignature.message(), "Invalid task signature");
    assert_eq!(
        TaskError::RegistryLocked("r".to_string()).message(),
        "Task registry is locked: r"
    );
    assert_eq!(
        TaskError::ShutdownError("d".to_string()).message(),
        "Shutdown error: d"
    );
    assert_eq!(
        TaskError::InvalidArgument("a".to_string()).message(),
        "Invalid argument: a"
    );
    assert_eq!(TaskError::Other("o".to_string()).message(), "Other error: o");
}

#[test]
fn worker_step_decisions() {
    assert!(matches!(worker_step(WorkerEvent::Shutdown), WorkerAction::Exit));
    assert!(matches!(worker_step(WorkerEvent::Empty), WorkerAction::Sleep));
    assert!(matches!(
        worker_step(WorkerEvent::PopFailed(TaskError::Other("x".to_string()))),
        WorkerAction::Continue
    ));
    let t = Task::new("n".to_string(), Vec::new(), 0);
    let id = t.id();
    match worker_step(WorkerEvent::Popped(t)) {
        WorkerAction::Execute(t2) => assert_eq!(t2.id(), id),
        _ => panic!("expected Execute"),
    }
}

#[test]
fn timestamp_round_trip() {
    assert_eq!(timestamp_string(0), "1970-01-01T00:00:00.000Z");
    assert_eq!(timestamp_string(1700000000123), "2023-11-14T22:13:20.123Z");
    assert_eq!(timestamp_string(951782400000), "2000-02-29T00:00:00.000Z");
    assert_eq!(timestamp_string(253402300799999), "9999-12-31T23:59:59.999Z");
    assert_eq!(parse_timestamp_string("1970-01-01T00:00:00.000Z"), Some(0));
    assert_eq!(
        parse_timestamp_string("2023-11-14T22:13:20.123Z"),
        Some(1700000000123)
    );
    assert_eq!(
        parse_timestamp_string("9999-12-31T23:59:59.999Z"),
        Some(253402300799999)
    );
    assert_eq!(parse_timestamp_string("not a timestamp, not 24ch"), None);
}

#[test]
fn created_at_wire_shape() {
    let task = Task::new("t".to_string(), Vec::new(), 0);
    let text = String::from_utf8(serialize_task(&task)).unwrap();
    let ts = timestamp_string(task.created_at());
    let field = format!("\"created_at\":\"{}\"", ts);
    assert!(text.contains(&field));
    assert!(ts.ends_with("Z"));
    assert_eq!(ts.len(), 24);
}
