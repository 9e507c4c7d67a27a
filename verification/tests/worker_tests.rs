use bg_coor::broker::MemoryBroker;
use bg_coor::error::TaskError;
use bg_coor::executor::{begin_attempt, execute_task, finish_attempt};
use bg_coor::json::JValue;
use bg_coor::manager::{is_finished, TaskManager};
use bg_coor::registry::TaskRegistry;
use bg_coor::storage::MemoryStorage;
use bg_coor::task::{Task, TaskSignature, TaskStatus};

type Handler = fn(&TaskSignature) -> Result<Vec<u8>, TaskError>;

fn test_handler(_sig: &TaskSignature) -> Result<Vec<u8>, TaskError> {
    Ok("It works!".as_bytes().to_vec())
}

fn add_handler(sig: &TaskSignature) -> Result<Vec<u8>, TaskError> {
    let a = match &sig.args[0] {
        JValue::Int(n) => *n,
        _ => return Err(TaskError::ValidationError("bad arg".to_string())),
    };
    let b = match &sig.args[1] {
        JValue::Int(n) => *n,
        _ => return Err(TaskError::ValidationError("bad arg".to_string())),
    };
    Ok((a + b).to_string().into_bytes())
}

fn bad_handler(_sig: &TaskSignature) -> Result<Vec<u8>, TaskError> {
    Err(TaskError::ExecutionError("nope".to_string()))
}

#[test]
fn test_task_registry() {
    let mut registry: TaskRegistry<Handler> = TaskRegistry::new();
    registry.register("test_task", test_handler);

    let handler = registry.get("test_task");
    assert!(handler.is_some());

    let nonexistent = registry.get("nonexistent");
    assert!(nonexistent.is_none());
}

/// S1: a working handler completes the task with the sum's decimal bytes.
#[test]
fn happy_path_add() {
    let mut manager: TaskManager<Handler> = TaskManager::builder(4).build();
    manager.register_handler("add", add_handler).unwrap();

    let sig = TaskSignature::new(
        "add".to_string(),
        vec![JValue::Int(5), JValue::Int(3)],
        Vec::new(),
    );
    let id = manager.enqueue_task(sig, 3).unwrap();

    // one worker turn: pop and execute
    let mut task = manager.broker.pop().unwrap().unwrap();
    let r = execute_task(
        &mut manager.broker,
        &mut manager.storage,
        &manager.registry,
        &mut task,
    );
    assert!(r.is_ok());

    let stored = manager.get_task(id).unwrap().unwrap();
    assert!(is_finished(&stored));
    assert_eq!(stored.status(), &TaskStatus::Completed);
    assert_eq!(stored.get_result().unwrap().as_slice(), b"8");
}

/// S2: a handler that fails twice and then succeeds completes the task
/// with two retries used.
#[test]
fn retry_then_succeed() {
    let mut broker = MemoryBroker::new();
    let mut storage = MemoryStorage::new();
    let mut registry: TaskRegistry<Handler> = TaskRegistry::new();
    registry.register("flaky", test_handler);

    let sig = TaskSignature::new("flaky".to_string(), Vec::new(), Vec::new());
    let task = Task::new("flaky".to_string(), sig.to_bytes(), 3);
    let id = task.id();
    broker.push(&task).unwrap();

    let mut attempt: u32 = 0;
    loop {
        let popped = broker.pop().unwrap();
        let mut t = match popped {
            Some(t) => t,
            None => break,
        };
        let begun = begin_attempt(&mut storage, &registry, &mut t);
        assert!(begun.is_ok());
        let outcome: Result<Vec<u8>, TaskError> = if attempt < 2 {
            Err(TaskError::ExecutionError("flaky failure".to_string()))
        } else {
            Ok(b"ok".to_vec())
        };
        attempt += 1;
        let _ = finish_attempt(&mut broker, &mut storage, &mut t, outcome);
        if is_finished(&t) {
            break;
        }
    }

    let stored = storage.load_task(id).unwrap().unwrap();
    assert_eq!(stored.status(), &TaskStatus::Completed);
    assert_eq!(stored.retries(), 2);
    assert_eq!(stored.get_result().unwrap().as_slice(), b"ok");
}

/// S3: a handler that always fails exhausts its retries and the stored
/// record carries the execution error's message.
#[test]
fn retries_exhausted() {
    let mut broker = MemoryBroker::new();
    let mut storage = MemoryStorage::new();
    let mut registry: TaskRegistry<Handler> = TaskRegistry::new();
    registry.register("bad", bad_handler);

    let sig = TaskSignature::new("bad".to_string(), Vec::new(), Vec::new());
    let task = Task::new("bad".to_string(), sig.to_bytes(), 1);
    let id = task.id();
    broker.push(&task).unwrap();

    let mut turns: u32 = 0;
    while let Some(mut t) = broker.pop().unwrap() {
        let _ = execute_task(&mut broker, &mut storage, &registry, &mut t);
        turns += 1;
        assert!(turns <= 10);
    }

    let stored = storage.load_task(id).unwrap().unwrap();
    assert_eq!(
        stored.status(),
        &TaskStatus::Failed("Task execution failed: nope".to_string())
    );
    assert_eq!(stored.retries(), 1);
}

/// S4: a task whose name has no handler is failed for good, with the name
/// in the recorded reason, and retry does not apply.
#[test]
fn unknown_handler() {
    let mut broker = MemoryBroker::new();
    let mut storage = MemoryStorage::new();
    let registry: TaskRegistry<Handler> = TaskRegistry::new();

    let sig = TaskSignature::new("missing".to_string(), Vec::new(), Vec::new());
    let task = Task::new("missing".to_string(), sig.to_bytes(), 3);
    let id = task.id();
    broker.push(&task).unwrap();

    let mut t = broker.pop().unwrap().unwrap();
    let r = execute_task(&mut broker, &mut storage, &registry, &mut t);
    assert!(matches!(r, Err(TaskError::HandlerNotFound(_))));

    let stored = storage.load_task(id).unwrap().unwrap();
    match stored.status() {
        TaskStatus::Failed(msg) => assert!(msg.contains("missing")),
        other => panic!("expected Failed, got {:?}", other),
    }
    // the queue stays empty: no retry for a missing handler
    assert!(broker.pop().unwrap().is_none());
}

/// P5: an error in one task's handler does not affect a later task under a
/// working handler.
#[test]
fn handler_isolation() {
    let mut broker = MemoryBroker::new();
    let mut storage = MemoryStorage::new();
    let mut registry: TaskRegistry<Handler> = TaskRegistry::new();
    registry.register("bad", bad_handler);
    registry.register("good", test_handler);

    let sig_a = TaskSignature::new("bad".to_string(), Vec::new(), Vec::new());
    let task_a = Task::new("bad".to_string(), sig_a.to_bytes(), 0);
    let id_a = task_a.id();
    broker.push(&task_a).unwrap();

    let sig_b = TaskSignature::new("good".to_string(), Vec::new(), Vec::new());
    let task_b = Task::new("good".to_string(), sig_b.to_bytes(), 0);
    let id_b = task_b.id();
    broker.push(&task_b).unwrap();

    while let Some(mut t) = broker.pop().unwrap() {
        let _ = execute_task(&mut broker, &mut storage, &registry, &mut t);
    }

    let stored_a = storage.load_task(id_a).unwrap().unwrap();
    assert!(matches!(stored_a.status(), TaskStatus::Failed(_)));
    let stored_b = storage.load_task(id_b).unwrap().unwrap();
    assert_eq!(stored_b.status(), &TaskStatus::Completed);
    assert_eq!(stored_b.get_result().unwrap().as_slice(), b"It works!");
}

/// A signature whose name disagrees with the task's is rejected before the
/// handler runs.
#[test]
fn mismatched_signature() {
    let mut broker = MemoryBroker::new();
    let mut storage = MemoryStorage::new();
    let mut registry: TaskRegistry<Handler> = TaskRegistry::new();
    registry.register("alpha", test_handler);

    let sig = TaskSignature::new("beta".to_string(), Vec::new(), Vec::new());
    let task = Task::new("alpha".to_string(), sig.to_bytes(), 3);
    let id = task.id();
    broker.push(&task).unwrap();

    let mut t = broker.pop().unwrap().unwrap();
    let r = execute_task(&mut broker, &mut storage, &registry, &mut t);
    assert!(matches!(r, Err(TaskError::InvalidSignature)));

    let stored = storage.load_task(id).unwrap().unwrap();
    assert_eq!(
        stored.status(),
        &TaskStatus::Failed("Invalid task signature".to_string())
    );
}

/// P1: each enqueue returns a fresh identifier; a run of enqueues yields
/// pairwise distinct identifiers.
#[test]
fn enqueue_ids_distinct() {
    let mut manager: TaskManager<Handler> = TaskManager::builder(1).build();
    let mut ids = Vec::new();
    for _ in 0..16 {
        let sig = TaskSignature::new("noop".to_string(), Vec::new(), Vec::new());
        ids.push(manager.enqueue_task(sig, 0).unwrap());
    }
    for i in 0..ids.len() {
        for j in (i + 1)..ids.len() {
            assert_ne!(ids[i], ids[j]);
        }
    }
}
