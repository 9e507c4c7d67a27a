use bg_coor::storage::MemoryStorage;
use bg_coor::task::{Task, TaskStatus};

#[test]
fn inmem_tests_test_memory_storage() {
    let mut storage = MemoryStorage::new();
    let task = Task::new("test".to_string(), vec![1, 2, 3], 3);

    // Test store and load
    storage.store_task(&task).unwrap();
    let loaded = storage.load_task(task.id()).unwrap().unwrap();
    assert_eq!(loaded.id(), task.id());

    // Test update
    let mut updated = task.clone();
    updated.set_status(TaskStatus::Running);
    storage.update_task(&updated).unwrap();
    let loaded = storage.load_task(task.id()).unwrap().unwrap();
    assert_eq!(loaded.status(), &TaskStatus::Running);

    // Test list
    let tasks = storage.list_tasks().unwrap();
    assert_eq!(tasks.len(), 1);

    // Test delete
    storage.delete_task(task.id()).unwrap();
    assert!(storage.load_task(task.id()).unwrap().is_none());
}
