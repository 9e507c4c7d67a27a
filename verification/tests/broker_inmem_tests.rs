use bg_coor::broker::MemoryBroker;
use bg_coor::task::Task;

#[test]
fn broker_inmem_tests_test_memory_broker() {
    let mut broker = MemoryBroker::new();
    let task = Task::new("test_task".to_string(), vec![], 3);

    // Test push
    broker.push(&task).unwrap();

    // Test get_task
    let retrieved = broker.get_task(task.id()).unwrap().unwrap();
    assert_eq!(retrieved.id(), task.id());

    // Test pop
    let popped = broker.pop().unwrap().unwrap();
    assert_eq!(popped.id(), task.id());

    // Test empty pop
    let empty = broker.pop().unwrap();
    assert!(empty.is_none());
}
