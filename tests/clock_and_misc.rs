use contrasleuth::clock::{Advance, Clock, MockTime, TrueTime};
use contrasleuth::pending::PendingOperations;
use contrasleuth::task_id::TaskId;

#[test]
fn mock_time_advances_and_wakes() {
    let mut clock = MockTime::new();
    assert_eq!(clock.timestamp(), 0);
    assert!(!clock.poll_wait(1000));
    clock.advance(999);
    assert!(!clock.poll_wait(1000));
    clock.advance(1);
    assert_eq!(clock.timestamp(), 1000);
    assert!(clock.poll_wait(1000));
    assert_eq!(clock.wake_up_time, 1000);
    assert!(!clock.poll_wait(1000));
}

#[test]
fn true_time_is_after_2020() {
    let clock = TrueTime {};
    assert!(clock.timestamp() > 1_577_836_800);
}

#[test]
fn task_ids_print_as_decimal() {
    assert_eq!(TaskId(42).to_string(), "42".to_string());
    let a = TaskId::generate();
    let b = TaskId::generate();
    assert_ne!(a, b);
}

#[test]
fn pending_operations_are_keyed_by_id() {
    let mut pending = PendingOperations::new();
    assert!(pending.insert("op1".to_string(), "data1".to_string()));
    assert!(!pending.insert("op1".to_string(), "other".to_string()));
    assert!(pending.insert("op2".to_string(), "data2".to_string()));
    let dump = pending.dump();
    assert_eq!(dump.len(), 2);
    assert_eq!(dump[0].associated_frontend_data, "data1".to_string());
    pending.remove(&"op1".to_string());
    let dump = pending.dump();
    assert_eq!(dump.len(), 1);
    assert_eq!(dump[0].operation_id, "op2".to_string());
}
