use kvstore::store::{Operation, OperationResult, Store};

#[test]
fn never_set_key_is_absent() {
    let store = Store::new();
    assert!(store.get(b"missing").is_none());
}

#[test]
fn other_keys_do_not_bind_a_key() {
    let mut store = Store::new();
    store.set(b"a".to_vec(), b"1".to_vec());
    store.set(b"b".to_vec(), b"2".to_vec());
    assert!(store.get(b"c").is_none());
}

#[test]
fn set_then_get_returns_value() {
    let mut store = Store::new();
    store.set(b"foo".to_vec(), b"bar".to_vec());
    assert_eq!(store.get(b"foo"), Some(b"bar".to_vec()));
}

#[test]
fn last_write_wins() {
    let mut store = Store::new();
    store.set(b"k".to_vec(), b"v1".to_vec());
    store.set(b"k".to_vec(), b"v2".to_vec());
    assert_eq!(store.get(b"k"), Some(b"v2".to_vec()));
}

#[test]
fn keys_are_independent() {
    let mut store = Store::new();
    store.set(b"a".to_vec(), b"1".to_vec());
    store.set(b"b".to_vec(), b"2".to_vec());
    store.set(b"a".to_vec(), b"3".to_vec());
    assert_eq!(store.get(b"a"), Some(b"3".to_vec()));
    assert_eq!(store.get(b"b"), Some(b"2".to_vec()));
}

#[test]
fn empty_value_differs_from_absent() {
    let mut store = Store::new();
    store.set(b"k".to_vec(), Vec::new());
    assert_eq!(store.get(b"k"), Some(Vec::new()));
    assert!(store.get(b"other").is_none());
}

#[test]
fn apply_get_reports_absence() {
    let mut store = Store::new();
    let r = store.apply(Operation::Get { key: b"nope".to_vec() });
    match r {
        OperationResult::GetResult { key, value } => {
            assert_eq!(key, b"nope".to_vec());
            assert!(value.is_none());
        }
        _ => panic!("expected a GET result"),
    }
}

#[test]
fn apply_put_acknowledges_and_binds() {
    let mut store = Store::new();
    let r = store.apply(Operation::Put { key: b"k".to_vec(), value: b"v".to_vec() });
    match r {
        OperationResult::PutResult { key } => assert_eq!(key, b"k".to_vec()),
        _ => panic!("expected a SET acknowledgment"),
    }
    assert_eq!(store.get(b"k"), Some(b"v".to_vec()));
}

#[test]
fn run_ops_replies_in_queue_order() {
    let mut store = Store::new();
    let ops = vec![
        Operation::Put { key: b"k".to_vec(), value: b"v1".to_vec() },
        Operation::Get { key: b"k".to_vec() },
        Operation::Put { key: b"k".to_vec(), value: b"v2".to_vec() },
        Operation::Get { key: b"k".to_vec() },
    ];
    let replies = store.run_ops(&ops);
    assert_eq!(replies.len(), 4);
    match &replies[1] {
        OperationResult::GetResult { key, value } => {
            assert_eq!(key, &b"k".to_vec());
            assert_eq!(value, &Some(b"v1".to_vec()));
        }
        _ => panic!("expected a GET result"),
    }
    match &replies[3] {
        OperationResult::GetResult { key, value } => {
            assert_eq!(key, &b"k".to_vec());
            assert_eq!(value, &Some(b"v2".to_vec()));
        }
        _ => panic!("expected a GET result"),
    }
}

#[test]
fn interleaved_connections_see_one_total_order() {
    // Two logical connections' operations, as they arrived in the engine's
    // single queue: the replies reflect exactly that arrival order.
    let mut store = Store::new();
    let ops = vec![
        Operation::Put { key: b"x".to_vec(), value: b"a".to_vec() },
        Operation::Put { key: b"x".to_vec(), value: b"b".to_vec() },
        Operation::Get { key: b"x".to_vec() },
    ];
    let replies = store.run_ops(&ops);
    match &replies[2] {
        OperationResult::GetResult { value, .. } => {
            assert_eq!(value, &Some(b"b".to_vec()));
        }
        _ => panic!("expected a GET result"),
    }
}
