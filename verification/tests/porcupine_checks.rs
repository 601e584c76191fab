use raftkv::porcupine::checker::check_operations_budgeted;
use raftkv::porcupine::kv::{Entry, EntryValue, KvInput, KvModel, KvOp, KvOutput, Operation};
use raftkv::porcupine::utils::{EntryNode, LinkedEntries};
use raftkv::porcupine::{check_operation_verbose, check_operations, Error};

fn op(kind: KvOp, key: &str, value: &str, call: u128, out: &str, ret: u128) -> Operation {
    Operation {
        client_id: None,
        input: KvInput { op: kind, key: key.to_string(), value: value.to_string() },
        call,
        output: KvOutput { value: out.to_string() },
        ret,
    }
}

#[test]
fn sequential_history_is_linearizable() {
    let history = vec![
        op(KvOp::Put, "a", "1", 0, "", 1),
        op(KvOp::Get, "a", "", 2, "1", 3),
        op(KvOp::Append, "a", "2", 4, "", 5),
        op(KvOp::Get, "a", "", 6, "12", 7),
    ];
    assert!(check_operations(history).is_ok());
}

#[test]
fn concurrent_history_is_linearizable() {
    // The Get overlaps the Put and may be ordered before it.
    let history = vec![
        op(KvOp::Put, "a", "1", 0, "", 10),
        op(KvOp::Get, "a", "", 1, "", 2),
    ];
    assert!(check_operations(history).is_ok());
    // Or after it, if it saw the new value.
    let history2 = vec![
        op(KvOp::Put, "a", "1", 0, "", 10),
        op(KvOp::Get, "a", "", 1, "1", 2),
    ];
    assert!(check_operations(history2).is_ok());
}

#[test]
fn stale_read_is_illegal() {
    // The Get runs strictly after the Put finished, yet sees nothing.
    let history = vec![
        op(KvOp::Put, "a", "1", 0, "", 1),
        op(KvOp::Get, "a", "", 2, "", 3),
    ];
    match check_operations(history) {
        Err(Error::Illegal(_)) => {}
        _ => panic!("a stale read must be illegal"),
    }
}

#[test]
fn keys_are_checked_independently() {
    // Key "b" is fine; key "a" carries the violation.
    let history = vec![
        op(KvOp::Put, "b", "9", 0, "", 1),
        op(KvOp::Get, "b", "", 2, "9", 3),
        op(KvOp::Put, "a", "1", 0, "", 1),
        op(KvOp::Get, "a", "", 2, "7", 3),
    ];
    match check_operation_verbose(history) {
        Err(Error::Illegal(_)) => {}
        _ => panic!("the bad key must fail the whole history"),
    }
}

#[test]
fn exhausted_budget_reports_unknown() {
    let history = vec![op(KvOp::Put, "a", "1", 0, "", 1)];
    match check_operations_budgeted(history, 0) {
        Err(Error::Unknown) => {}
        _ => panic!("a zero budget cannot reach a verdict"),
    }
}

#[test]
fn empty_history_is_linearizable() {
    assert!(check_operations(Vec::new()).is_ok());
}

#[test]
fn model_steps_match_the_kv_semantics() {
    let m = KvModel::init();
    let put = KvInput { op: KvOp::Put, key: "k".to_string(), value: "ab".to_string() };
    let out = KvOutput { value: "".to_string() };
    let (ok, m2) = m.step(&put, &out);
    assert!(ok);
    assert_eq!(m2.state, "ab");
    let app = KvInput { op: KvOp::Append, key: "k".to_string(), value: "cd".to_string() };
    let (ok2, m3) = m2.step(&app, &out);
    assert!(ok2);
    assert_eq!(m3.state, "abcd");
    let get = KvInput { op: KvOp::Get, key: "k".to_string(), value: "".to_string() };
    let good = KvOutput { value: "abcd".to_string() };
    let bad = KvOutput { value: "ab".to_string() };
    assert!(m3.step(&get, &good).0);
    assert!(!m3.step(&get, &bad).0);
}

#[test]
fn partition_sorts_each_key() {
    let history = vec![
        op(KvOp::Put, "a", "1", 5, "", 9),
        op(KvOp::Get, "a", "", 0, "", 2),
        op(KvOp::Put, "b", "2", 3, "", 4),
    ];
    let groups = KvModel::partition(history);
    assert_eq!(groups.len(), 2);
    for g in &groups {
        for w in g.windows(2) {
            let earlier = (w[0].time, matches!(w[0].value, EntryValue::Return(_)) as u8);
            let later = (w[1].time, matches!(w[1].value, EntryValue::Return(_)) as u8);
            assert!(earlier <= later);
        }
    }
}

#[test]
fn working_list_lift_and_unlift() {
    let history = vec![
        Entry {
            value: EntryValue::Call(KvInput {
                op: KvOp::Put,
                key: "a".to_string(),
                value: "1".to_string(),
            }),
            id: 0,
            time: 0,
            client_id: None,
        },
        Entry {
            value: EntryValue::Return(KvOutput { value: "".to_string() }),
            id: 0,
            time: 1,
            client_id: None,
        },
    ];
    let mut list = LinkedEntries::from_entries(&history);
    assert!(!list.is_empty());
    let front = list.front().unwrap();
    assert_eq!(front, 0);
    let ret = EntryNode::matched(&list, front).unwrap();
    assert_eq!(ret, 1);
    let view = EntryNode::lift(&mut list, front, ret);
    assert!(list.is_empty());
    let back = view.unlift(&mut list);
    assert_eq!(back, 0);
    assert!(!list.is_empty());
    assert_eq!(EntryNode::next(&list, 0), Some(1));
    assert_eq!(EntryNode::next(&list, 1), None);
}
