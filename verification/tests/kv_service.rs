use raftkv::dedup::DedupQueue;
use raftkv::kv::{Kv, Op};
use raftkv::service::{next_peer, should_snapshot, waiter_decision, Error, Waiter};

fn get(kv: &mut Kv, id: u64, key: &str) -> String {
    kv.apply(id, Op::Get { key: key.to_string() })
}

#[test]
fn kv_round_trip() {
    let mut kv = Kv::default();
    assert_eq!(get(&mut kv, 1, "a"), "");
    kv.apply(2, Op::Put { key: "a".to_string(), value: "100".to_string() });
    assert_eq!(get(&mut kv, 3, "a"), "100");
    kv.apply(4, Op::Put { key: "a".to_string(), value: "200".to_string() });
    kv.apply(5, Op::Append { key: "a".to_string(), value: "300".to_string() });
    assert_eq!(get(&mut kv, 6, "a"), "200300");
}

#[test]
fn kv_duplicate_ids_apply_once() {
    let mut kv = Kv::default();
    kv.apply(7, Op::Put { key: "k".to_string(), value: "v".to_string() });
    // The retried Put with the same id must not re-run.
    kv.apply(7, Op::Put { key: "k".to_string(), value: "v".to_string() });
    assert_eq!(get(&mut kv, 8, "k"), "v");
    kv.apply(9, Op::Append { key: "k".to_string(), value: "w".to_string() });
    kv.apply(9, Op::Append { key: "k".to_string(), value: "w".to_string() });
    assert_eq!(get(&mut kv, 10, "k"), "vw");
}

#[test]
fn dedup_queue_is_bounded_fifo() {
    let mut q = DedupQueue::new();
    assert!(q.note(0));
    assert!(!q.note(0));
    for i in 1..=51u64 {
        assert!(q.note(i));
    }
    // Id 0 has been evicted by now and counts as fresh again.
    assert!(!q.contains(0));
    assert!(q.contains(51));
    assert!(q.note(0));
}

#[test]
fn waiter_delivery_rule() {
    let w = Waiter { index: 5, request_id: 77 };
    // The awaited slot applied our own request: deliver.
    assert_eq!(waiter_decision(&w, 5, 77), Some(true));
    // Another command won the slot: fail the call so the client retries.
    assert_eq!(waiter_decision(&w, 5, 78), Some(false));
    // A different slot does not concern this waiter.
    assert_eq!(waiter_decision(&w, 6, 77), None);
}

#[test]
fn snapshot_trigger_rule() {
    assert!(!should_snapshot(&None, 1_000_000));
    assert!(!should_snapshot(&Some(2000), 2000));
    assert!(should_snapshot(&Some(2000), 2001));
}

#[test]
fn clerk_retry_rule() {
    // A leader hint is followed when it names a peer.
    assert_eq!(next_peer(0, 3, &Error::NotLeader { hint: 2 }), 2);
    // A nonsense hint falls back to round-robin.
    assert_eq!(next_peer(0, 3, &Error::NotLeader { hint: 9 }), 1);
    assert_eq!(next_peer(2, 3, &Error::Timeout), 0);
    assert_eq!(next_peer(1, 3, &Error::Failed), 2);
    assert_eq!(next_peer(1, 3, &Error::WrongGroup), 2);
}
