use raftkv::ctrler::{Config, Op as CtrlOp, ShardInfo, N_SHARDS};
use raftkv::kv::Op;
use raftkv::shardkv::{key2shard, Cmd, Reply, ShardKv};
use raftkv::strmap::StrMap;

fn get(store: &mut ShardKv, id: u64, key: &str) -> Reply {
    store.apply(id, Cmd::Client { op: Op::Get { key: key.to_string() } })
}

fn put(store: &mut ShardKv, id: u64, key: &str, value: &str) -> Reply {
    store.apply(
        id,
        Cmd::Client { op: Op::Put { key: key.to_string(), value: value.to_string() } },
    )
}

fn append(store: &mut ShardKv, id: u64, key: &str, value: &str) -> Reply {
    store.apply(
        id,
        Cmd::Client { op: Op::Append { key: key.to_string(), value: value.to_string() } },
    )
}

fn got(r: Reply) -> Option<String> {
    match r {
        Reply::Get { value } => value,
        _ => panic!("expected a Get answer"),
    }
}

/// Query the controller's newest configuration.
fn newest(info: &mut ShardInfo, id: u64) -> Config {
    info.apply(id, CtrlOp::Query { num: u64::MAX }).unwrap()
}

/// Hand every shard leaving `from` under `next` over to `to`.
fn migrate(from: &mut ShardKv, to: &mut ShardKv, next: &Config) {
    let cfg_num = next.num - 1;
    for s in 0..N_SHARDS {
        if next.shards[s] == to.gid {
            if let Some(m) = &from.shards[s] {
                let r = to.apply(0, Cmd::PutShard { cfg_num, shard: s, kv: m.duplicate() });
                assert!(matches!(r, Reply::Done));
                let r2 = from.apply(0, Cmd::DelShard { cfg_num, shard: s });
                assert!(matches!(r2, Reply::Done));
            }
        }
    }
}

#[test]
fn key_to_shard_is_first_byte() {
    assert_eq!(key2shard(&"a".to_string()), 97 % N_SHARDS);
    assert_eq!(key2shard(&"b".to_string()), 98 % N_SHARDS);
    assert_eq!(key2shard(&"".to_string()), 0);
    assert_eq!(key2shard(&"a".to_string()), key2shard(&"apple".to_string()));
    // A key outside ASCII is placed by its first UTF-8 byte.
    let accented = "\u{e9}".to_string();
    assert_eq!(accented.as_bytes()[0], 0xC3);
    assert_eq!(key2shard(&accented), 0xC3 % N_SHARDS);
}

#[test]
fn round_trip_put_get_append() {
    let mut info = ShardInfo::default();
    info.apply(1, CtrlOp::Join { groups: vec![(1, vec!["n1".to_string()])] });
    let cfg1 = newest(&mut info, 2);
    let mut store = ShardKv::new(1);
    assert!(matches!(store.apply(0, Cmd::CfgChange { cfg: cfg1 }), Reply::Done));
    assert!(matches!(put(&mut store, 10, "k", "v1"), Reply::Done));
    assert_eq!(got(get(&mut store, 11, "k")), Some("v1".to_string()));
    assert!(matches!(append(&mut store, 12, "k", "v2"), Reply::Done));
    assert_eq!(got(get(&mut store, 13, "k")), Some("v1v2".to_string()));
    assert_eq!(got(get(&mut store, 14, "missing")), None);
}

#[test]
fn duplicate_request_id_mutates_once() {
    let mut info = ShardInfo::default();
    info.apply(1, CtrlOp::Join { groups: vec![(1, vec!["n1".to_string()])] });
    let cfg1 = newest(&mut info, 2);
    let mut store = ShardKv::new(1);
    store.apply(0, Cmd::CfgChange { cfg: cfg1 });
    // The same Append retried under its request id lands once.
    assert!(matches!(append(&mut store, 42, "k", "x"), Reply::Done));
    assert!(matches!(append(&mut store, 42, "k", "x"), Reply::Done));
    assert_eq!(got(get(&mut store, 43, "k")), Some("x".to_string()));
    // A Put retry is also suppressed.
    assert!(matches!(put(&mut store, 44, "k", "y"), Reply::Done));
    assert!(matches!(put(&mut store, 44, "k", "z"), Reply::Done));
    assert_eq!(got(get(&mut store, 45, "k")), Some("y".to_string()));
}

#[test]
fn only_owner_serves_a_key() {
    let mut info = ShardInfo::default();
    info.apply(
        1,
        CtrlOp::Join {
            groups: vec![(1, vec!["n1".to_string()]), (2, vec!["n2".to_string()])],
        },
    );
    let cfg = newest(&mut info, 2);
    let mut a = ShardKv::new(1);
    let mut b = ShardKv::new(2);
    a.apply(0, Cmd::CfgChange { cfg: cfg.duplicate() });
    b.apply(0, Cmd::CfgChange { cfg: cfg.duplicate() });
    let key = "q".to_string();
    let shard = key2shard(&key);
    let owner_is_a = cfg.shards[shard] == 1;
    let ra = put(&mut a, 5, "q", "v");
    let rb = put(&mut b, 5, "q", "v");
    if owner_is_a {
        assert!(matches!(ra, Reply::Done));
        assert!(matches!(rb, Reply::WrongGroup));
    } else {
        assert!(matches!(ra, Reply::WrongGroup));
        assert!(matches!(rb, Reply::Done));
    }
}

#[test]
fn cross_group_migration_keeps_values() {
    let mut info = ShardInfo::default();
    info.apply(1, CtrlOp::Join { groups: vec![(1, vec!["n1".to_string()])] });
    let cfg1 = newest(&mut info, 2);
    let mut a = ShardKv::new(1);
    let mut b = ShardKv::new(2);
    a.apply(0, Cmd::CfgChange { cfg: cfg1.duplicate() });
    b.apply(0, Cmd::CfgChange { cfg: cfg1.duplicate() });
    // Group 1 owns everything; write ten keys.
    let keys: Vec<String> = (0..10).map(|i| format!("k{}", i)).collect();
    for (i, k) in keys.iter().enumerate() {
        let r = a.apply(100 + i as u64, Cmd::Client {
            op: Op::Put { key: k.clone(), value: format!("v{}", i) },
        });
        assert!(matches!(r, Reply::Done));
    }
    // Group 2 joins; shards rebalance and half the data moves.
    info.apply(3, CtrlOp::Join { groups: vec![(2, vec!["n2".to_string()])] });
    let cfg2 = newest(&mut info, 4);
    assert!(matches!(a.apply(0, Cmd::CfgChange { cfg: cfg2.duplicate() }), Reply::Done));
    assert!(matches!(b.apply(0, Cmd::CfgChange { cfg: cfg2.duplicate() }), Reply::Done));
    migrate(&mut a, &mut b, &cfg2);
    assert!(a.next_cfg.is_none());
    assert!(b.next_cfg.is_none());
    // Every key reads its original value from exactly one group.
    for (i, k) in keys.iter().enumerate() {
        let shard = key2shard(k);
        let expect = Some(format!("v{}", i));
        if cfg2.shards[shard] == 1 {
            assert_eq!(got(get(&mut a, 200 + i as u64, k)), expect);
            assert!(matches!(get(&mut b, 300 + i as u64, k), Reply::WrongGroup));
        } else {
            assert_eq!(got(get(&mut b, 200 + i as u64, k)), expect);
            assert!(matches!(get(&mut a, 300 + i as u64, k), Reply::WrongGroup));
        }
    }
    // Group 1 leaves; everything moves to group 2.
    info.apply(5, CtrlOp::Leave { gids: vec![1] });
    let cfg3 = newest(&mut info, 6);
    assert!(matches!(a.apply(0, Cmd::CfgChange { cfg: cfg3.duplicate() }), Reply::Done));
    assert!(matches!(b.apply(0, Cmd::CfgChange { cfg: cfg3.duplicate() }), Reply::Done));
    migrate(&mut a, &mut b, &cfg3);
    assert!(b.next_cfg.is_none());
    for (i, k) in keys.iter().enumerate() {
        assert_eq!(got(get(&mut b, 400 + i as u64, k)), Some(format!("v{}", i)));
    }
}

#[test]
fn migration_commands_guarded_by_config_number() {
    let mut info = ShardInfo::default();
    info.apply(1, CtrlOp::Join { groups: vec![(1, vec!["n1".to_string()])] });
    let cfg1 = newest(&mut info, 2);
    let mut store = ShardKv::new(1);
    store.apply(0, Cmd::CfgChange { cfg: cfg1 });
    // No change is in flight: a hand-over for the current number is
    // refused, one for an old number is already settled.
    let r = store.apply(0, Cmd::PutShard { cfg_num: 1, shard: 0, kv: StrMap::new() });
    assert!(matches!(r, Reply::WrongCfg));
    let r2 = store.apply(0, Cmd::PutShard { cfg_num: 0, shard: 0, kv: StrMap::new() });
    assert!(matches!(r2, Reply::Done));
    // A configuration that skips a number is refused.
    let mut skipped = newest(&mut info, 3);
    skipped.num = 5;
    assert!(matches!(store.apply(0, Cmd::CfgChange { cfg: skipped }), Reply::WrongCfg));
}

#[test]
fn serving_during_migration_follows_the_rule() {
    let mut info = ShardInfo::default();
    info.apply(1, CtrlOp::Join { groups: vec![(1, vec!["n1".to_string()])] });
    info.apply(2, CtrlOp::Join { groups: vec![(2, vec!["n2".to_string()])] });
    let cfg1 = info.apply(3, CtrlOp::Query { num: 1 }).unwrap();
    let cfg2 = info.apply(4, CtrlOp::Query { num: 2 }).unwrap();
    let mut b = ShardKv::new(2);
    b.apply(0, Cmd::CfgChange { cfg: cfg1.duplicate() });
    b.apply(0, Cmd::CfgChange { cfg: cfg2.duplicate() });
    // Mid-change, a shard owned under the successor but not yet
    // received is not served.
    let incoming = (0..N_SHARDS)
        .find(|&s| cfg1.shards[s] == 1 && cfg2.shards[s] == 2)
        .unwrap();
    assert!(!b.can_serve(incoming));
    let kv = StrMap::new();
    assert!(matches!(
        b.apply(0, Cmd::PutShard { cfg_num: 1, shard: incoming, kv }),
        Reply::Done
    ));
    assert!(b.can_serve(incoming));
}

#[test]
fn hand_over_guards_check_only_number_and_flight() {
    let mut info = ShardInfo::default();
    info.apply(1, CtrlOp::Join { groups: vec![(1, vec!["n1".to_string()])] });
    info.apply(2, CtrlOp::Join { groups: vec![(2, vec!["n2".to_string()])] });
    let cfg1 = info.apply(3, CtrlOp::Query { num: 1 }).unwrap();
    let cfg2 = info.apply(4, CtrlOp::Query { num: 2 }).unwrap();
    let mut a = ShardKv::new(1);
    a.apply(0, Cmd::CfgChange { cfg: cfg1.duplicate() });
    // Write into a shard the group keeps under the successor.
    let kept = (0..N_SHARDS)
        .find(|&s| cfg1.shards[s] == 1 && cfg2.shards[s] == 1)
        .unwrap();
    let key: String = char::from(b'a' + ((kept + 10 - (97 % N_SHARDS)) % 10) as u8).to_string();
    assert_eq!(key2shard(&key), kept);
    assert!(matches!(put(&mut a, 7, &key, "v"), Reply::Done));
    a.apply(0, Cmd::CfgChange { cfg: cfg2.duplicate() });
    // Mid-change, a hand-over command is judged by its configuration
    // number and the flight alone: dropping even a kept shard is valid.
    assert!(matches!(a.apply(0, Cmd::DelShard { cfg_num: 1, shard: kept }), Reply::Done));
    // The group still owns the key but no longer holds its data: it
    // answers WrongGroup until the data is handed back.
    assert!(matches!(get(&mut a, 8, &key), Reply::WrongGroup));
    assert!(matches!(
        a.apply(0, Cmd::PutShard { cfg_num: 1, shard: kept, kv: StrMap::new() }),
        Reply::Done
    ));
    assert!(matches!(got(get(&mut a, 9, &key)), None));
}
