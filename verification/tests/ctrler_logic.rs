use raftkv::ctrler::{Config, Op, ShardInfo, N_SHARDS};

fn group(gid: u64) -> (u64, Vec<String>) {
    (gid, vec![format!("node-{}-a", gid), format!("node-{}-b", gid)])
}

fn query(info: &mut ShardInfo, id: u64) -> Config {
    info.apply(id, Op::Query { num: u64::MAX }).unwrap()
}

fn counts(cfg: &Config, gid: u64) -> usize {
    cfg.shards.iter().filter(|&&g| g == gid).count()
}

#[test]
fn sharding_rebalance() {
    let mut info = ShardInfo::default();
    info.apply(1, Op::Join { groups: vec![group(100)] });
    info.apply(2, Op::Join { groups: vec![group(101)] });
    info.apply(3, Op::Join { groups: vec![group(102)] });
    let cfg = query(&mut info, 4);
    assert_eq!(cfg.num, 3);
    let mut sizes = vec![counts(&cfg, 100), counts(&cfg, 101), counts(&cfg, 102)];
    sizes.sort();
    assert_eq!(sizes, vec![3, 3, 4]);
    // Every shard belongs to one of the three groups.
    for s in 0..N_SHARDS {
        assert!([100, 101, 102].contains(&cfg.shards[s]));
    }
    // A manual move changes exactly one shard and nothing else.
    info.apply(5, Op::Move { shard: 0, gid: 102 });
    let cfg2 = query(&mut info, 6);
    assert_eq!(cfg2.num, 4);
    assert_eq!(cfg2.shards[0], 102);
    for s in 1..N_SHARDS {
        assert_eq!(cfg2.shards[s], cfg.shards[s]);
    }
}

#[test]
fn join_leave_stay_balanced() {
    let mut info = ShardInfo::default();
    info.apply(1, Op::Join { groups: vec![group(1), group(2), group(3)] });
    let cfg = query(&mut info, 2);
    let mut sizes = vec![counts(&cfg, 1), counts(&cfg, 2), counts(&cfg, 3)];
    sizes.sort();
    assert_eq!(sizes, vec![3, 3, 4]);
    info.apply(3, Op::Leave { gids: vec![1] });
    let cfg2 = query(&mut info, 4);
    assert_eq!(counts(&cfg2, 1), 0);
    let mut sizes2 = vec![counts(&cfg2, 2), counts(&cfg2, 3)];
    sizes2.sort();
    assert_eq!(sizes2, vec![5, 5]);
    // With every group gone the shards fall back to unassigned.
    info.apply(5, Op::Leave { gids: vec![2, 3] });
    let cfg3 = query(&mut info, 6);
    for s in 0..N_SHARDS {
        assert_eq!(cfg3.shards[s], 0);
    }
}

#[test]
fn first_configuration_is_empty() {
    let mut info = ShardInfo::default();
    let cfg = info.apply(1, Op::Query { num: 0 }).unwrap();
    assert_eq!(cfg.num, 0);
    assert_eq!(cfg.groups.len(), 0);
    for s in 0..N_SHARDS {
        assert_eq!(cfg.shards[s], 0);
    }
}

#[test]
fn query_clamps_to_newest() {
    let mut info = ShardInfo::default();
    info.apply(1, Op::Join { groups: vec![group(7)] });
    let newest = info.apply(2, Op::Query { num: 999 }).unwrap();
    assert_eq!(newest.num, 1);
    let at_one = info.apply(3, Op::Query { num: 1 }).unwrap();
    assert_eq!(at_one.num, 1);
    assert_eq!(at_one.shards, newest.shards);
}

#[test]
fn duplicate_join_is_suppressed() {
    let mut info = ShardInfo::default();
    info.apply(1, Op::Join { groups: vec![group(5)] });
    // The retry reuses the request id and must not append again.
    info.apply(1, Op::Join { groups: vec![group(6)] });
    let cfg = query(&mut info, 2);
    assert_eq!(cfg.num, 1);
    assert_eq!(counts(&cfg, 5), N_SHARDS);
    assert_eq!(counts(&cfg, 6), 0);
}

#[test]
fn join_updates_peer_addresses() {
    let mut info = ShardInfo::default();
    info.apply(1, Op::Join { groups: vec![(9, vec!["old".to_string()])] });
    info.apply(2, Op::Join { groups: vec![(9, vec!["new".to_string()])] });
    let cfg = query(&mut info, 3);
    assert_eq!(cfg.groups.len(), 1);
    assert_eq!(cfg.groups[0].0, 9);
    assert_eq!(cfg.groups[0].1, vec!["new".to_string()]);
}

#[test]
fn move_with_bad_shard_changes_nothing() {
    let mut info = ShardInfo::default();
    info.apply(1, Op::Join { groups: vec![group(3)] });
    info.apply(2, Op::Move { shard: N_SHARDS, gid: 3 });
    let cfg = query(&mut info, 3);
    assert_eq!(cfg.num, 1);
}

#[test]
fn rebalance_moves_few_shards() {
    let mut info = ShardInfo::default();
    info.apply(1, Op::Join { groups: vec![group(1)] });
    let before = query(&mut info, 2);
    info.apply(3, Op::Join { groups: vec![group(2)] });
    let after = query(&mut info, 4);
    // The incumbent keeps exactly its quota; only the surplus moves.
    assert_eq!(counts(&after, 1), 5);
    assert_eq!(counts(&after, 2), 5);
    let moved = (0..N_SHARDS).filter(|&s| before.shards[s] != after.shards[s]).count();
    assert_eq!(moved, 5);
}
