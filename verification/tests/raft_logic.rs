use raftkv::kv::{Kv, Op};
use raftkv::persist::{decode_state, encode_state};
use raftkv::raft::{
    election_timeout_from, ApplyMsg, Raft, RequestVoteArgs, Role, ELECTION_TIMEOUT_MAX,
    ELECTION_TIMEOUT_MIN,
};

fn make_cluster(n: usize) -> Vec<Raft> {
    (0..n).map(|me| Raft::new(n, me)).collect()
}

fn count_leaders(peers: &Vec<Raft>) -> usize {
    peers.iter().filter(|p| p.is_leader()).count()
}

/// Run one election for `cand`, letting every peer outside `isolated` vote.
fn elect(peers: &mut Vec<Raft>, cand: usize, isolated: &[usize]) {
    peers[cand].become_candidate();
    let args = peers[cand].request_vote_args();
    let (term, candidate_id, last_log_index, last_log_term) =
        (args.term, args.candidate_id, args.last_log_index, args.last_log_term);
    for i in 0..peers.len() {
        if i == cand || isolated.contains(&i) {
            continue;
        }
        let reply = peers[i].handle_request_vote(RequestVoteArgs {
            term,
            candidate_id,
            last_log_index,
            last_log_term,
        });
        peers[cand].handle_request_vote_reply(i, reply);
    }
}

/// One round of AppendEntries / InstallSnapshot from the leader to every
/// peer outside `isolated`.
fn replicate_round(peers: &mut Vec<Raft>, leader: usize, isolated: &[usize]) {
    for i in 0..peers.len() {
        if i == leader || isolated.contains(&i) {
            continue;
        }
        match peers[leader].append_entries_args(i) {
            Some(args) => {
                let prev = args.prev_log_index;
                let n_entries = args.entries.len() as u64;
                let reply = peers[i].handle_append_entries(args);
                peers[leader].handle_append_entries_reply(i, prev, n_entries, reply);
            }
            None => {
                let args = peers[leader].install_snapshot_args();
                let sent = args.last_included_index;
                let reply = peers[i].handle_install_snapshot(args);
                peers[leader].handle_install_snapshot_reply(i, sent, reply);
            }
        }
    }
}

/// Pull every pending apply message from one peer, acknowledging
/// snapshots as a service would.
fn drain(peer: &mut Raft) -> Vec<ApplyMsg> {
    let mut out = Vec::new();
    loop {
        match peer.next_apply() {
            Some(msg) => {
                if let ApplyMsg::Snapshot { term, index, .. } = msg {
                    assert!(peer.cond_install_snapshot(term, index));
                }
                out.push(msg);
            }
            None => return out,
        }
    }
}

#[test]
fn initial_election() {
    let mut peers = make_cluster(3);
    assert_eq!(count_leaders(&peers), 0);
    elect(&mut peers, 0, &[]);
    assert_eq!(count_leaders(&peers), 1);
    assert!(peers[0].is_leader());
    let term = peers[0].term();
    assert_eq!(term, 1);
    // Heartbeats keep the cluster stable: still one leader, same term.
    replicate_round(&mut peers, 0, &[]);
    replicate_round(&mut peers, 0, &[]);
    assert_eq!(count_leaders(&peers), 1);
    assert_eq!(peers[0].term(), term);
}

#[test]
fn vote_granted_once_per_term() {
    let mut peers = make_cluster(3);
    peers[1].become_candidate();
    peers[2].become_candidate();
    let a = peers[1].request_vote_args();
    let r1 = peers[0].handle_request_vote(a);
    assert!(r1.vote_granted);
    // A second candidate of the same term is refused by the same voter.
    let b = peers[2].request_vote_args();
    assert_eq!(b.term, 1);
    let r2 = peers[0].handle_request_vote(b);
    assert!(!r2.vote_granted);
}

#[test]
fn basic_agreement() {
    let mut peers = make_cluster(5);
    elect(&mut peers, 0, &[]);
    assert!(peers[0].is_leader());
    for tag in [10u8, 20, 30] {
        let s = peers[0].start(vec![tag]).ok().unwrap();
        assert_eq!(s.term, 1);
    }
    replicate_round(&mut peers, 0, &[]);
    replicate_round(&mut peers, 0, &[]);
    let mut all_data: Vec<Vec<(u64, Vec<u8>)>> = Vec::new();
    for p in peers.iter_mut() {
        let msgs = drain(p);
        let got: Vec<(u64, Vec<u8>)> = msgs
            .into_iter()
            .map(|m| match m {
                ApplyMsg::Command { index, data } => (index, data),
                _ => panic!("unexpected snapshot"),
            })
            .collect();
        // The apply stream delivers indices 1, 2, 3 with no gaps.
        let indices: Vec<u64> = got.iter().map(|(i, _)| *i).collect();
        assert_eq!(indices, vec![1, 2, 3]);
        all_data.push(got);
    }
    // Agreement: every replica applied the same entry at every index.
    for p in 1..all_data.len() {
        assert_eq!(all_data[p], all_data[0]);
    }
    assert_eq!(all_data[0][0].1, vec![10u8]);
    assert_eq!(all_data[0][2].1, vec![30u8]);
}

#[test]
fn leader_failover_keeps_committed_entry() {
    let mut peers = make_cluster(3);
    elect(&mut peers, 0, &[]);
    peers[0].start(vec![7u8]).ok().unwrap();
    replicate_round(&mut peers, 0, &[]);
    replicate_round(&mut peers, 0, &[]);
    for p in peers.iter_mut() {
        assert_eq!(drain(p).len(), 1);
    }
    // The old leader is cut off; a new leader rises in a later term.
    elect(&mut peers, 1, &[0]);
    assert!(peers[1].is_leader());
    assert_eq!(peers[1].term(), 2);
    // The committed entry is still there on the new leader.
    peers[1].start(vec![8u8]).ok().unwrap();
    replicate_round(&mut peers, 1, &[0]);
    replicate_round(&mut peers, 1, &[0]);
    let msgs = drain(&mut peers[2]);
    assert_eq!(msgs.len(), 1);
    match &msgs[0] {
        ApplyMsg::Command { index, data } => {
            assert_eq!(*index, 2);
            assert_eq!(*data, vec![8u8]);
        }
        _ => panic!("unexpected snapshot"),
    }
}

#[test]
fn snapshot_installation() {
    let mut peers = make_cluster(3);
    elect(&mut peers, 0, &[]);
    for i in 0..100u16 {
        peers[0].start(vec![(i & 0xff) as u8, (i >> 8) as u8]).ok().unwrap();
    }
    replicate_round(&mut peers, 0, &[]);
    replicate_round(&mut peers, 0, &[]);
    let applied = drain(&mut peers[0]);
    assert_eq!(applied.len(), 100);
    // Peer 2 drops off; another hundred commands commit without it.
    for i in 100..200u16 {
        peers[0].start(vec![(i & 0xff) as u8, (i >> 8) as u8]).ok().unwrap();
    }
    replicate_round(&mut peers, 0, &[2]);
    replicate_round(&mut peers, 0, &[2]);
    let more = drain(&mut peers[0]);
    assert_eq!(more.len(), 100);
    // The leader compacts everything it has applied.
    peers[0].snapshot(200, vec![0xAB, 0xCD]);
    assert_eq!(peers[0].last_included_index, 200);
    // Peer 2 returns: it is too far behind for the log, so it gets the
    // snapshot, then fresh entries without gaps.
    replicate_round(&mut peers, 0, &[]);
    let caught_up = drain(&mut peers[2]);
    assert_eq!(caught_up.len(), 1);
    match &caught_up[0] {
        ApplyMsg::Snapshot { index, data, .. } => {
            assert_eq!(*index, 200);
            assert_eq!(*data, vec![0xAB, 0xCD]);
        }
        _ => panic!("expected a snapshot first"),
    }
    peers[0].start(vec![0xEE]).ok().unwrap();
    replicate_round(&mut peers, 0, &[]);
    replicate_round(&mut peers, 0, &[]);
    let tail = drain(&mut peers[2]);
    assert_eq!(tail.len(), 1);
    match &tail[0] {
        ApplyMsg::Command { index, data } => {
            assert_eq!(*index, 201);
            assert_eq!(*data, vec![0xEE]);
        }
        _ => panic!("expected a command after the snapshot"),
    }
}

#[test]
fn stale_term_messages_are_refused() {
    let mut peers = make_cluster(3);
    elect(&mut peers, 0, &[]);
    elect(&mut peers, 1, &[0]);
    // A vote request from the deposed term is not granted.
    let stale = RequestVoteArgs { term: 1, candidate_id: 0, last_log_index: 0, last_log_term: 0 };
    let r = peers[2].handle_request_vote(stale);
    assert!(!r.vote_granted);
    assert_eq!(r.term, 2);
}

#[test]
fn election_timeout_in_range() {
    for r in [0u64, 1, 149, 150, 299, 300, u64::MAX] {
        let d = election_timeout_from(r);
        assert!(ELECTION_TIMEOUT_MIN <= d && d < ELECTION_TIMEOUT_MAX);
    }
    assert_eq!(election_timeout_from(0), 150);
    assert_eq!(election_timeout_from(149), 299);
    assert_eq!(election_timeout_from(150), 150);
}

#[test]
fn durable_state_round_trip() {
    let mut peers = make_cluster(3);
    elect(&mut peers, 0, &[]);
    peers[0].start(vec![1, 2, 3]).ok().unwrap();
    peers[0].start(vec![]).ok().unwrap();
    let d = peers[0].durable();
    let bytes = encode_state(&d);
    let d2 = decode_state(&bytes).unwrap();
    assert_eq!(d2.term, d.term);
    assert_eq!(d2.voted_for, d.voted_for);
    assert_eq!(d2.last_included_index, d.last_included_index);
    assert_eq!(d2.last_included_term, d.last_included_term);
    assert_eq!(d2.log.len(), d.log.len());
    for (a, b) in d.log.iter().zip(d2.log.iter()) {
        assert_eq!(a.term, b.term);
        assert_eq!(a.data, b.data);
    }
    assert_eq!(encode_state(&d2), bytes);
    // A corrupt record is refused.
    let mut bad = bytes.clone();
    bad.pop();
    assert!(decode_state(&bad).is_none());
    // The record restores a working follower.
    let restored = Raft::restore(d2, 3, 0, Vec::new()).unwrap();
    assert_eq!(restored.term, d.term);
    assert_eq!(restored.role, Role::Follower);
    assert_eq!(restored.log.len(), 2);
}

#[test]
fn failover_retry_is_deduplicated() {
    let mut peers = make_cluster(3);
    let mut machines: Vec<Kv> = (0..3).map(|_| Kv::default()).collect();
    // The log carries (request id, value); replicas apply with dedup.
    let apply_all = |peers: &mut Vec<Raft>, machines: &mut Vec<Kv>, skip: &[usize]| {
        for i in 0..peers.len() {
            if skip.contains(&i) {
                continue;
            }
            for msg in drain(&mut peers[i]) {
                if let ApplyMsg::Command { data, .. } = msg {
                    let id = data[0] as u64;
                    let value = String::from_utf8(data[1..].to_vec()).unwrap();
                    machines[i].apply(id, Op::Put { key: "k".to_string(), value });
                }
            }
        }
    };
    elect(&mut peers, 0, &[]);
    peers[0].start(b"\x2Av".to_vec()).ok().unwrap();
    replicate_round(&mut peers, 0, &[]);
    replicate_round(&mut peers, 0, &[]);
    apply_all(&mut peers, &mut machines, &[]);
    // The leader's acknowledgement is lost; the client retries the same
    // request id against the next leader.
    elect(&mut peers, 1, &[0]);
    peers[1].start(b"\x2Av".to_vec()).ok().unwrap();
    replicate_round(&mut peers, 1, &[0]);
    replicate_round(&mut peers, 1, &[0]);
    apply_all(&mut peers, &mut machines, &[0]);
    for i in [1usize, 2] {
        let got = machines[i].apply(99, Op::Get { key: "k".to_string() });
        assert_eq!(got, "v");
    }
}

#[test]
fn conflicting_follower_log_is_repaired() {
    let mut peers = make_cluster(3);
    // Peer 2 accumulates entries of an old term that never committed.
    elect(&mut peers, 2, &[]);
    for _ in 0..4 {
        peers[2].start(vec![0x99]).ok().unwrap();
    }
    // It is isolated before replicating; peer 0 leads the next term and
    // commits its own entries everywhere else.
    elect(&mut peers, 0, &[2]);
    for tag in [1u8, 2, 3] {
        peers[0].start(vec![tag]).ok().unwrap();
    }
    replicate_round(&mut peers, 0, &[2]);
    replicate_round(&mut peers, 0, &[2]);
    // The old candidate comes back: its conflicting suffix is replaced
    // by the leader's log, conflict hints walking next_index back.
    for _ in 0..6 {
        replicate_round(&mut peers, 0, &[1]);
    }
    let msgs = drain(&mut peers[2]);
    let data: Vec<Vec<u8>> = msgs
        .into_iter()
        .map(|m| match m {
            ApplyMsg::Command { data, .. } => data,
            _ => panic!("unexpected snapshot"),
        })
        .collect();
    assert_eq!(data, vec![vec![1u8], vec![2u8], vec![3u8]]);
}

#[test]
fn previous_term_entries_commit_only_transitively() {
    let mut peers = make_cluster(3);
    elect(&mut peers, 0, &[]);
    peers[0].start(vec![0x01]).ok().unwrap();
    // The entry reaches every follower, but their commit index has not
    // caught up when the leader goes silent.
    replicate_round(&mut peers, 0, &[]);
    // The leader of term 2 may not count term-1 replicas toward
    // commitment on its own.
    elect(&mut peers, 1, &[0]);
    assert!(peers[1].is_leader());
    // Propagate the old entry under the new leader without a new entry:
    replicate_round(&mut peers, 1, &[0]);
    assert_eq!(peers[1].commit_index, 0);
    // A fresh entry of the current term carries it over the line.
    peers[1].start(vec![0x02]).ok().unwrap();
    replicate_round(&mut peers, 1, &[0]);
    assert_eq!(peers[1].commit_index, 2);
    replicate_round(&mut peers, 1, &[0]);
    let msgs = drain(&mut peers[2]);
    assert_eq!(msgs.len(), 2);
}

#[test]
fn start_on_follower_names_another_peer() {
    let mut peers = make_cluster(3);
    match peers[1].start(vec![1]) {
        Err(raftkv::raft::Error::NotLeader(hint)) => assert_eq!(hint, 2),
        _ => panic!("a follower must refuse to start agreement"),
    }
    elect(&mut peers, 0, &[]);
    assert!(peers[0].start(vec![1]).is_ok());
}

#[test]
fn not_leader_hint_names_the_heard_leader() {
    let mut peers = make_cluster(3);
    elect(&mut peers, 0, &[]);
    replicate_round(&mut peers, 0, &[]);
    // Followers now point clients at the leader they heard from.
    match peers[1].start(vec![1]) {
        Err(raftkv::raft::Error::NotLeader(hint)) => assert_eq!(hint, 0),
        _ => panic!("a follower must refuse to start agreement"),
    }
    match peers[2].start(vec![1]) {
        Err(raftkv::raft::Error::NotLeader(hint)) => assert_eq!(hint, 0),
        _ => panic!("a follower must refuse to start agreement"),
    }
}
