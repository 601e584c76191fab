//! The replication engine's state machine.
//!
//! One `Raft` value holds everything a peer knows: term, vote, role, the
//! log with its snapshot prefix, commit and apply cursors, and the
//! leader's per-peer bookkeeping. Every protocol step — an election
//! timeout, an incoming or answered RPC, a commit advance, an apply
//! delivery — is a total function on this state with an exact contract.
//! The surrounding process drives these functions from its timers and
//! sockets and persists what they change.

use vstd::prelude::*;
use vstd::set_lib::lemma_len_subset;
use vstd::set_lib::lemma_int_range;

verus! {

/// Heartbeat period in milliseconds; well under the election timeout.
pub const HEARTBEAT_MILLIS: u64 = 100;

/// Lower bound of the election timeout range, milliseconds.
pub const ELECTION_TIMEOUT_MIN: u64 = 150;

/// Upper bound (exclusive) of the election timeout range, milliseconds.
pub const ELECTION_TIMEOUT_MAX: u64 = 300;

/// An election timeout drawn from [150, 300) using the random value `r`:
/// the draw is uniform when `r` is.
pub fn election_timeout_from(r: u64) -> (d: u64)
    ensures
        d == ELECTION_TIMEOUT_MIN + (r as int) % ((ELECTION_TIMEOUT_MAX - ELECTION_TIMEOUT_MIN) as int),
        ELECTION_TIMEOUT_MIN <= d < ELECTION_TIMEOUT_MAX,
{
    ELECTION_TIMEOUT_MIN + r % (ELECTION_TIMEOUT_MAX - ELECTION_TIMEOUT_MIN)
}

/// What a peer currently is.
#[derive(PartialEq, Eq, Structural, Clone, Copy, Debug)]
pub enum Role {
    Follower,
    Candidate,
    Leader,
}

/// One log entry: the term it was appended in and its payload.
pub struct LogEntry {
    pub term: u64,
    pub data: Vec<u8>,
}

/// The abstract value of a log entry.
pub open spec fn le_view(e: LogEntry) -> (u64, Seq<u8>) {
    (e.term, e.data@)
}

/// The abstract value of a log.
pub open spec fn log_view(log: Seq<LogEntry>) -> Seq<(u64, Seq<u8>)> {
    log.map_values(|e: LogEntry| le_view(e))
}

proof fn lemma_log_view_push(log: Seq<LogEntry>, e: LogEntry)
    ensures
        log_view(log.push(e)) == log_view(log).push(le_view(e)),
{
    assert(log_view(log.push(e)) =~= log_view(log).push(le_view(e)));
}

proof fn lemma_log_view_take(log: Seq<LogEntry>, k: int)
    requires
        0 <= k <= log.len(),
    ensures
        log_view(log.take(k)) == log_view(log).take(k),
{
    assert(log_view(log.take(k)) =~= log_view(log).take(k));
}

/// What `start` answers on the leader.
pub struct Start {
    /// The index the command will occupy if it commits.
    pub index: u64,
    /// The term it was appended in.
    pub term: u64,
}

/// Why `start` refused.
pub enum Error {
    /// This peer is not the leader; try the hinted peer.
    NotLeader(usize),
}

/// What the engine delivers to the service, strictly in index order.
pub enum ApplyMsg {
    Command { data: Vec<u8>, index: u64 },
    Snapshot { data: Vec<u8>, term: u64, index: u64 },
}

pub struct RequestVoteArgs {
    pub term: u64,
    pub candidate_id: usize,
    pub last_log_index: u64,
    pub last_log_term: u64,
}

pub struct RequestVoteReply {
    pub term: u64,
    pub vote_granted: bool,
}

pub struct AppendEntriesArgs {
    pub term: u64,
    pub leader_id: usize,
    pub prev_log_index: u64,
    pub prev_log_term: u64,
    pub entries: Vec<LogEntry>,
    pub leader_commit: u64,
}

pub struct AppendEntriesReply {
    pub term: u64,
    pub success: bool,
    /// The term at the conflicting slot; 0 when none is known.
    pub conflict_term: u64,
    /// The first index of that term's run, or one past the log's end.
    pub conflict_index: u64,
}

pub struct InstallSnapshotArgs {
    pub term: u64,
    pub last_included_index: u64,
    pub last_included_term: u64,
    pub data: Vec<u8>,
}

pub struct InstallSnapshotReply {
    pub term: u64,
}

/// The whole state of one replication peer.
pub struct Raft {
    /// This peer's position in the group.
    pub me: usize,
    /// How many peers the group has; fixed at construction.
    pub n: usize,
    /// The current term.
    pub term: u64,
    /// Whom this peer voted for in the current term.
    pub voted_for: Option<usize>,
    /// Follower, Candidate or Leader.
    pub role: Role,
    /// Entries after the snapshot: `log[k]` sits at index
    /// `last_included_index + 1 + k`.
    pub log: Vec<LogEntry>,
    /// Index of the last entry covered by the snapshot; 0 when none.
    pub last_included_index: u64,
    /// Term of that entry.
    pub last_included_term: u64,
    /// The application snapshot blob.
    pub snapshot: Vec<u8>,
    /// Highest index known committed.
    pub commit_index: u64,
    /// Highest index handed to the apply stream.
    pub last_applied: u64,
    /// A freshly installed snapshot still owed to the apply stream.
    pub pending_snapshot: bool,
    /// Leader bookkeeping: next index to send each peer.
    pub next_index: Vec<u64>,
    /// Leader bookkeeping: highest index known replicated on each peer.
    pub match_index: Vec<u64>,
    /// Which peers granted this candidate their vote in the current term.
    pub votes: Vec<bool>,
    /// The best guess at the current leader: the peer whose AppendEntries
    /// was last accepted, or the next peer round-robin before any was.
    pub leader_hint: usize,
}

impl Raft {
    /// The index of the last log entry (the snapshot's last index when
    /// the log is empty).
    pub open spec fn last_log_index(self) -> int {
        self.last_included_index + self.log@.len()
    }

    /// The term recorded at index `i`, for
    /// `last_included_index <= i <= last_log_index()`.
    pub open spec fn term_at(self, i: int) -> u64 {
        if i == self.last_included_index {
            self.last_included_term
        } else {
            self.log@[i - self.last_included_index - 1].term
        }
    }

    pub open spec fn wf(self) -> bool {
        &&& 1 <= self.n
        &&& self.me < self.n
        &&& self.next_index@.len() == self.n
        &&& self.match_index@.len() == self.n
        &&& self.votes@.len() == self.n
        &&& self.last_included_index + self.log@.len() + 1 <= u64::MAX
        &&& self.last_included_index <= self.commit_index <= self.last_log_index()
        &&& self.last_applied <= self.commit_index
        &&& !self.pending_snapshot ==> self.last_applied >= self.last_included_index
        &&& self.voted_for matches Option::Some(p) ==> p < self.n
        &&& self.leader_hint < self.n
        &&& self.role == Role::Leader ==> forall|i: int|
            0 <= i < self.n ==> (#[trigger] self.match_index@[i]) <= self.last_log_index()
    }

    /// A fresh follower at term 0 with an empty log.
    pub fn new(n: usize, me: usize) -> (r: Raft)
        requires
            1 <= n,
            me < n,
        ensures
            r.wf(),
            r.me == me,
            r.n == n,
            r.term == 0,
            r.voted_for is None,
            r.role == Role::Follower,
            r.log@.len() == 0,
            r.last_included_index == 0,
            r.last_included_term == 0,
            r.commit_index == 0,
            r.last_applied == 0,
            !r.pending_snapshot,
    {
        let mut next_index: Vec<u64> = Vec::new();
        let mut match_index: Vec<u64> = Vec::new();
        let mut votes: Vec<bool> = Vec::new();
        let mut i: usize = 0;
        while i < n
            invariant
                i <= n,
                next_index@.len() == i,
                match_index@.len() == i,
                votes@.len() == i,
            decreases n - i,
        {
            next_index.push(1);
            match_index.push(0);
            votes.push(false);
            i = i + 1;
        }
        Raft {
            me,
            n,
            term: 0,
            voted_for: None,
            role: Role::Follower,
            log: Vec::new(),
            last_included_index: 0,
            last_included_term: 0,
            snapshot: Vec::new(),
            commit_index: 0,
            last_applied: 0,
            pending_snapshot: false,
            next_index,
            match_index,
            votes,
            leader_hint: (me + 1) % n,
        }
    }

    /// The current term.
    pub fn term(&self) -> (t: u64)
        ensures
            t == self.term,
    {
        self.term
    }

    /// Whether this peer believes it is the leader.
    pub fn is_leader(&self) -> (r: bool)
        ensures
            r == (self.role == Role::Leader),
    {
        match self.role {
            Role::Leader => true,
            _ => false,
        }
    }

    /// The recorded term at index `i`.
    fn term_at_exec(&self, i: u64) -> (t: u64)
        requires
            self.wf(),
            self.last_included_index <= i <= self.last_log_index(),
        ensures
            t == self.term_at(i as int),
    {
        if i == self.last_included_index {
            self.last_included_term
        } else {
            let len = self.log.len();
            proof {
                assert(i - self.last_included_index - 1 < len);
            }
            let k = (i - self.last_included_index - 1) as usize;
            self.log[k].term
        }
    }

    /// Start agreement on a command: the leader appends it to its own log
    /// and answers the slot it will occupy; anyone else refuses with a
    /// hint at another peer.
    pub fn start(&mut self, data: Vec<u8>) -> (r: Result<Start, Error>)
        requires
            old(self).wf(),
            old(self).last_log_index() + 1 < u64::MAX,
        ensures
            final(self).wf(),
            old(self).role != Role::Leader ==> {
                &&& r == Result::<Start, Error>::Err(Error::NotLeader(old(self).leader_hint))
                &&& *final(self) == *old(self)
            },
            old(self).role == Role::Leader ==> {
                &&& log_view(final(self).log@) == log_view(old(self).log@).push(
                    (old(self).term, data@),
                )
                &&& r == Result::<Start, Error>::Ok(Start {
                    index: (old(self).last_log_index() + 1) as u64,
                    term: old(self).term,
                })
                &&& final(self).term == old(self).term
                &&& final(self).role == Role::Leader
                &&& final(self).voted_for == old(self).voted_for
                &&& final(self).commit_index == old(self).commit_index
                &&& final(self).last_applied == old(self).last_applied
                &&& final(self).last_included_index == old(self).last_included_index
                &&& final(self).last_included_term == old(self).last_included_term
                &&& final(self).snapshot@ == old(self).snapshot@
                &&& final(self).pending_snapshot == old(self).pending_snapshot
                &&& final(self).next_index@ == old(self).next_index@
                &&& final(self).match_index@ == old(self).match_index@
                &&& final(self).votes@ == old(self).votes@
                &&& final(self).leader_hint == old(self).leader_hint
                &&& final(self).me == old(self).me
                &&& final(self).n == old(self).n
            },
    {
        if !self.is_leader() {
            return Err(Error::NotLeader(self.leader_hint));
        }
        let index = self.last_included_index + (self.log.len() as u64) + 1;
        let term = self.term;
        self.log.push(LogEntry { term, data });
        proof {
            assert(log_view(self.log@) =~= log_view(old(self).log@).push((old(self).term, data@)));
        }
        Ok(Start { index, term })
    }

    /// An election timeout fired: move to the next term as a candidate,
    /// voting for ourselves.
    pub fn become_candidate(&mut self)
        requires
            old(self).wf(),
            old(self).term < u64::MAX,
            old(self).role != Role::Leader,
        ensures
            final(self).wf(),
            final(self).term == old(self).term + 1,
            final(self).role == Role::Candidate,
            final(self).voted_for == Option::Some(old(self).me),
            final(self).votes@.len() == old(self).n,
            forall|i: int| 0 <= i < old(self).n
                ==> (final(self).votes@[i] <==> i == old(self).me),
            final(self).log@ == old(self).log@,
            final(self).me == old(self).me,
            final(self).n == old(self).n,
            final(self).commit_index == old(self).commit_index,
            final(self).last_applied == old(self).last_applied,
            final(self).last_included_index == old(self).last_included_index,
            final(self).last_included_term == old(self).last_included_term,
            final(self).pending_snapshot == old(self).pending_snapshot,
    {
        self.term = self.term + 1;
        self.role = Role::Candidate;
        self.voted_for = Some(self.me);
        let n = self.n;
        let me = self.me;
        let mut i: usize = 0;
        while i < n
            invariant
                self.votes@.len() == n,
                me < n,
                i <= n,
                forall|j: int| 0 <= j < i ==> (self.votes@[j] <==> j == me),
                self.me == old(self).me,
                self.n == old(self).n,
                self.term == old(self).term + 1,
                self.role == Role::Candidate,
                self.voted_for == Option::Some(old(self).me),
                self.log@ == old(self).log@,
                self.commit_index == old(self).commit_index,
                self.last_applied == old(self).last_applied,
                self.last_included_index == old(self).last_included_index,
                self.last_included_term == old(self).last_included_term,
                self.pending_snapshot == old(self).pending_snapshot,
                self.next_index@.len() == n,
                self.match_index@.len() == n,
                self.leader_hint == old(self).leader_hint,
                self.leader_hint < n,
                old(self).last_included_index + old(self).log@.len() + 1 <= u64::MAX,
                self.last_included_index <= self.commit_index <= self.last_log_index(),
                self.last_applied <= self.commit_index,
                !self.pending_snapshot ==> self.last_applied >= self.last_included_index,
            decreases n - i,
        {
            self.votes[i] = i == me;
            i = i + 1;
        }
    }

    /// The vote request this candidate sends to its peers.
    pub fn request_vote_args(&self) -> (args: RequestVoteArgs)
        requires
            self.wf(),
        ensures
            args.term == self.term,
            args.candidate_id == self.me,
            args.last_log_index == self.last_log_index(),
            args.last_log_term == self.term_at(self.last_log_index()),
    {
        let last = self.last_included_index + self.log.len() as u64;
        RequestVoteArgs {
            term: self.term,
            candidate_id: self.me,
            last_log_index: last,
            last_log_term: self.term_at_exec(last),
        }
    }
}

/// Whether the candidate's log is at least as up to date as this peer's:
/// a later last term, or the same last term and no shorter a log.
pub open spec fn candidate_up_to_date(s: Raft, last_log_term: u64, last_log_index: u64) -> bool {
    ||| last_log_term > s.term_at(s.last_log_index())
    ||| (last_log_term == s.term_at(s.last_log_index())
        && last_log_index >= s.last_log_index())
}

/// Whether the vote is granted, judged against the receiver's state
/// before the call: the candidate's term is current, this peer has not
/// voted for anyone else in that term, and the candidate's log is at
/// least as up to date.
pub open spec fn grants_vote(s: Raft, args: RequestVoteArgs) -> bool {
    &&& args.candidate_id < s.n
    &&& args.term >= s.term
    &&& (args.term > s.term || s.voted_for is None
        || s.voted_for == Option::Some(args.candidate_id))
    &&& candidate_up_to_date(s, args.last_log_term, args.last_log_index)
}

impl Raft {
    /// Answer a RequestVote RPC.
    ///
    /// A strictly newer term makes this peer step down first. The vote is
    /// granted exactly under `grants_vote`, and a granted vote binds
    /// `voted_for` for the whole term: one peer votes at most once per
    /// term, the pillar of at-most-one-leader-per-term.
    pub fn handle_request_vote(&mut self, args: RequestVoteArgs) -> (reply: RequestVoteReply)
        requires
            old(self).wf(),
        ensures
            final(self).wf(),
            reply.vote_granted == grants_vote(*old(self), args),
            final(self).term == if args.term > old(self).term { args.term } else { old(self).term },
            reply.term == final(self).term,
            final(self).role == if args.term > old(self).term { Role::Follower } else { old(self).role },
            final(self).voted_for == if reply.vote_granted {
                Option::Some(args.candidate_id)
            } else if args.term > old(self).term {
                Option::<usize>::None
            } else {
                old(self).voted_for
            },
            reply.vote_granted ==> final(self).term == args.term,
            final(self).log@ == old(self).log@,
            final(self).commit_index == old(self).commit_index,
            final(self).last_applied == old(self).last_applied,
            final(self).last_included_index == old(self).last_included_index,
            final(self).last_included_term == old(self).last_included_term,
            final(self).snapshot@ == old(self).snapshot@,
            final(self).pending_snapshot == old(self).pending_snapshot,
            final(self).next_index@ == old(self).next_index@,
            final(self).match_index@ == old(self).match_index@,
            final(self).votes@ == old(self).votes@,
            final(self).leader_hint == old(self).leader_hint,
            final(self).me == old(self).me,
            final(self).n == old(self).n,
    {
        let ghost pre = *old(self);
        if args.term > self.term {
            self.term = args.term;
            self.role = Role::Follower;
            self.voted_for = None;
        }
        let granted = if args.term < self.term || args.candidate_id >= self.n {
            false
        } else {
            let vote_free = match self.voted_for {
                Option::None => true,
                Option::Some(p) => p == args.candidate_id,
            };
            if !vote_free {
                false
            } else {
                let last = self.last_included_index + self.log.len() as u64;
                let my_last_term = self.term_at_exec(last);
                args.last_log_term > my_last_term
                    || (args.last_log_term == my_last_term && args.last_log_index >= last)
            }
        };
        if granted {
            self.voted_for = Some(args.candidate_id);
        }
        RequestVoteReply { term: self.term, vote_granted: granted }
    }
}

/// How many peers have granted their vote.
pub open spec fn count_votes(votes: Seq<bool>) -> int
    decreases votes.len(),
{
    if votes.len() == 0 {
        0
    } else {
        count_votes(votes.drop_last()) + if votes.last() { 1int } else { 0int }
    }
}

impl Raft {
    /// Count the granted votes.
    fn tally_votes(&self) -> (c: usize)
        requires
            self.wf(),
        ensures
            c == count_votes(self.votes@),
            c <= self.n,
    {
        let mut c: usize = 0;
        let mut i: usize = 0;
        while i < self.votes.len()
            invariant
                self.wf(),
                i <= self.votes@.len(),
                c == count_votes(self.votes@.take(i as int)),
                c <= i,
            decreases self.votes@.len() - i,
        {
            proof {
                assert(self.votes@.take(i + 1).drop_last() =~= self.votes@.take(i as int));
            }
            if self.votes[i] {
                c = c + 1;
            }
            i = i + 1;
        }
        proof {
            assert(self.votes@.take(self.votes@.len() as int) =~= self.votes@);
        }
        c
    }

    /// Record a vote reply.
    ///
    /// A newer term makes the candidate step down. A grant in the current
    /// term is tallied, and the candidacy becomes leadership exactly when
    /// more than half the peers have granted; the new leader starts every
    /// peer's next index just past its own log.
    pub fn handle_request_vote_reply(&mut self, from: usize, reply: RequestVoteReply)
        requires
            old(self).wf(),
            from < old(self).n,
        ensures
            final(self).wf(),
            reply.term > old(self).term ==> {
                &&& final(self).term == reply.term
                &&& final(self).role == Role::Follower
                &&& final(self).voted_for is None
                &&& final(self).log@ == old(self).log@
                &&& final(self).votes@ == old(self).votes@
            },
            reply.term <= old(self).term ==> {
                &&& final(self).term == old(self).term
                &&& final(self).voted_for == old(self).voted_for
                &&& final(self).log@ == old(self).log@
                &&& if old(self).role == Role::Candidate && reply.term == old(self).term
                    && reply.vote_granted {
                    &&& final(self).votes@ == old(self).votes@.update(from as int, true)
                    &&& if 2 * count_votes(old(self).votes@.update(from as int, true))
                        > old(self).n {
                        &&& final(self).role == Role::Leader
                        &&& forall|i: int| 0 <= i < old(self).n
                            ==> final(self).next_index@[i] == old(self).last_log_index() + 1
                        &&& forall|i: int| 0 <= i < old(self).n && i != old(self).me
                            ==> final(self).match_index@[i] == 0
                        &&& final(self).match_index@[old(self).me as int]
                            == old(self).last_log_index()
                    } else {
                        final(self).role == old(self).role
                    }
                } else {
                    final(self).votes@ == old(self).votes@ && final(self).role == old(self).role
                }
            },
            final(self).commit_index == old(self).commit_index,
            final(self).last_applied == old(self).last_applied,
            final(self).last_included_index == old(self).last_included_index,
            final(self).last_included_term == old(self).last_included_term,
            final(self).me == old(self).me,
            final(self).n == old(self).n,
            // Leadership is only ever claimed with a strict majority.
            final(self).role == Role::Leader && old(self).role != Role::Leader
                ==> 2 * count_votes(final(self).votes@) > final(self).n,
    {
        if reply.term > self.term {
            self.term = reply.term;
            self.role = Role::Follower;
            self.voted_for = None;
            return;
        }
        let is_candidate = match self.role {
            Role::Candidate => true,
            _ => false,
        };
        if is_candidate && reply.term == self.term && reply.vote_granted {
            self.votes[from] = true;
            let c = self.tally_votes();
            proof {
                assert(c > self.n / 2 ==> 2 * c > self.n) by {
                    assert(self.n as int == 2 * (self.n as int / 2) + self.n as int % 2);
                }
                assert(2 * c > self.n ==> c > self.n / 2);
            }
            if c > self.n / 2 {
                self.role = Role::Leader;
                let last = self.last_included_index + self.log.len() as u64;
                let n = self.n;
                let me = self.me;
                let mut i: usize = 0;
                while i < n
                    invariant
                        self.next_index@.len() == n,
                        self.match_index@.len() == n,
                        me < n,
                        i <= n,
                        last == old(self).last_log_index(),
                        forall|j: int| 0 <= j < i ==> self.next_index@[j] == last + 1,
                        forall|j: int| 0 <= j < i && j != me ==> self.match_index@[j] == 0,
                        i > me ==> self.match_index@[me as int] == last,
                        self.votes@ == old(self).votes@.update(from as int, true),
                        self.leader_hint == old(self).leader_hint,
                        self.leader_hint < n,
                        self.role == Role::Leader,
                        self.term == old(self).term,
                        self.voted_for == old(self).voted_for,
                        self.log@ == old(self).log@,
                        self.me == old(self).me,
                        self.n == old(self).n,
                        self.commit_index == old(self).commit_index,
                        self.last_applied == old(self).last_applied,
                        self.last_included_index == old(self).last_included_index,
                        self.last_included_term == old(self).last_included_term,
                        self.pending_snapshot == old(self).pending_snapshot,
                        old(self).wf(),
                    decreases n - i,
                {
                    self.next_index[i] = last + 1;
                    self.match_index[i] = if i == me { last } else { 0 };
                    i = i + 1;
                }
            }
        }
    }
}

/// A byte-for-byte copy.
fn copy_bytes(v: &Vec<u8>) -> (r: Vec<u8>)
    ensures
        r@ == v@,
{
    let mut r: Vec<u8> = Vec::new();
    let n = v.len();
    let mut i: usize = 0;
    while i < n
        invariant
            n == v@.len(),
            i <= n,
            r@.len() == i,
            forall|j: int| 0 <= j < i ==> r@[j] == v@[j],
        decreases n - i,
    {
        r.push(v[i]);
        i = i + 1;
    }
    proof {
        assert(r@ =~= v@);
    }
    r
}

/// The log after the entries `ent` are laid down starting at position
/// `pos`: slots whose recorded term already matches are kept (nothing is
/// ever truncated by a stale message), and at the first divergence the
/// rest of the log is replaced by the incoming entries.
pub open spec fn merge_entries(
    cur: Seq<(u64, Seq<u8>)>,
    pos: int,
    ent: Seq<(u64, Seq<u8>)>,
) -> Seq<(u64, Seq<u8>)>
    decreases ent.len(),
{
    if ent.len() == 0 {
        cur
    } else if 0 <= pos < cur.len() && cur[pos].0 == ent[0].0 {
        merge_entries(cur, pos + 1, ent.skip(1))
    } else {
        cur.take(pos) + ent
    }
}

/// The position at which the incoming entries first diverge from the
/// log (one past the matching prefix when nothing diverges).
pub open spec fn divergence(
    cur: Seq<(u64, Seq<u8>)>,
    pos: int,
    ent: Seq<(u64, Seq<u8>)>,
) -> int
    decreases ent.len(),
{
    if ent.len() == 0 {
        pos
    } else if 0 <= pos < cur.len() && cur[pos].0 == ent[0].0 {
        divergence(cur, pos + 1, ent.skip(1))
    } else {
        pos
    }
}

/// How many of the incoming entries the receiver's snapshot already
/// covers.
pub open spec fn snap_overlap(s: Raft, args: AppendEntriesArgs) -> int {
    if args.prev_log_index < s.last_included_index {
        let gap = s.last_included_index - args.prev_log_index;
        if gap > args.entries@.len() {
            args.entries@.len() as int
        } else {
            gap
        }
    } else {
        0
    }
}

/// The slot the first usable incoming entry follows.
pub open spec fn effective_prev(s: Raft, args: AppendEntriesArgs) -> int {
    args.prev_log_index + snap_overlap(s, args)
}

/// The commit index after a successful AppendEntries: up to the leader's
/// commit, but never past the last slot the message vouched for, and
/// never backwards.
pub open spec fn commit_after(s: Raft, args: AppendEntriesArgs) -> int {
    let last_new = args.prev_log_index + args.entries@.len();
    let bound = if args.leader_commit < last_new { args.leader_commit as int } else { last_new };
    if bound > s.commit_index { bound } else { s.commit_index as int }
}

impl Raft {
    /// Answer an AppendEntries RPC.
    ///
    /// A stale term is refused outright. Otherwise this peer adopts the
    /// leader's term and follows. The message is refused with a conflict
    /// hint when this log lacks the slot before the entries or records a
    /// different term there; the hint names that term and the first slot
    /// of its run, letting the leader back up a term at a time. A message
    /// whose entries diverge at or below the commit index contradicts an
    /// already committed slot and is refused; in a conforming cluster no
    /// such message is ever sent. On success the entries are merged — an
    /// already matching slot is never truncated — and the commit index
    /// advances to `commit_after`.
    /// How many incoming entries (after the `d` the snapshot covers)
    /// already match the log: the merge keeps them and replaces from the
    /// first divergence on.
    fn find_divergence(&self, prev: u64, d: u64, entries: &Vec<LogEntry>) -> (k: u64)
        requires
            self.wf(),
            d <= entries@.len(),
            prev + entries@.len() + 1 <= u64::MAX,
            self.last_included_index <= prev + d <= self.last_log_index(),
        ensures
            ({
                let cur = log_view(self.log@);
                let ent = log_view(entries@).skip(d as int);
                let pos0 = prev + d - self.last_included_index;
                let p0 = pos0 + (k - d);
                &&& d <= k <= entries@.len()
                &&& prev + d + (k - d) <= self.last_log_index()
                &&& merge_entries(cur, pos0, ent) == merge_entries(
                    cur,
                    p0,
                    log_view(entries@).skip(k as int),
                )
                &&& divergence(cur, pos0, ent) == divergence(
                    cur,
                    p0,
                    log_view(entries@).skip(k as int),
                )
                &&& k < entries@.len() ==> {
                    &&& divergence(cur, pos0, ent) == p0
                    &&& merge_entries(cur, pos0, ent) == cur.take(p0) + log_view(
                        entries@,
                    ).skip(k as int)
                }
                &&& k == entries@.len() ==> {
                    &&& divergence(cur, pos0, ent) == pos0 + ent.len()
                    &&& merge_entries(cur, pos0, ent) == cur
                }
            }),
    {
        let lii = self.last_included_index;
        let log_len = self.log.len();
        let last = lii + log_len as u64;
        let en = entries.len();
        let elen = en as u64;
        let eff_prev = prev + d;
        let ghost cur = log_view(self.log@);
        let ghost ent = log_view(entries@).skip(d as int);
        let ghost pos0 = eff_prev - lii;
        let mut k: u64 = d;
        while k < elen && eff_prev + (k - d) + 1 <= last
            && self.term_at_exec(eff_prev + (k - d) + 1) == entries[k as usize].term
            invariant
                self.wf(),
                cur == log_view(self.log@),
                ent == log_view(entries@).skip(d as int),
                lii == self.last_included_index,
                log_len == self.log@.len(),
                last == self.last_log_index(),
                en == entries@.len(),
                elen == en as u64,
                d <= k <= elen,
                eff_prev == prev + d,
                lii <= eff_prev <= last,
                eff_prev + (k - d) <= last,
                pos0 == eff_prev - lii,
                prev + entries@.len() + 1 <= u64::MAX,
                merge_entries(cur, pos0, ent) == merge_entries(
                    cur,
                    pos0 + (k - d),
                    log_view(entries@).skip(k as int),
                ),
                divergence(cur, pos0, ent) == divergence(
                    cur,
                    pos0 + (k - d),
                    log_view(entries@).skip(k as int),
                ),
            decreases elen - k,
        {
            proof {
                let kk = k as int;
                let p = pos0 + (kk - d);
                let e = log_view(entries@).skip(kk);
                assert(e[0] == log_view(entries@)[kk]);
                assert(log_view(entries@)[kk].0 == entries@[kk].term);
                assert(cur[p].0 == self.log@[p].term);
                assert(self.term_at(eff_prev + (kk - d) + 1) == self.log@[p].term);
                assert(0 <= p < cur.len());
                assert(cur[p].0 == e[0].0);
                assert(merge_entries(cur, p, e) == merge_entries(cur, p + 1, e.skip(1)));
                assert(divergence(cur, p, e) == divergence(cur, p + 1, e.skip(1)));
                assert(e.skip(1) =~= log_view(entries@).skip(kk + 1));
            }
            k = k + 1;
        }
        proof {
            let p0 = pos0 + (k as int - d);
            let e = log_view(entries@).skip(k as int);
            if k < elen {
                assert(e.len() > 0);
                if eff_prev + (k - d) + 1 <= last {
                    assert(cur[p0].0 != e[0].0) by {
                        assert(e[0] == log_view(entries@)[k as int]);
                        assert(self.term_at(eff_prev + (k as int - d) + 1)
                            == self.log@[p0].term);
                    }
                } else {
                    assert(p0 >= cur.len());
                }
                assert(merge_entries(cur, p0, e) == cur.take(p0) + e);
                assert(divergence(cur, p0, e) == p0);
            } else {
                assert(e =~= Seq::<(u64, Seq<u8>)>::empty());
                assert(merge_entries(cur, p0, e) == cur);
                assert(divergence(cur, p0, e) == p0);
                assert(divergence(cur, pos0, ent) == pos0 + ent.len());
            }
        }
        k
    }

    #[verifier::rlimit(100)]
    #[verifier::spinoff_prover]
    pub fn handle_append_entries(&mut self, args: AppendEntriesArgs) -> (reply: AppendEntriesReply)
        requires
            old(self).wf(),
            args.prev_log_index + args.entries@.len() + 1 <= u64::MAX,
        ensures
            final(self).wf(),
            reply.term == final(self).term,
            args.term < old(self).term ==> {
                &&& !reply.success
                &&& *final(self) == *old(self)
            },
            args.term >= old(self).term ==> {
                &&& final(self).term == args.term
                &&& final(self).role == Role::Follower
                &&& final(self).voted_for == (if args.term > old(self).term {
                    Option::<usize>::None
                } else {
                    old(self).voted_for
                })
                &&& final(self).last_included_index == old(self).last_included_index
                &&& final(self).last_included_term == old(self).last_included_term
                &&& final(self).snapshot@ == old(self).snapshot@
                &&& final(self).last_applied == old(self).last_applied
                &&& final(self).pending_snapshot == old(self).pending_snapshot
                &&& final(self).me == old(self).me
                &&& final(self).n == old(self).n
                &&& final(self).leader_hint == (if args.leader_id < old(self).n {
                    args.leader_id as int
                } else {
                    old(self).leader_hint as int
                })
                &&& {
                    let lii = old(self).last_included_index as int;
                    let last = old(self).last_log_index();
                    let d = snap_overlap(*old(self), args);
                    let eff_prev = effective_prev(*old(self), args);
                    let cur = log_view(old(self).log@);
                    let ent = log_view(args.entries@).skip(d);
                    let pos0 = eff_prev - lii;
                    if eff_prev > last {
                        &&& !reply.success
                        &&& reply.conflict_term == 0
                        &&& reply.conflict_index == last + 1
                        &&& final(self).log@ == old(self).log@
                        &&& final(self).commit_index == old(self).commit_index
                    } else if d == 0 && args.prev_log_index >= lii
                        && old(self).term_at(args.prev_log_index as int) != args.prev_log_term {
                        &&& !reply.success
                        &&& reply.conflict_term == old(self).term_at(args.prev_log_index as int)
                        &&& lii <= reply.conflict_index <= args.prev_log_index
                        &&& forall|j: int| reply.conflict_index <= j <= args.prev_log_index
                            ==> old(self).term_at(j) == reply.conflict_term
                        &&& reply.conflict_index > lii ==> old(self).term_at(
                            reply.conflict_index - 1,
                        ) != reply.conflict_term
                        &&& final(self).log@ == old(self).log@
                        &&& final(self).commit_index == old(self).commit_index
                    } else if eff_prev >= lii && divergence(cur, pos0, ent) < pos0 + ent.len()
                        && lii + divergence(cur, pos0, ent) + 1 <= old(self).commit_index {
                        &&& !reply.success
                        &&& reply.conflict_term == 0
                        &&& reply.conflict_index == 0
                        &&& final(self).log@ == old(self).log@
                        &&& final(self).commit_index == old(self).commit_index
                    } else {
                        &&& reply.success
                        &&& log_view(final(self).log@) == merge_entries(cur, pos0, ent)
                        &&& final(self).commit_index == commit_after(*old(self), args)
                    }
                }
            },
    {
        if args.term < self.term {
            return AppendEntriesReply {
                term: self.term,
                success: false,
                conflict_term: 0,
                conflict_index: 0,
            };
        }
        if args.term > self.term {
            self.term = args.term;
            self.voted_for = None;
        }
        self.role = Role::Follower;
        if args.leader_id < self.n {
            self.leader_hint = args.leader_id;
        }
        let lii = self.last_included_index;
        let log_len = self.log.len();
        let last = lii + log_len as u64;
        let en = args.entries.len();
        let elen = en as u64;
        let d: u64 = if args.prev_log_index < lii {
            let gap = lii - args.prev_log_index;
            if gap > elen {
                elen
            } else {
                gap
            }
        } else {
            0
        };
        let eff_prev = args.prev_log_index + d;
        let ghost cur = log_view(old(self).log@);
        let ghost ent = log_view(args.entries@).skip(d as int);
        let ghost pos0 = eff_prev - lii;
        if eff_prev < lii {
            // The whole message lies inside our snapshot.
            proof {
                assert(ent =~= Seq::<(u64, Seq<u8>)>::empty());
                assert(merge_entries(cur, pos0, ent) == cur);
            }
            return AppendEntriesReply {
                term: self.term,
                success: true,
                conflict_term: 0,
                conflict_index: 0,
            };
        }
        if eff_prev > last {
            return AppendEntriesReply {
                term: self.term,
                success: false,
                conflict_term: 0,
                conflict_index: last + 1,
            };
        }
        if d == 0 && args.prev_log_index >= lii {
            let pt = self.term_at_exec(args.prev_log_index);
            if pt != args.prev_log_term {
                let mut ci = args.prev_log_index;
                while ci > lii && self.term_at_exec(ci - 1) == pt
                    invariant
                        self.wf(),
                        self.log@ == old(self).log@,
                        self.last_included_index == lii,
                        lii <= ci <= args.prev_log_index,
                        args.prev_log_index <= self.last_log_index(),
                        pt == self.term_at(args.prev_log_index as int),
                        forall|j: int| ci <= j <= args.prev_log_index
                            ==> self.term_at(j) == pt,
                    decreases ci,
                {
                    ci = ci - 1;
                }
                proof {
                    assert forall|j: int| ci <= j <= args.prev_log_index
                        implies old(self).term_at(j) == pt by {
                        assert(self.term_at(j) == pt);
                    }
                }
                return AppendEntriesReply {
                    term: self.term,
                    success: false,
                    conflict_term: pt,
                    conflict_index: ci,
                };
            }
        }
        // Find the first slot where the incoming entries diverge.
        let k = self.find_divergence(args.prev_log_index, d, &args.entries);
        let ghost p0 = pos0 + (k as int - d);
        if k < elen {
            let idx = eff_prev + (k - d) + 1;
            if idx <= self.commit_index {
                // The message contradicts a committed slot: refuse it.
                return AppendEntriesReply {
                    term: self.term,
                    success: false,
                    conflict_term: 0,
                    conflict_index: 0,
                };
            }
            self.log.truncate((idx - lii - 1) as usize);
            proof {
                lemma_log_view_take(old(self).log@, p0);
                assert(self.log@ == old(self).log@.subrange(0, p0));
                assert(old(self).log@.subrange(0, p0) =~= old(self).log@.take(p0));
                assert(log_view(self.log@) == cur.take(p0));
            }
            let mut j: u64 = k;
            while j < elen
                invariant
                    k <= j <= elen,
                    en == args.entries@.len(),
                    elen == en as u64,
                    log_view(self.log@) == cur.take(p0)
                        + log_view(args.entries@).subrange(k as int, j as int),
                    self.term == args.term,
                    self.role == Role::Follower,
                    self.voted_for == (if args.term > old(self).term {
                        Option::<usize>::None
                    } else {
                        old(self).voted_for
                    }),
                    self.last_included_index == lii,
                    self.last_included_term == old(self).last_included_term,
                    self.snapshot@ == old(self).snapshot@,
                    self.commit_index == old(self).commit_index,
                    self.last_applied == old(self).last_applied,
                    self.pending_snapshot == old(self).pending_snapshot,
                    self.me == old(self).me,
                    self.n == old(self).n,
                    self.next_index@ == old(self).next_index@,
                    self.match_index@ == old(self).match_index@,
                    self.votes@ == old(self).votes@,
                    self.leader_hint == (if args.leader_id < old(self).n {
                        args.leader_id as int
                    } else {
                        old(self).leader_hint as int
                    }),
                    self.leader_hint < self.n && self.n == old(self).n,
                    old(self).wf(),
                    lii <= eff_prev,
                    pos0 == eff_prev - lii,
                    d <= k < elen,
                    p0 == pos0 + (k as int - d),
                    eff_prev == args.prev_log_index + d,
                    args.prev_log_index + args.entries@.len() + 1 <= u64::MAX,
                    0 <= p0 <= cur.len(),
                    cur.len() + lii + 1 <= u64::MAX,
                    self.log@.len() == p0 + (j - k),
                decreases elen - j,
            {
                proof {
                    assert(j < args.entries@.len());
                }
                let jj = j as usize;
                let e = &args.entries[jj];
                let data = copy_bytes(&e.data);
                let ghost pre_log = self.log@;
                self.log.push(LogEntry { term: e.term, data });
                proof {
                    lemma_log_view_push(pre_log, self.log@.last());
                    assert(self.log@ == pre_log.push(self.log@.last()));
                    assert(le_view(self.log@.last()) == log_view(args.entries@)[j as int]);
                    assert(log_view(args.entries@).subrange(k as int, j as int + 1)
                        =~= log_view(args.entries@).subrange(k as int, j as int).push(
                            log_view(args.entries@)[j as int],
                        ));
                    assert(log_view(self.log@) =~= cur.take(p0)
                        + log_view(args.entries@).subrange(k as int, j as int + 1));
                }
                j = j + 1;
            }
            proof {
                assert(log_view(args.entries@).subrange(k as int, elen as int)
                    =~= log_view(args.entries@).skip(k as int));
                assert(log_view(self.log@) =~= cur.take(p0)
                    + log_view(args.entries@).skip(k as int));
                assert(log_view(self.log@) == merge_entries(cur, pos0, ent));
                assert(self.log@.len() == p0 + (elen - k));
                assert(self.last_log_index() == eff_prev + (elen - d));
            }
        } else {
            proof {
                assert(log_view(self.log@) == merge_entries(cur, pos0, ent));
                assert(eff_prev + (elen - d) <= self.last_log_index());
            }
        }
        // Advance the commit index, but never past the vouched-for slot.
        let last_new = args.prev_log_index + elen;
        proof {
            assert(last_new == eff_prev + (elen - d));
            assert(last_new <= self.last_log_index());
        }
        let bound = if args.leader_commit < last_new {
            args.leader_commit
        } else {
            last_new
        };
        if bound > self.commit_index {
            self.commit_index = bound;
        }
        proof {
            assert(self.commit_index == commit_after(*old(self), args));
        }
        AppendEntriesReply {
            term: self.term,
            success: true,
            conflict_term: 0,
            conflict_index: 0,
        }
    }
}

/// How many peers are known to hold slot `target` (the leader itself
/// counts), looking at the first `upto` peers.
pub open spec fn match_count(mi: Seq<u64>, me: int, target: int, upto: int) -> int
    decreases upto,
{
    if upto <= 0 {
        0
    } else {
        match_count(mi, me, target, upto - 1) + if upto - 1 == me || mi[upto - 1] >= target {
            1int
        } else {
            0int
        }
    }
}

/// Whether slot `N` may be committed: it is in the log, carries the
/// current term, and a strict majority holds it.
pub open spec fn commit_ok(s: Raft, mi: Seq<u64>, N: int) -> bool {
    &&& s.last_included_index <= N <= s.last_log_index()
    &&& s.term_at(N) == s.term
    &&& 2 * match_count(mi, s.me as int, N, s.n as int) > s.n
}

/// Whether some slot above the snapshot records term `t`.
pub open spec fn has_term_entry(s: Raft, t: u64) -> bool {
    exists|j: int| s.last_included_index < j <= s.last_log_index() && s.term_at(j) == t
}

impl Raft {
    /// Count the peers known to hold slot `target`, counting ourselves.
    fn count_matches(&self, target: u64) -> (c: usize)
        requires
            self.wf(),
        ensures
            c == match_count(self.match_index@, self.me as int, target as int, self.n as int),
            c <= self.n,
    {
        let mut c: usize = 0;
        let mut i: usize = 0;
        let n = self.n;
        while i < n
            invariant
                self.wf(),
                n == self.n,
                i <= n,
                c == match_count(self.match_index@, self.me as int, target as int, i as int),
                c <= i,
            decreases n - i,
        {
            if i == self.me || self.match_index[i] >= target {
                c = c + 1;
            }
            i = i + 1;
        }
        c
    }

    /// Advance the commit index to the highest slot of the current term
    /// that a strict majority holds; previous-term slots commit only
    /// transitively.
    pub fn advance_commit(&mut self)
        requires
            old(self).wf(),
        ensures
            final(self).wf(),
            final(self).commit_index >= old(self).commit_index,
            final(self).commit_index > old(self).commit_index ==> commit_ok(
                *old(self),
                old(self).match_index@,
                final(self).commit_index as int,
            ),
            forall|N: int| final(self).commit_index < N <= old(self).last_log_index()
                ==> !commit_ok(*old(self), old(self).match_index@, N),
            final(self).term == old(self).term,
            final(self).role == old(self).role,
            final(self).voted_for == old(self).voted_for,
            final(self).log@ == old(self).log@,
            final(self).last_included_index == old(self).last_included_index,
            final(self).last_included_term == old(self).last_included_term,
            final(self).snapshot@ == old(self).snapshot@,
            final(self).last_applied == old(self).last_applied,
            final(self).pending_snapshot == old(self).pending_snapshot,
            final(self).me == old(self).me,
            final(self).n == old(self).n,
            final(self).next_index@ == old(self).next_index@,
            final(self).match_index@ == old(self).match_index@,
            final(self).votes@ == old(self).votes@,
    {
        let lii = self.last_included_index;
        let last = lii + self.log.len() as u64;
        let mut nn: u64 = last;
        while nn > self.commit_index
            invariant
                *self == *old(self),
                self.wf(),
                last == self.last_log_index(),
                self.commit_index <= nn <= last,
                forall|N: int| nn < N <= last
                    ==> !commit_ok(*old(self), old(self).match_index@, N),
            decreases nn,
        {
            if self.term_at_exec(nn) == self.term {
                let c = self.count_matches(nn);
                if c > self.n / 2 {
                    proof {
                        assert(self.n as int == 2 * (self.n as int / 2) + self.n as int % 2);
                        assert(2 * c > self.n);
                    }
                    self.commit_index = nn;
                    return;
                }
                proof {
                    assert(2 * c <= self.n) by {
                        assert(self.n as int == 2 * (self.n as int / 2) + self.n as int % 2);
                    }
                }
            }
            nn = nn - 1;
        }
    }

    /// The AppendEntries message for `peer`, or nothing when the peer is
    /// so far behind that only the snapshot can help.
    pub fn append_entries_args(&self, peer: usize) -> (r: Option<AppendEntriesArgs>)
        requires
            self.wf(),
            peer < self.n,
        ensures
            match r {
                Option::Some(args) => {
                    let next = if self.next_index@[peer as int] > self.last_log_index() + 1 {
                        self.last_log_index() + 1
                    } else {
                        self.next_index@[peer as int] as int
                    };
                    &&& self.next_index@[peer as int] > self.last_included_index
                    &&& args.term == self.term
                    &&& args.leader_id == self.me
                    &&& args.prev_log_index == next - 1
                    &&& args.prev_log_term == self.term_at(next - 1)
                    &&& log_view(args.entries@) == log_view(self.log@).skip(
                        next - 1 - self.last_included_index,
                    )
                    &&& args.leader_commit == self.commit_index
                },
                Option::None => self.next_index@[peer as int] <= self.last_included_index,
            },
    {
        let lii = self.last_included_index;
        let last = lii + self.log.len() as u64;
        let stored = self.next_index[peer];
        if stored <= lii {
            return None;
        }
        let next = if stored > last + 1 { last + 1 } else { stored };
        let prev = next - 1;
        let prev_term = self.term_at_exec(prev);
        let mut entries: Vec<LogEntry> = Vec::new();
        let log_n = self.log.len();
        let mut i = prev;
        while i < last
            invariant
                self.wf(),
                lii == self.last_included_index,
                last == self.last_log_index(),
                log_n == self.log@.len(),
                lii <= prev <= last,
                prev <= i <= last,
                entries@.len() == i - prev,
                forall|q: int| 0 <= q < i - prev
                    ==> le_view(#[trigger] entries@[q]) == le_view(
                        self.log@[prev - lii + q],
                    ),
            decreases last - i,
        {
            proof {
                assert(i - lii < log_n);
            }
            let kidx = (i - lii) as usize;
            let e = &self.log[kidx];
            let data = copy_bytes(&e.data);
            entries.push(LogEntry { term: e.term, data });
            i = i + 1;
        }
        proof {
            assert(log_view(entries@) =~= log_view(self.log@).skip(prev - lii));
        }
        Some(AppendEntriesArgs {
            term: self.term,
            leader_id: self.me,
            prev_log_index: prev,
            prev_log_term: prev_term,
            entries,
            leader_commit: self.commit_index,
        })
    }

    /// Record an AppendEntries reply for the exchange that sent
    /// `n_entries` entries after `prev_log_index`.
    ///
    /// A newer term makes the leader step down. A success moves the
    /// peer's match and next indices forward and tries to advance the
    /// commit index. A refusal backs the peer's next index up by the
    /// conflict hint: to just past our last entry of the hinted term, or
    /// to the hinted index.
    pub fn handle_append_entries_reply(
        &mut self,
        peer: usize,
        prev_log_index: u64,
        n_entries: u64,
        reply: AppendEntriesReply,
    )
        requires
            old(self).wf(),
            peer < old(self).n,
            prev_log_index + n_entries + 1 <= u64::MAX,
        ensures
            final(self).wf(),
            final(self).log@ == old(self).log@,
            final(self).last_included_index == old(self).last_included_index,
            final(self).last_included_term == old(self).last_included_term,
            final(self).snapshot@ == old(self).snapshot@,
            final(self).last_applied == old(self).last_applied,
            final(self).pending_snapshot == old(self).pending_snapshot,
            final(self).me == old(self).me,
            final(self).n == old(self).n,
            reply.term > old(self).term ==> {
                &&& final(self).term == reply.term
                &&& final(self).role == Role::Follower
                &&& final(self).voted_for is None
                &&& final(self).commit_index == old(self).commit_index
                &&& final(self).next_index@ == old(self).next_index@
                &&& final(self).match_index@ == old(self).match_index@
            },
            reply.term <= old(self).term ==> {
                &&& final(self).term == old(self).term
                &&& final(self).role == old(self).role
                &&& final(self).voted_for == old(self).voted_for
                &&& if old(self).role == Role::Leader && reply.term == old(self).term {
                    if reply.success {
                        let acked = prev_log_index + n_entries;
                        let capped = if acked > old(self).last_log_index() {
                            old(self).last_log_index()
                        } else {
                            acked as int
                        };
                        let nm = if capped > old(self).match_index@[peer as int] {
                            capped
                        } else {
                            old(self).match_index@[peer as int] as int
                        };
                        &&& final(self).match_index@ == old(self).match_index@.update(
                            peer as int,
                            nm as u64,
                        )
                        &&& final(self).next_index@ == old(self).next_index@.update(
                            peer as int,
                            (nm + 1) as u64,
                        )
                        &&& final(self).commit_index >= old(self).commit_index
                        &&& final(self).commit_index > old(self).commit_index ==> commit_ok(
                            *old(self),
                            old(self).match_index@.update(peer as int, nm as u64),
                            final(self).commit_index as int,
                        )
                        &&& forall|N: int|
                            final(self).commit_index < N <= old(self).last_log_index()
                                ==> !(#[trigger] commit_ok(
                                *old(self),
                                old(self).match_index@.update(peer as int, nm as u64),
                                N,
                            ))
                    } else {
                        &&& final(self).match_index@ == old(self).match_index@
                        &&& final(self).commit_index == old(self).commit_index
                        &&& final(self).next_index@.len() == old(self).n
                        &&& forall|i: int| 0 <= i < old(self).n && i != peer
                            ==> final(self).next_index@[i] == old(self).next_index@[i]
                        &&& {
                            let v = final(self).next_index@[peer as int] as int;
                            if reply.conflict_term != 0
                                && has_term_entry(*old(self), reply.conflict_term) {
                                exists|j: int|
                                    {
                                        &&& old(self).last_included_index < j
                                            <= old(self).last_log_index()
                                        &&& old(self).term_at(j) == reply.conflict_term
                                        &&& v == j + 1
                                        &&& forall|j2: int|
                                            j < j2 <= old(self).last_log_index()
                                                ==> old(self).term_at(j2)
                                                != reply.conflict_term
                                    }
                            } else {
                                v == {
                                    let lo = if reply.conflict_index < 1 {
                                        1int
                                    } else {
                                        reply.conflict_index as int
                                    };
                                    if lo > old(self).last_log_index() + 1 {
                                        old(self).last_log_index() + 1
                                    } else {
                                        lo
                                    }
                                }
                            }
                        }
                    }
                } else {
                    &&& final(self).commit_index == old(self).commit_index
                    &&& final(self).next_index@ == old(self).next_index@
                    &&& final(self).match_index@ == old(self).match_index@
                }
            },
    {
        if reply.term > self.term {
            self.term = reply.term;
            self.role = Role::Follower;
            self.voted_for = None;
            return;
        }
        let is_leader = match self.role {
            Role::Leader => true,
            _ => false,
        };
        if !is_leader || reply.term != self.term {
            return;
        }
        let lii = self.last_included_index;
        let last = lii + self.log.len() as u64;
        if reply.success {
            let acked = prev_log_index + n_entries;
            let capped = if acked > last { last } else { acked };
            let cur = self.match_index[peer];
            let nm = if capped > cur { capped } else { cur };
            proof {
                assert(nm <= last);
            }
            self.match_index[peer] = nm;
            self.next_index[peer] = nm + 1;
            let ghost mid = *self;
            self.advance_commit();
            proof {
                let mi = old(self).match_index@.update(peer as int, nm);
                assert(mid.match_index@ == mi);
                assert forall|N: int| self.commit_index < N <= old(self).last_log_index()
                    implies !(commit_ok(*old(self), mi, N)) by {
                    assert(!commit_ok(mid, mid.match_index@, N));
                    assert(mid.last_log_index() == old(self).last_log_index());
                    if mid.last_included_index <= N <= mid.last_log_index() {
                        assert(mid.term_at(N) == old(self).term_at(N));
                    }
                }
                if self.commit_index > old(self).commit_index {
                    assert(commit_ok(mid, mid.match_index@, self.commit_index as int));
                    assert(mid.term_at(self.commit_index as int)
                        == old(self).term_at(self.commit_index as int));
                    assert(commit_ok(*old(self), mi, self.commit_index as int));
                }
            }
            return;
        }
        // Refused: back up the next index by the conflict hint.
        let mut target: u64 = 0;
        if reply.conflict_term != 0 {
            let mut j = last;
            while j > lii
                invariant_except_break
                    target == 0,
                    forall|j2: int| j < j2 <= last
                        ==> self.term_at(j2) != reply.conflict_term,
                invariant
                    *self == *old(self),
                    self.wf(),
                    lii == self.last_included_index,
                    last == self.last_log_index(),
                    lii <= j <= last,
                ensures
                    target == 0 ==> forall|j2: int| lii < j2 <= last
                        ==> self.term_at(j2) != reply.conflict_term,
                    target != 0 ==> {
                        &&& lii < target <= last
                        &&& self.term_at(target as int) == reply.conflict_term
                        &&& forall|j2: int| target < j2 <= last
                            ==> self.term_at(j2) != reply.conflict_term
                    },
                    *self == *old(self),
                decreases j,
            {
                if self.term_at_exec(j) == reply.conflict_term {
                    target = j;
                    proof {
                        assert(target != 0);
                    }
                    break;
                }
                j = j - 1;
            }
        }
        if target != 0 {
            self.next_index[peer] = target + 1;
        } else {
            proof {
                if reply.conflict_term != 0 {
                    assert(!has_term_entry(*old(self), reply.conflict_term));
                }
            }
            let lo = if reply.conflict_index < 1 { 1 } else { reply.conflict_index };
            let v = if lo > last + 1 { last + 1 } else { lo };
            self.next_index[peer] = v;
        }
    }
}

impl Raft {
    /// The InstallSnapshot message for a peer too far behind.
    pub fn install_snapshot_args(&self) -> (args: InstallSnapshotArgs)
        requires
            self.wf(),
        ensures
            args.term == self.term,
            args.last_included_index == self.last_included_index,
            args.last_included_term == self.last_included_term,
            args.data@ == self.snapshot@,
    {
        InstallSnapshotArgs {
            term: self.term,
            last_included_index: self.last_included_index,
            last_included_term: self.last_included_term,
            data: copy_bytes(&self.snapshot),
        }
    }

    /// Answer an InstallSnapshot RPC.
    ///
    /// A stale term, a snapshot this peer already covers, and one that
    /// contradicts a committed slot are all ignored. Otherwise the
    /// snapshot is adopted: a log that carries the snapshot's last entry
    /// with its term keeps the entries after it, any other log is
    /// discarded, and one delivery of the snapshot on the apply stream
    /// becomes due.
    pub fn handle_install_snapshot(&mut self, args: InstallSnapshotArgs) -> (reply:
        InstallSnapshotReply)
        requires
            old(self).wf(),
            args.last_included_index < u64::MAX,
        ensures
            final(self).wf(),
            reply.term == final(self).term,
            args.term < old(self).term ==> *final(self) == *old(self),
            args.term >= old(self).term ==> {
                &&& final(self).term == args.term
                &&& final(self).role == Role::Follower
                &&& final(self).voted_for == (if args.term > old(self).term {
                    Option::<usize>::None
                } else {
                    old(self).voted_for
                })
                &&& final(self).last_applied == old(self).last_applied
                &&& final(self).next_index@ == old(self).next_index@
                &&& final(self).match_index@ == old(self).match_index@
                &&& final(self).votes@ == old(self).votes@
                &&& final(self).leader_hint == old(self).leader_hint
                &&& final(self).me == old(self).me
                &&& final(self).n == old(self).n
                &&& {
                    let lii = old(self).last_included_index as int;
                    let last = old(self).last_log_index();
                    let new_lii = args.last_included_index as int;
                    let keeps = new_lii <= last && old(self).term_at(new_lii)
                        == args.last_included_term;
                    if new_lii <= lii || (new_lii <= old(self).commit_index && !keeps) {
                        &&& final(self).log@ == old(self).log@
                        &&& final(self).last_included_index == old(self).last_included_index
                        &&& final(self).last_included_term == old(self).last_included_term
                        &&& final(self).snapshot@ == old(self).snapshot@
                        &&& final(self).commit_index == old(self).commit_index
                        &&& final(self).pending_snapshot == old(self).pending_snapshot
                    } else {
                        &&& final(self).last_included_index == args.last_included_index
                        &&& final(self).last_included_term == args.last_included_term
                        &&& final(self).snapshot@ == args.data@
                        &&& final(self).pending_snapshot
                        &&& if keeps {
                            &&& log_view(final(self).log@) == log_view(old(self).log@).skip(
                                new_lii - lii,
                            )
                            &&& final(self).commit_index == (if old(self).commit_index
                                >= args.last_included_index {
                                old(self).commit_index as int
                            } else {
                                new_lii
                            })
                        } else {
                            &&& final(self).log@.len() == 0
                            &&& final(self).commit_index == args.last_included_index
                        }
                    }
                }
            },
    {
        if args.term < self.term {
            return InstallSnapshotReply { term: self.term };
        }
        if args.term > self.term {
            self.term = args.term;
            self.voted_for = None;
        }
        self.role = Role::Follower;
        let lii = self.last_included_index;
        let log_n = self.log.len();
        let last = lii + log_n as u64;
        let new_lii = args.last_included_index;
        let keeps = new_lii <= last
            && (if new_lii >= lii { self.term_at_exec(new_lii) == args.last_included_term } else { false });
        if new_lii <= lii || (new_lii <= self.commit_index && !keeps) {
            return InstallSnapshotReply { term: self.term };
        }
        if keeps {
            // Keep the entries after the snapshot's last slot.
            let mut kept: Vec<LogEntry> = Vec::new();
            let mut i = new_lii;
            while i < last
                invariant
                    self.log@ == old(self).log@,
                    self.last_included_index == lii,
                    log_n == self.log@.len(),
                    last == lii + log_n,
                    lii < new_lii <= last,
                    new_lii <= i <= last,
                    kept@.len() == i - new_lii,
                    forall|q: int| 0 <= q < i - new_lii
                        ==> le_view(#[trigger] kept@[q]) == le_view(
                            self.log@[new_lii - lii + q],
                        ),
                decreases last - i,
            {
                proof {
                    assert(i - lii < log_n);
                }
                let kidx = (i - lii) as usize;
                let e = &self.log[kidx];
                let data = copy_bytes(&e.data);
                kept.push(LogEntry { term: e.term, data });
                i = i + 1;
            }
            proof {
                assert(log_view(kept@) =~= log_view(self.log@).skip(new_lii - lii));
            }
            self.log = kept;
            if self.commit_index < new_lii {
                self.commit_index = new_lii;
            }
        } else {
            self.log = Vec::new();
            self.commit_index = new_lii;
            proof {
                assert(log_view(self.log@) =~= Seq::<(u64, Seq<u8>)>::empty());
            }
        }
        self.last_included_index = new_lii;
        self.last_included_term = args.last_included_term;
        self.snapshot = copy_bytes(&args.data);
        self.pending_snapshot = true;
        InstallSnapshotReply { term: self.term }
    }

    /// The service created a snapshot through `index`: drop the log
    /// prefix it covers and keep the blob.
    pub fn snapshot(&mut self, index: u64, blob: Vec<u8>)
        requires
            old(self).wf(),
            index <= old(self).last_applied,
        ensures
            final(self).wf(),
            index <= old(self).last_included_index ==> *final(self) == *old(self),
            index > old(self).last_included_index ==> {
                &&& final(self).last_included_index == index
                &&& final(self).last_included_term == old(self).term_at(index as int)
                &&& final(self).snapshot@ == blob@
                &&& log_view(final(self).log@) == log_view(old(self).log@).skip(
                    index - old(self).last_included_index,
                )
                &&& final(self).term == old(self).term
                &&& final(self).role == old(self).role
                &&& final(self).voted_for == old(self).voted_for
                &&& final(self).commit_index == old(self).commit_index
                &&& final(self).last_applied == old(self).last_applied
                &&& final(self).pending_snapshot == old(self).pending_snapshot
                &&& final(self).me == old(self).me
                &&& final(self).n == old(self).n
                &&& final(self).next_index@ == old(self).next_index@
                &&& final(self).match_index@ == old(self).match_index@
            },
    {
        let lii = self.last_included_index;
        if index <= lii {
            return;
        }
        proof {
            assert(index <= self.commit_index);
        }
        let log_n = self.log.len();
        let last = lii + log_n as u64;
        let new_term = self.term_at_exec(index);
        let mut kept: Vec<LogEntry> = Vec::new();
        let mut i = index;
        while i < last
            invariant
                self.log@ == old(self).log@,
                self.last_included_index == lii,
                log_n == self.log@.len(),
                last == lii + log_n,
                lii < index <= last,
                index <= i <= last,
                kept@.len() == i - index,
                forall|q: int| 0 <= q < i - index
                    ==> le_view(#[trigger] kept@[q]) == le_view(
                        self.log@[index - lii + q],
                    ),
            decreases last - i,
        {
            proof {
                assert(i - lii < log_n);
            }
            let kidx = (i - lii) as usize;
            let e = &self.log[kidx];
            let data = copy_bytes(&e.data);
            kept.push(LogEntry { term: e.term, data });
            i = i + 1;
        }
        proof {
            assert(log_view(kept@) =~= log_view(self.log@).skip(index - lii));
        }
        self.log = kept;
        self.last_included_index = index;
        self.last_included_term = new_term;
        self.snapshot = blob;
    }

    /// The service acknowledges the snapshot delivered on the apply
    /// stream: adopt it unless something newer was already applied.
    pub fn cond_install_snapshot(&mut self, last_included_term: u64, last_included_index: u64)
        -> (r: bool)
        requires
            old(self).wf(),
        ensures
            final(self).wf(),
            r == (last_included_index > old(self).last_applied && last_included_index
                <= old(self).commit_index),
            r ==> final(self).last_applied == last_included_index,
            !r ==> final(self).last_applied == old(self).last_applied,
            final(self).term == old(self).term,
            final(self).role == old(self).role,
            final(self).voted_for == old(self).voted_for,
            final(self).log@ == old(self).log@,
            final(self).commit_index == old(self).commit_index,
            final(self).last_included_index == old(self).last_included_index,
            final(self).last_included_term == old(self).last_included_term,
            final(self).snapshot@ == old(self).snapshot@,
            final(self).next_index@ == old(self).next_index@,
            final(self).match_index@ == old(self).match_index@,
            final(self).votes@ == old(self).votes@,
            final(self).leader_hint == old(self).leader_hint,
            final(self).me == old(self).me,
            final(self).n == old(self).n,
            r ==> final(self).pending_snapshot == (old(self).pending_snapshot
                && last_included_index < old(self).last_included_index),
            !r ==> final(self).pending_snapshot == old(self).pending_snapshot,
    {
        if last_included_index <= self.last_applied || last_included_index > self.commit_index {
            return false;
        }
        self.last_applied = last_included_index;
        if last_included_index >= self.last_included_index {
            self.pending_snapshot = false;
        }
        true
    }

    /// Hand the next apply-stream message out, strictly in index order:
    /// first any snapshot still due, then the next committed command.
    /// Each command's index is exactly one past the previous delivery —
    /// the stream has no gaps and no duplicates.
    pub fn next_apply(&mut self) -> (r: Option<ApplyMsg>)
        requires
            old(self).wf(),
        ensures
            final(self).wf(),
            final(self).term == old(self).term,
            final(self).role == old(self).role,
            final(self).voted_for == old(self).voted_for,
            final(self).log@ == old(self).log@,
            final(self).commit_index == old(self).commit_index,
            final(self).last_included_index == old(self).last_included_index,
            final(self).last_included_term == old(self).last_included_term,
            final(self).snapshot@ == old(self).snapshot@,
            match r {
                Option::Some(ApplyMsg::Snapshot { data, term, index }) => {
                    &&& old(self).pending_snapshot
                    &&& old(self).last_included_index > old(self).last_applied
                    &&& index == old(self).last_included_index
                    &&& term == old(self).last_included_term
                    &&& data@ == old(self).snapshot@
                    &&& final(self).last_applied == old(self).last_applied
                    &&& final(self).pending_snapshot
                },
                Option::Some(ApplyMsg::Command { data, index }) => {
                    &&& !(old(self).pending_snapshot && old(self).last_included_index
                        > old(self).last_applied)
                    &&& index == old(self).last_applied + 1
                    &&& index <= old(self).commit_index
                    &&& data@ == old(self).log@[index - old(self).last_included_index - 1].data@
                    &&& final(self).last_applied == index
                    &&& !final(self).pending_snapshot
                },
                Option::None => {
                    &&& !(old(self).pending_snapshot && old(self).last_included_index
                        > old(self).last_applied)
                    &&& old(self).last_applied >= old(self).commit_index
                    &&& final(self).last_applied == old(self).last_applied
                    &&& !final(self).pending_snapshot
                },
            },
    {
        if self.pending_snapshot {
            if self.last_included_index > self.last_applied {
                return Some(ApplyMsg::Snapshot {
                    data: copy_bytes(&self.snapshot),
                    term: self.last_included_term,
                    index: self.last_included_index,
                });
            }
            self.pending_snapshot = false;
        }
        if self.last_applied < self.commit_index {
            let i = self.last_applied + 1;
            let lii = self.last_included_index;
            let log_n = self.log.len();
            proof {
                assert(self.last_applied >= lii);
                assert(i - lii - 1 < log_n);
            }
            let kidx = (i - lii - 1) as usize;
            let data = copy_bytes(&self.log[kidx].data);
            self.last_applied = i;
            return Some(ApplyMsg::Command { data, index: i });
        }
        None
    }
}

impl Raft {
    /// Record an InstallSnapshot reply for the snapshot that ended at
    /// `sent_last_included_index`: the peer now holds everything up to
    /// it, so replication resumes just past it.
    pub fn handle_install_snapshot_reply(
        &mut self,
        peer: usize,
        sent_last_included_index: u64,
        reply: InstallSnapshotReply,
    )
        requires
            old(self).wf(),
            peer < old(self).n,
        ensures
            final(self).wf(),
            reply.term > old(self).term ==> {
                &&& final(self).term == reply.term
                &&& final(self).role == Role::Follower
                &&& final(self).voted_for is None
                &&& final(self).next_index@ == old(self).next_index@
                &&& final(self).match_index@ == old(self).match_index@
            },
            reply.term <= old(self).term ==> {
                &&& final(self).term == old(self).term
                &&& final(self).role == old(self).role
                &&& final(self).voted_for == old(self).voted_for
                &&& if old(self).role == Role::Leader {
                    let capped = if sent_last_included_index > old(self).last_log_index() {
                        old(self).last_log_index()
                    } else {
                        sent_last_included_index as int
                    };
                    let nm = if capped > old(self).match_index@[peer as int] {
                        capped
                    } else {
                        old(self).match_index@[peer as int] as int
                    };
                    &&& final(self).match_index@ == old(self).match_index@.update(
                        peer as int,
                        nm as u64,
                    )
                    &&& final(self).next_index@ == old(self).next_index@.update(
                        peer as int,
                        (nm + 1) as u64,
                    )
                } else {
                    &&& final(self).next_index@ == old(self).next_index@
                    &&& final(self).match_index@ == old(self).match_index@
                }
            },
            final(self).log@ == old(self).log@,
            final(self).commit_index == old(self).commit_index,
            final(self).last_included_index == old(self).last_included_index,
            final(self).last_applied == old(self).last_applied,
            final(self).pending_snapshot == old(self).pending_snapshot,
    {
        if reply.term > self.term {
            self.term = reply.term;
            self.role = Role::Follower;
            self.voted_for = None;
            return;
        }
        let is_leader = match self.role {
            Role::Leader => true,
            _ => false,
        };
        if !is_leader {
            return;
        }
        let last = self.last_included_index + self.log.len() as u64;
        let capped = if sent_last_included_index > last { last } else { sent_last_included_index };
        let cur = self.match_index[peer];
        let nm = if capped > cur { capped } else { cur };
        self.match_index[peer] = nm;
        self.next_index[peer] = nm + 1;
    }
}

/// The delivered command indices are contiguous: when each delivery
/// carries the index just past the previous one (`next_apply`'s
/// contract), the k-th delivery after a point of reference `base` has
/// index `base + k + 1` — no gaps and no duplicates.
pub proof fn lemma_apply_stream_no_gaps(base: int, ids: Seq<int>)
    requires
        ids.len() > 0 ==> ids[0] == base + 1,
        forall|k: int| 0 < k < ids.len() ==> (#[trigger] ids[k]) == ids[k - 1] + 1,
    ensures
        forall|k: int| 0 <= k < ids.len() ==> ids[k] == base + k + 1,
    decreases ids.len(),
{
    if ids.len() > 0 {
        lemma_apply_stream_no_gaps(base, ids.drop_last());
        assert forall|k: int| 0 <= k < ids.len() implies ids[k] == base + k + 1 by {
            if k < ids.len() - 1 {
                assert(ids.drop_last()[k] == base + k + 1);
            } else if k > 0 {
                assert(ids.drop_last()[k - 1] == base + k);
            }
        }
    }
}

/// Log matching: if two logs record the same term at some position,
/// they agree on everything up to and including it.
pub open spec fn log_matching(a: Seq<(u64, Seq<u8>)>, b: Seq<(u64, Seq<u8>)>) -> bool {
    forall|i: int|
        0 <= i < a.len() && i < b.len() && (#[trigger] a[i]).0 == (#[trigger] b[i]).0
            ==> a.subrange(0, i + 1) == b.subrange(0, i + 1)
}

/// Agreement: under Log Matching, two replicas that both hold an entry
/// at index `i` with the same term hold the same entry — and the commit
/// rule only commits a slot through the term its leader appended, so two
/// committed slots at one index agree.
pub proof fn lemma_agreement(a: Seq<(u64, Seq<u8>)>, b: Seq<(u64, Seq<u8>)>, i: int)
    requires
        log_matching(a, b),
        0 <= i < a.len(),
        i < b.len(),
        a[i].0 == b[i].0,
    ensures
        a[i] == b[i],
{
    assert(a.subrange(0, i + 1)[i] == b.subrange(0, i + 1)[i]);
}

/// A committed slot is never overwritten: merging entries leaves
/// every slot below the divergence point untouched, and the engine
/// refuses any message whose divergence lies at or below its commit
/// index.
pub proof fn lemma_merge_preserves_prefix(
    cur: Seq<(u64, Seq<u8>)>,
    pos: int,
    ent: Seq<(u64, Seq<u8>)>,
    j: int,
)
    requires
        0 <= pos <= cur.len(),
        0 <= j < cur.len(),
        j < divergence(cur, pos, ent),
    ensures
        merge_entries(cur, pos, ent)[j] == cur[j],
    decreases ent.len(),
{
    if ent.len() == 0 {
    } else if 0 <= pos < cur.len() && cur[pos].0 == ent[0].0 {
        lemma_merge_preserves_prefix(cur, pos + 1, ent.skip(1), j);
    } else {
        assert(divergence(cur, pos, ent) == pos);
        assert(merge_entries(cur, pos, ent) == cur.take(pos) + ent);
        assert((cur.take(pos) + ent)[j] == cur.take(pos)[j]);
    }
}

/// Quorum intersection: two strict majorities of the same group share a
/// peer. With `votes` recording the single candidate each peer voted for
/// in one term, two majority-elected leaders of that term coincide:
/// at most one leader per term.
pub proof fn lemma_at_most_one_leader_per_term(
    n: int,
    quorum_a: Set<int>,
    quorum_b: Set<int>,
    votes: Map<int, int>,
    cand_a: int,
    cand_b: int,
)
    requires
        n >= 1,
        quorum_a.subset_of(vstd::set_lib::set_int_range(0, n)),
        quorum_b.subset_of(vstd::set_lib::set_int_range(0, n)),
        2 * quorum_a.len() > n,
        2 * quorum_b.len() > n,
        forall|p: int| quorum_a.contains(p) ==> votes.contains_key(p) && votes[p] == cand_a,
        forall|p: int| quorum_b.contains(p) ==> votes.contains_key(p) && votes[p] == cand_b,
    ensures
        cand_a == cand_b,
{
    let range = vstd::set_lib::set_int_range(0, n);
    lemma_int_range(0, n);
    lemma_len_subset(quorum_a, range);
    lemma_len_subset(quorum_b, range);
    if cand_a != cand_b {
        assert(quorum_a.disjoint(quorum_b)) by {
            assert forall|p: int| !(quorum_a.contains(p) && quorum_b.contains(p)) by {
                if quorum_a.contains(p) && quorum_b.contains(p) {
                    assert(votes[p] == cand_a && votes[p] == cand_b);
                }
            }
        }
        lemma_disjoint_union_len(quorum_a, quorum_b);
        lemma_len_subset(quorum_a.union(quorum_b), range);
        assert(quorum_a.union(quorum_b).len() <= n);
        assert(2 * quorum_a.len() + 2 * quorum_b.len() > 2 * n);
        assert(false);
    }
}

/// Disjoint finite sets: the union's size is the sum of the sizes.
proof fn lemma_disjoint_union_len<A>(a: Set<A>, b: Set<A>)
    requires
        a.finite(),
        b.finite(),
        a.disjoint(b),
    ensures
        a.union(b).len() == a.len() + b.len(),
    decreases a.len(),
{
    if a.is_empty() {
        assert(a.union(b) =~= b);
    } else {
        let x = a.choose();
        assert(a.contains(x));
        assert(!b.contains(x));
        assert(a.union(b).remove(x) =~= a.remove(x).union(b));
        assert(a.remove(x).disjoint(b));
        lemma_disjoint_union_len(a.remove(x), b);
        assert(a.union(b).contains(x));
        assert(a.union(b).len() == a.union(b).remove(x).len() + 1);
    }
}

} // verus!
