//! The sharded store's replicated state machine.
//!
//! Each replica group owns the shards its configuration assigns to it and
//! answers `WrongGroup` for the rest. A configuration change is adopted as
//! a pending successor; shards are handed over with PutShard / DelShard
//! commands, and the change completes once ownership under the successor
//! matches the shards actually held.

use vstd::prelude::*;
use vstd::string::StrSliceExecFns;
use crate::ctrler::{Config, Gid, N_SHARDS};
use crate::dedup::DedupQueue;
use crate::kv::{append_data, dedup_step, get_value, put_data};
use crate::strmap::StrMap;

pub use crate::kv::Op;

verus! {

/// What the store answers a client or a migrating peer.
pub enum Reply {
    /// Answer to a Get: the stored value, if any.
    Get { value: Option<String> },
    /// The command was applied (or was a duplicate and already had been).
    Done,
    /// This group does not serve the key's shard.
    WrongGroup,
    /// A configuration or migration command that does not fit the group's
    /// current change; the sender retries later.
    WrongCfg,
}

/// A command submitted to a sharded store group.
pub enum Cmd {
    /// A client operation under its request id.
    Client { op: Op },
    /// Adopt the next configuration.
    CfgChange { cfg: Config },
    /// Install a shard handed over by its previous owner.
    PutShard { cfg_num: u64, shard: usize, kv: StrMap },
    /// Drop a shard handed over to its next owner.
    DelShard { cfg_num: u64, shard: usize },
}

/// The first byte of a character's UTF-8 encoding, computed from its
/// code point.
pub open spec fn first_utf8_byte(c: char) -> u8 {
    let cp = c as u32;
    if cp < 0x80 {
        cp as u8
    } else if cp < 0x800 {
        (0xC0u32 | (cp >> 6)) as u8
    } else if cp < 0x10000 {
        (0xE0u32 | (cp >> 12)) as u8
    } else {
        (0xF0u32 | (cp >> 18)) as u8
    }
}

/// The shard a key belongs to: the first byte of its UTF-8 form, modulo
/// the shard count.
pub open spec fn shard_of(key: Seq<char>) -> int {
    if key.len() == 0 {
        0
    } else {
        (first_utf8_byte(key[0]) as int) % (N_SHARDS as int)
    }
}

/// Which shard a key is in.
pub fn key2shard(key: &String) -> (s: usize)
    ensures
        s == shard_of(key@),
        s < N_SHARDS,
{
    if key.as_str().unicode_len() == 0 {
        0
    } else {
        let c = key.as_str().get_char(0);
        let cp = c as u32;
        let b: u8 = if cp < 0x80 {
            cp as u8
        } else if cp < 0x800 {
            proof {
                assert((0xC0u32 | (cp >> 6)) < 0x100) by (bit_vector)
                    requires
                        cp < 0x800,
                ;
            }
            (0xC0u32 | (cp >> 6)) as u8
        } else if cp < 0x10000 {
            proof {
                assert((0xE0u32 | (cp >> 12)) < 0x100) by (bit_vector)
                    requires
                        cp < 0x10000,
                ;
            }
            (0xE0u32 | (cp >> 12)) as u8
        } else {
            proof {
                assert((0xF0u32 | (cp >> 18)) < 0x100) by (bit_vector)
                    requires
                        cp < 0x110000,
                ;
            }
            (0xF0u32 | (cp >> 18)) as u8
        };
        (b as usize) % N_SHARDS
    }
}

/// Whether the shards held match ownership under configuration `c`:
/// the condition for a configuration change to complete, and the steady
/// state of a group.
pub open spec fn handoff_done(shards: Seq<Option<StrMap>>, c: Config, gid: Gid) -> bool {
    forall|sh: int| 0 <= sh < N_SHARDS
        ==> ((c.shards@[sh] == gid) <==> (#[trigger] shards[sh]) is Some)
}

/// The per-group replicated state machine of the sharded store.
pub struct ShardKv {
    /// This replica group's id; never 0.
    pub gid: Gid,
    /// The configuration the group currently operates under.
    pub cfg: Config,
    /// The successor configuration while a change is in flight.
    pub next_cfg: Option<Config>,
    /// One slot per shard; `Some` when this group holds the shard's data.
    pub shards: Vec<Option<StrMap>>,
    /// Recently applied client request ids.
    pub ids: DedupQueue,
}

/// Whether the group may serve a key of shard `sh`: in steady state, its
/// owner under the configuration; during a change, its owner under the
/// successor, provided the data is already here or was here before.
pub open spec fn spec_can_serve(s: ShardKv, sh: int) -> bool {
    match s.next_cfg {
        Option::None => s.cfg.shards@[sh] == s.gid,
        Option::Some(nc) => nc.shards@[sh] == s.gid
            && (s.cfg.shards@[sh] == s.gid || s.shards@[sh] is Some),
    }
}

/// The data of shard `sh`, empty when the shard is not held.
pub open spec fn shard_data(s: ShardKv, sh: int) -> Map<Seq<char>, Seq<char>> {
    match s.shards@[sh] {
        Option::Some(m) => m@,
        Option::None => Map::empty(),
    }
}

impl ShardKv {
    pub open spec fn wf(&self) -> bool {
        &&& self.gid != 0
        &&& self.cfg.wf()
        &&& self.shards@.len() == N_SHARDS
        &&& forall|sh: int| 0 <= sh < N_SHARDS
            ==> ((#[trigger] self.shards@[sh]) matches Option::Some(m) ==> m.wf())
        &&& match self.next_cfg {
            Option::None => handoff_done(self.shards@, self.cfg, self.gid),
            Option::Some(nc) => nc.wf() && nc.num == self.cfg.num + 1,
        }
    }

    /// A fresh group member: configuration 0, no shards, nothing applied.
    pub fn new(gid: Gid) -> (r: ShardKv)
        requires
            gid != 0,
        ensures
            r.wf(),
            r.gid == gid,
            r.cfg.num == 0,
            r.next_cfg is None,
            r.ids@ == Seq::<u64>::empty(),
            forall|sh: int| 0 <= sh < N_SHARDS ==> !((#[trigger] r.shards@[sh]) is Some),
    {
        let mut shards: Vec<Option<StrMap>> = Vec::new();
        let mut sh: usize = 0;
        while sh < N_SHARDS
            invariant
                sh <= N_SHARDS,
                shards@.len() == sh,
                forall|j: int| 0 <= j < sh ==> !((#[trigger] shards@[j]) is Some),
            decreases N_SHARDS - sh,
        {
            shards.push(None);
            sh = sh + 1;
        }
        let r = ShardKv {
            gid,
            cfg: Config::initial(),
            next_cfg: None,
            shards,
            ids: DedupQueue::new(),
        };
        proof {
            assert forall|s: int| 0 <= s < N_SHARDS
                implies ((r.cfg.shards@[s] == r.gid) <==> (#[trigger] r.shards@[s]) is Some) by {
                assert(r.cfg.shards@[s] == 0);
            }
        }
        r
    }

    /// Whether this group serves shard `shard` right now.
    pub fn can_serve(&self, shard: usize) -> (r: bool)
        requires
            self.wf(),
            shard < N_SHARDS,
        ensures
            r == spec_can_serve(*self, shard as int),
    {
        match &self.next_cfg {
            Option::None => self.cfg.shards[shard] == self.gid,
            Option::Some(nc) => nc.shards[shard] == self.gid
                && (self.cfg.shards[shard] == self.gid || self.shards[shard].is_some()),
        }
    }
}

/// Whether the hand-over for configuration `nc` is complete.
fn handoff_check(shards: &Vec<Option<StrMap>>, nc: &Config, gid: Gid) -> (r: bool)
    requires
        nc.wf(),
        shards@.len() == N_SHARDS,
    ensures
        r == handoff_done(shards@, *nc, gid),
{
    let mut sh: usize = 0;
    while sh < N_SHARDS
        invariant
            nc.wf(),
            shards@.len() == N_SHARDS,
            sh <= N_SHARDS,
            forall|j: int| 0 <= j < sh
                ==> ((nc.shards@[j] == gid) <==> (#[trigger] shards@[j]) is Some),
        decreases N_SHARDS - sh,
    {
        let owns = nc.shards[sh] == gid;
        let held = shards[sh].is_some();
        if owns != held {
            return false;
        }
        sh = sh + 1;
    }
    true
}

impl ShardKv {
    /// Complete the pending change when every shard has been handed over.
    fn maybe_finish(&mut self)
        requires
            old(self).wf(),
        ensures
            final(self).wf(),
            final(self).gid == old(self).gid,
            final(self).ids@ == old(self).ids@,
            final(self).shards@ == old(self).shards@,
            match old(self).next_cfg {
                Option::Some(nc) => {
                    if handoff_done(old(self).shards@, nc, old(self).gid) {
                        final(self).cfg == nc && final(self).next_cfg is None
                    } else {
                        final(self).cfg == old(self).cfg
                            && final(self).next_cfg == old(self).next_cfg
                    }
                },
                Option::None => final(self).cfg == old(self).cfg
                    && final(self).next_cfg == old(self).next_cfg,
            },
    {
        let done = match &self.next_cfg {
            Option::Some(nc) => handoff_check(&self.shards, nc, self.gid),
            Option::None => false,
        };
        if done {
            let mut tmp: Option<Config> = None;
            core::mem::swap(&mut tmp, &mut self.next_cfg);
            match tmp {
                Option::Some(nc) => {
                    self.cfg = nc;
                }
                Option::None => {
                    proof {
                        assert(false);
                    }
                }
            }
        }
    }
}

/// Whether an incoming configuration has the right shape to be adopted.
fn config_shape_ok(c: &Config) -> (r: bool)
    ensures
        r == c.wf(),
{
    if c.shards.len() != N_SHARDS {
        return false;
    }
    let n = c.groups.len();
    let mut i: usize = 0;
    while i < n
        invariant
            n == c.groups@.len(),
            i <= n,
            c.shards@.len() == N_SHARDS,
            forall|j: int| 0 <= j < i ==> c.groups@[j].0 != 0,
            forall|j: int| 0 < j < i ==> (#[trigger] c.groups@[j]).0 > c.groups@[j - 1].0,
        decreases n - i,
    {
        if c.groups[i].0 == 0 {
            return false;
        }
        if i > 0 && c.groups[i - 1].0 >= c.groups[i].0 {
            return false;
        }
        i = i + 1;
    }
    proof {
        assert forall|a: int, b: int| 0 <= a < b < n implies c.groups@[a].0 < c.groups@[b].0 by {
            assert forall|j: int| a <= j < b implies (#[trigger] c.groups@[j]).0 < c.groups@[j + 1].0 by {
                assert(c.groups@[(j + 1) - 1].0 < c.groups@[j + 1].0);
            }
            lemma_chain_lt(c.groups@, a, b);
        }
    }
    true
}

/// Strict order between neighbours chains to strict order between any
/// two positions.
proof fn lemma_chain_lt(gs: Seq<(Gid, Vec<String>)>, a: int, b: int)
    requires
        0 <= a < b < gs.len(),
        forall|j: int| a <= j < b ==> (#[trigger] gs[j].0) < gs[j + 1].0,
    ensures
        gs[a].0 < gs[b].0,
    decreases b - a,
{
    if a + 1 < b {
        lemma_chain_lt(gs, a + 1, b);
    }
}

/// What a client operation leaves behind and answers.
///
/// A key the group does not serve is answered `WrongGroup` and nothing
/// changes; so is one whose shard data is not held right now (mid-change,
/// after the shard was handed away). A served Get answers the stored
/// value; a served Put or Append records the request id, mutates its
/// shard only when the id is fresh, and answers `Done`.
pub open spec fn client_post(pre: ShardKv, post: ShardKv, id: u64, op: Op, r: Reply) -> bool {
    &&& post.gid == pre.gid
    &&& post.cfg == pre.cfg
    &&& post.next_cfg == pre.next_cfg
    &&& post.shards@.len() == N_SHARDS
    &&& match op {
        Op::Get { key } => {
            &&& post.shards@ == pre.shards@
            &&& post.ids@ == pre.ids@
            &&& if spec_can_serve(pre, shard_of(key@)) && pre.shards@[shard_of(key@)] is Some {
                match r {
                    Reply::Get { value } => match value {
                        Option::Some(v) => get_value(shard_data(pre, shard_of(key@)), key@)
                            == Option::Some(v@),
                        Option::None => get_value(shard_data(pre, shard_of(key@)), key@) is None,
                    },
                    _ => false,
                }
            } else {
                r == Reply::WrongGroup
            }
        },
        Op::Put { key, value } => {
            if spec_can_serve(pre, shard_of(key@)) && pre.shards@[shard_of(key@)] is Some {
                let sh = shard_of(key@);
                &&& r == Reply::Done
                &&& forall|j: int| 0 <= j < N_SHARDS && j != sh
                    ==> post.shards@[j] == pre.shards@[j]
                &&& post.shards@[sh] is Some
                &&& (shard_data(post, sh), post.ids@) == dedup_step(
                    shard_data(pre, sh),
                    pre.ids@,
                    id,
                    put_data(shard_data(pre, sh), key@, value@),
                )
            } else {
                &&& r == Reply::WrongGroup
                &&& post.shards@ == pre.shards@
                &&& post.ids@ == pre.ids@
            }
        },
        Op::Append { key, value } => {
            if spec_can_serve(pre, shard_of(key@)) && pre.shards@[shard_of(key@)] is Some {
                let sh = shard_of(key@);
                &&& r == Reply::Done
                &&& forall|j: int| 0 <= j < N_SHARDS && j != sh
                    ==> post.shards@[j] == pre.shards@[j]
                &&& post.shards@[sh] is Some
                &&& (shard_data(post, sh), post.ids@) == dedup_step(
                    shard_data(pre, sh),
                    pre.ids@,
                    id,
                    append_data(shard_data(pre, sh), key@, value@),
                )
            } else {
                &&& r == Reply::WrongGroup
                &&& post.shards@ == pre.shards@
                &&& post.ids@ == pre.ids@
            }
        },
    }
}

/// What adopting a configuration leaves behind and answers.
///
/// A malformed or out-of-order configuration, or one arriving while a
/// change is in flight, is refused with `WrongCfg`. The first
/// configuration is adopted at once, with empty data for each owned
/// shard; a later one becomes the pending successor, completing
/// immediately when no shard needs to move.
pub open spec fn cfg_change_post(pre: ShardKv, post: ShardKv, new_cfg: Config, r: Reply) -> bool {
    &&& post.gid == pre.gid
    &&& post.ids@ == pre.ids@
    &&& if !new_cfg.wf() || !(pre.next_cfg is None) || new_cfg.num != pre.cfg.num + 1 {
        &&& r == Reply::WrongCfg
        &&& post.cfg == pre.cfg
        &&& post.next_cfg == pre.next_cfg
        &&& post.shards@ == pre.shards@
    } else if pre.cfg.num == 0 {
        &&& r == Reply::Done
        &&& post.cfg == new_cfg
        &&& post.next_cfg is None
        &&& post.shards@.len() == N_SHARDS
        &&& forall|sh: int| 0 <= sh < N_SHARDS
            ==> (((#[trigger] post.shards@[sh]) is Some) <==> new_cfg.shards@[sh] == pre.gid)
        &&& forall|sh: int| 0 <= sh < N_SHARDS
            ==> shard_data(post, sh) == Map::<Seq<char>, Seq<char>>::empty()
    } else {
        &&& r == Reply::Done
        &&& post.shards@ == pre.shards@
        &&& if handoff_done(pre.shards@, new_cfg, pre.gid) {
            post.cfg == new_cfg && post.next_cfg is None
        } else {
            post.cfg == pre.cfg && post.next_cfg == Option::Some(new_cfg)
        }
    }
}

/// What installing a handed-over shard leaves behind and answers.
///
/// Stale hand-overs (an earlier configuration) are already settled and
/// answered `Done`; ones this group is not ready for are refused with
/// `WrongCfg`. A fresh one installs the data and may complete the
/// change; one already held changes nothing.
pub open spec fn put_shard_post(
    pre: ShardKv,
    post: ShardKv,
    cfg_num: u64,
    shard: int,
    kv: StrMap,
    r: Reply,
) -> bool {
    &&& post.gid == pre.gid
    &&& post.ids@ == pre.ids@
    &&& if shard >= N_SHARDS || (cfg_num >= pre.cfg.num && (cfg_num > pre.cfg.num
        || pre.next_cfg is None)) {
        &&& r == Reply::WrongCfg
        &&& post.cfg == pre.cfg
        &&& post.next_cfg == pre.next_cfg
        &&& post.shards@ == pre.shards@
    } else if cfg_num < pre.cfg.num || pre.shards@[shard] is Some {
        &&& r == Reply::Done
        &&& post.cfg == pre.cfg
        &&& post.next_cfg == pre.next_cfg
        &&& post.shards@ == pre.shards@
    } else {
        let mid = pre.shards@.update(shard, Option::Some(kv));
        &&& r == Reply::Done
        &&& post.shards@ == mid
        &&& match pre.next_cfg {
            Option::Some(nc) => {
                if handoff_done(mid, nc, pre.gid) {
                    post.cfg == nc && post.next_cfg is None
                } else {
                    post.cfg == pre.cfg && post.next_cfg == pre.next_cfg
                }
            },
            Option::None => false,
        }
    }
}

/// What dropping a handed-over shard leaves behind and answers.
pub open spec fn del_shard_post(
    pre: ShardKv,
    post: ShardKv,
    cfg_num: u64,
    shard: int,
    r: Reply,
) -> bool {
    &&& post.gid == pre.gid
    &&& post.ids@ == pre.ids@
    &&& if shard >= N_SHARDS || (cfg_num >= pre.cfg.num && (cfg_num > pre.cfg.num
        || pre.next_cfg is None)) {
        &&& r == Reply::WrongCfg
        &&& post.cfg == pre.cfg
        &&& post.next_cfg == pre.next_cfg
        &&& post.shards@ == pre.shards@
    } else if cfg_num < pre.cfg.num || pre.shards@[shard] is None {
        &&& r == Reply::Done
        &&& post.cfg == pre.cfg
        &&& post.next_cfg == pre.next_cfg
        &&& post.shards@ == pre.shards@
    } else {
        let mid = pre.shards@.update(shard, Option::None);
        &&& r == Reply::Done
        &&& post.shards@ == mid
        &&& match pre.next_cfg {
            Option::Some(nc) => {
                if handoff_done(mid, nc, pre.gid) {
                    post.cfg == nc && post.next_cfg is None
                } else {
                    post.cfg == pre.cfg && post.next_cfg == pre.next_cfg
                }
            },
            Option::None => false,
        }
    }
}

impl ShardKv {
    /// Apply one client operation under request id `id`; see `client_post`.
    pub fn apply_client(&mut self, id: u64, op: Op) -> (r: Reply)
        requires
            old(self).wf(),
        ensures
            final(self).wf(),
            client_post(*old(self), *final(self), id, op, r),
    {
        match op {
            Op::Get { key } => {
                let sh = key2shard(&key);
                if !self.can_serve(sh) {
                    return Reply::WrongGroup;
                }
                match &self.shards[sh] {
                    Option::Some(m) => {
                        match m.get(&key) {
                            Option::Some(v) => Reply::Get { value: Some(v.clone()) },
                            Option::None => Reply::Get { value: None },
                        }
                    }
                    Option::None => Reply::WrongGroup,
                }
            }
            Op::Put { key, value } => {
                let sh = key2shard(&key);
                if !self.can_serve(sh) || self.shards[sh].is_none() {
                    return Reply::WrongGroup;
                }
                let fresh = self.ids.note(id);
                if fresh {
                    match &mut self.shards[sh] {
                        Option::Some(m) => {
                            m.put(key, value);
                        }
                        Option::None => {
                            proof {
                                assert(false);
                            }
                        }
                    }
                }
                Reply::Done
            }
            Op::Append { key, value } => {
                let sh = key2shard(&key);
                if !self.can_serve(sh) || self.shards[sh].is_none() {
                    return Reply::WrongGroup;
                }
                let fresh = self.ids.note(id);
                if fresh {
                    match &mut self.shards[sh] {
                        Option::Some(m) => {
                            m.append(key, value);
                        }
                        Option::None => {
                            proof {
                                assert(false);
                            }
                        }
                    }
                }
                Reply::Done
            }
        }
    }
}

impl ShardKv {
    /// Adopt a configuration; see `cfg_change_post`.
    pub fn apply_cfg_change(&mut self, new_cfg: Config) -> (r: Reply)
        requires
            old(self).wf(),
        ensures
            final(self).wf(),
            cfg_change_post(*old(self), *final(self), new_cfg, r),
    {
        let shape_ok = config_shape_ok(&new_cfg);
        let in_order = new_cfg.num >= 1 && new_cfg.num - 1 == self.cfg.num;
        let busy = self.next_cfg.is_some();
        if !shape_ok || busy || !in_order {
            return Reply::WrongCfg;
        }
        if self.cfg.num == 0 {
            self.cfg = new_cfg;
            let mut sh: usize = 0;
            while sh < N_SHARDS
                invariant
                    self.gid == old(self).gid,
                    self.gid != 0,
                    self.cfg == new_cfg,
                    self.cfg.wf(),
                    self.next_cfg is None,
                    self.ids@ == old(self).ids@,
                    self.shards@.len() == N_SHARDS,
                    sh <= N_SHARDS,
                    forall|j: int| 0 <= j < sh
                        ==> (((#[trigger] self.shards@[j]) is Some)
                            <==> new_cfg.shards@[j] == self.gid),
                    forall|j: int| 0 <= j < sh
                        ==> ((#[trigger] self.shards@[j]) matches Option::Some(m)
                            ==> m.wf() && m@ == Map::<Seq<char>, Seq<char>>::empty()),
                decreases N_SHARDS - sh,
            {
                if self.cfg.shards[sh] == self.gid {
                    self.shards[sh] = Some(StrMap::new());
                } else {
                    self.shards[sh] = None;
                }
                sh = sh + 1;
            }
            return Reply::Done;
        }
        self.next_cfg = Some(new_cfg);
        self.maybe_finish();
        Reply::Done
    }

    /// Install a shard handed over by its previous owner; see
    /// `put_shard_post`.
    pub fn apply_put_shard(&mut self, cfg_num: u64, shard: usize, kv: StrMap) -> (r: Reply)
        requires
            old(self).wf(),
            kv.wf(),
        ensures
            final(self).wf(),
            put_shard_post(*old(self), *final(self), cfg_num, shard as int, kv, r),
    {
        if shard >= N_SHARDS {
            return Reply::WrongCfg;
        }
        if cfg_num < self.cfg.num {
            return Reply::Done;
        }
        let ready = match &self.next_cfg {
            Option::Some(_) => cfg_num == self.cfg.num,
            Option::None => false,
        };
        if !ready {
            return Reply::WrongCfg;
        }
        if self.shards[shard].is_some() {
            return Reply::Done;
        }
        self.shards[shard] = Some(kv);
        self.maybe_finish();
        Reply::Done
    }

    /// Drop a shard handed over to its next owner; see `del_shard_post`.
    pub fn apply_del_shard(&mut self, cfg_num: u64, shard: usize) -> (r: Reply)
        requires
            old(self).wf(),
        ensures
            final(self).wf(),
            del_shard_post(*old(self), *final(self), cfg_num, shard as int, r),
    {
        if shard >= N_SHARDS {
            return Reply::WrongCfg;
        }
        if cfg_num < self.cfg.num {
            return Reply::Done;
        }
        let ready = match &self.next_cfg {
            Option::Some(_) => cfg_num == self.cfg.num,
            Option::None => false,
        };
        if !ready {
            return Reply::WrongCfg;
        }
        if self.shards[shard].is_none() {
            return Reply::Done;
        }
        self.shards[shard] = None;
        self.maybe_finish();
        Reply::Done
    }

    /// Apply one command under request id `id`: the single entry the
    /// replicated service drives with each committed log entry.
    pub fn apply(&mut self, id: u64, cmd: Cmd) -> (r: Reply)
        requires
            old(self).wf(),
            cmd matches Cmd::PutShard { kv, .. } ==> kv.wf(),
        ensures
            final(self).wf(),
            match cmd {
                Cmd::Client { op } => client_post(*old(self), *final(self), id, op, r),
                Cmd::CfgChange { cfg } => cfg_change_post(*old(self), *final(self), cfg, r),
                Cmd::PutShard { cfg_num, shard, kv } => put_shard_post(
                    *old(self),
                    *final(self),
                    cfg_num,
                    shard as int,
                    kv,
                    r,
                ),
                Cmd::DelShard { cfg_num, shard } => del_shard_post(
                    *old(self),
                    *final(self),
                    cfg_num,
                    shard as int,
                    r,
                ),
            },
    {
        match cmd {
            Cmd::Client { op } => self.apply_client(id, op),
            Cmd::CfgChange { cfg } => self.apply_cfg_change(cfg),
            Cmd::PutShard { cfg_num, shard, kv } => self.apply_put_shard(cfg_num, shard, kv),
            Cmd::DelShard { cfg_num, shard } => self.apply_del_shard(cfg_num, shard),
        }
    }
}

impl ShardKv {
    /// Whether the background task should submit the controller's next
    /// configuration: it is the direct successor and no change is in
    /// flight.
    pub fn should_adopt(&self, next_num: u64) -> (r: bool)
        ensures
            r == (self.next_cfg is None && next_num == self.cfg.num + 1),
    {
        self.next_cfg.is_none() && next_num >= 1 && next_num - 1 == self.cfg.num
    }

    /// The shards this group must hand over under the pending change:
    /// exactly those it holds that the successor assigns elsewhere, each
    /// with its destination group.
    pub fn outgoing_shards(&self) -> (r: Vec<(usize, Gid)>)
        requires
            self.wf(),
        ensures
            forall|q: int| 0 <= q < r@.len() ==> {
                let (sh, dst) = #[trigger] r@[q];
                &&& sh < N_SHARDS
                &&& self.shards@[sh as int] is Some
                &&& match self.next_cfg {
                    Option::Some(nc) => nc.shards@[sh as int] == dst && dst != self.gid,
                    Option::None => false,
                }
            },
            forall|sh: int| 0 <= sh < N_SHARDS
                && (#[trigger] self.shards@[sh]) is Some
                && (match self.next_cfg {
                    Option::Some(nc) => nc.shards@[sh] != self.gid,
                    Option::None => false,
                })
                ==> exists|q: int| 0 <= q < r@.len() && r@[q].0 == sh,
    {
        let mut r: Vec<(usize, Gid)> = Vec::new();
        match &self.next_cfg {
            Option::None => {}
            Option::Some(nc) => {
                let mut sh: usize = 0;
                while sh < N_SHARDS
                    invariant
                        self.wf(),
                        self.next_cfg == Option::Some(*nc),
                        nc.shards@.len() == N_SHARDS,
                        sh <= N_SHARDS,
                        forall|q: int| 0 <= q < r@.len() ==> {
                            let (s2, dst) = #[trigger] r@[q];
                            &&& s2 < N_SHARDS
                            &&& self.shards@[s2 as int] is Some
                            &&& nc.shards@[s2 as int] == dst
                            &&& dst != self.gid
                        },
                        forall|s2: int| 0 <= s2 < sh
                            && (#[trigger] self.shards@[s2]) is Some
                            && nc.shards@[s2] != self.gid
                            ==> exists|q: int| 0 <= q < r@.len() && r@[q].0 == s2,
                    decreases N_SHARDS - sh,
                {
                    let dst = nc.shards[sh];
                    let ghost pre = r@;
                    let pushed = dst != self.gid && self.shards[sh].is_some();
                    if pushed {
                        r.push((sh, dst));
                    }
                    proof {
                        assert forall|s2: int| 0 <= s2 < sh + 1
                            && (#[trigger] self.shards@[s2]) is Some
                            && nc.shards@[s2] != self.gid
                            implies exists|q: int| 0 <= q < r@.len() && r@[q].0 == s2 by {
                            if s2 < sh {
                                let q = choose|q: int| 0 <= q < pre.len() && pre[q].0 == s2;
                                assert(r@[q] == pre[q]);
                            } else {
                                assert(pushed);
                                assert(r@[pre.len() as int].0 == sh);
                            }
                        }
                    }
                    sh = sh + 1;
                }
            }
        }
        r
    }
}

/// Key locality: in steady state, of two groups under the same shard
/// table, at most one serves a given key, and the key's owner serves it.
pub proof fn lemma_key_locality(a: ShardKv, b: ShardKv, key: Seq<char>)
    requires
        a.wf(),
        b.wf(),
        a.gid != b.gid,
        a.next_cfg is None,
        b.next_cfg is None,
        a.cfg.shards@ == b.cfg.shards@,
    ensures
        !(spec_can_serve(a, shard_of(key)) && spec_can_serve(b, shard_of(key))),
        a.cfg.shards@[shard_of(key)] == a.gid ==> spec_can_serve(a, shard_of(key)),
{
    if key.len() > 0 {
        assert(0 <= (key[0] as int) % (N_SHARDS as int) < N_SHARDS as int);
    }
}

} // verus!
