//! The shard controller's replicated state machine.
//!
//! Its state is an append-only sequence of configurations. A configuration
//! assigns each of the `N_SHARDS` shards to a replica group, and Join /
//! Leave / Move / Query commands produce successor configurations. The
//! rebalancing rule is deterministic, so every replica computes the same
//! next state.

use vstd::prelude::*;
use vstd::arithmetic::div_mod::lemma_fundamental_div_mod;

verus! {

/// Identifier of a replica group; 0 means "unassigned".
pub type Gid = u64;

/// How many shards the key space is split into.
pub const N_SHARDS: usize = 10;

/// One configuration: a monotone number, the shard ownership table, and
/// the peer addresses of every replica group, kept sorted by group id.
pub struct Config {
    pub num: u64,
    pub shards: Vec<Gid>,
    pub groups: Vec<(Gid, Vec<String>)>,
}

/// Group ids are sorted strictly ascending; 0 never names a group.
pub open spec fn groups_sorted(gs: Seq<(Gid, Vec<String>)>) -> bool {
    &&& forall|i: int, j: int| 0 <= i < j < gs.len() ==> gs[i].0 < gs[j].0
    &&& forall|i: int| 0 <= i < gs.len() ==> gs[i].0 != 0
}

/// Whether some group carries the id `g`.
pub open spec fn groups_has(gs: Seq<(Gid, Vec<String>)>, g: Gid) -> bool {
    exists|i: int| 0 <= i < gs.len() && gs[i].0 == g
}

/// The position of the group with id `g`.
pub open spec fn groups_at(gs: Seq<(Gid, Vec<String>)>, g: Gid) -> int {
    choose|i: int| 0 <= i < gs.len() && gs[i].0 == g
}

/// The abstract group table: group id to peer addresses.
pub open spec fn groups_map(gs: Seq<(Gid, Vec<String>)>) -> Map<Gid, Seq<String>> {
    Map::new(|g: Gid| groups_has(gs, g), |g: Gid| gs[groups_at(gs, g)].1@)
}

/// How many shards `g` owns in the table `shards`.
pub open spec fn count_owned(shards: Seq<Gid>, g: Gid) -> int
    decreases shards.len(),
{
    if shards.len() == 0 {
        0
    } else {
        count_owned(shards.drop_last(), g) + if shards.last() == g { 1int } else { 0int }
    }
}

/// The number of shards group rank `r` is owed when `k` groups share the
/// space: an even split, with the remainder going to the lowest group ids.
pub open spec fn shard_target(k: int, r: int) -> int {
    (N_SHARDS as int) / k + if r < (N_SHARDS as int) % k { 1int } else { 0int }
}

/// Every group owns exactly its target; with no groups, nothing is owned.
pub open spec fn well_balanced(c: Config) -> bool {
    forall|r: int| 0 <= r < c.groups@.len()
        ==> count_owned(c.shards@, c.groups@[r].0) == shard_target(c.groups@.len() as int, r)
}

/// Every shard is owned by a present group.
pub open spec fn owners_present(c: Config) -> bool {
    forall|s: int| 0 <= s < c.shards@.len() ==> groups_has(c.groups@, #[trigger] c.shards@[s])
}

impl Config {
    pub open spec fn wf(&self) -> bool {
        &&& self.shards@.len() == N_SHARDS
        &&& groups_sorted(self.groups@)
    }

    /// The abstract group table of this configuration.
    pub open spec fn gmap(&self) -> Map<Gid, Seq<String>> {
        groups_map(self.groups@)
    }

    /// The configuration every cluster starts from: number 0, no groups,
    /// every shard unassigned.
    pub fn initial() -> (c: Config)
        ensures
            c.wf(),
            c.num == 0,
            c.groups@.len() == 0,
            c.shards@ == Seq::new(N_SHARDS as nat, |s: int| 0u64),
    {
        let mut shards: Vec<Gid> = Vec::new();
        let mut s: usize = 0;
        while s < N_SHARDS
            invariant
                s <= N_SHARDS,
                shards@.len() == s,
                forall|j: int| 0 <= j < s ==> shards@[j] == 0u64,
            decreases N_SHARDS - s,
        {
            shards.push(0);
            s = s + 1;
        }
        let c = Config { num: 0, shards, groups: Vec::new() };
        proof {
            assert(c.shards@ =~= Seq::new(N_SHARDS as nat, |s: int| 0u64));
        }
        c
    }

    /// A deep copy with the same number, shard table and group table.
    pub fn duplicate(&self) -> (r: Config)
        requires
            self.wf(),
        ensures
            r.wf(),
            r.num == self.num,
            r.shards@ == self.shards@,
            r.groups@.len() == self.groups@.len(),
            forall|i: int| 0 <= i < self.groups@.len()
                ==> r.groups@[i].0 == self.groups@[i].0 && r.groups@[i].1@ == self.groups@[i].1@,
            r.gmap() == self.gmap(),
    {
        let mut shards: Vec<Gid> = Vec::new();
        let mut s: usize = 0;
        while s < self.shards.len()
            invariant
                s <= self.shards@.len(),
                shards@.len() == s,
                forall|j: int| 0 <= j < s ==> shards@[j] == self.shards@[j],
            decreases self.shards@.len() - s,
        {
            shards.push(self.shards[s]);
            s = s + 1;
        }
        let mut groups: Vec<(Gid, Vec<String>)> = Vec::new();
        let mut i: usize = 0;
        while i < self.groups.len()
            invariant
                i <= self.groups@.len(),
                groups@.len() == i,
                forall|j: int| 0 <= j < i
                    ==> groups@[j].0 == self.groups@[j].0 && groups@[j].1@ == self.groups@[j].1@,
            decreases self.groups@.len() - i,
        {
            let gid = self.groups[i].0;
            let mut peers: Vec<String> = Vec::new();
            let src = &self.groups[i].1;
            let mut p: usize = 0;
            while p < src.len()
                invariant
                    p <= src@.len(),
                    peers@.len() == p,
                    forall|q: int| 0 <= q < p ==> peers@[q] == src@[q],
                decreases src@.len() - p,
            {
                peers.push(src[p].clone());
                p = p + 1;
            }
            proof {
                assert(peers@ =~= src@);
            }
            groups.push((gid, peers));
            i = i + 1;
        }
        let r = Config { num: self.num, shards, groups };
        proof {
            assert(r.shards@ =~= self.shards@);
            assert forall|g: Gid| groups_has(r.groups@, g) == groups_has(self.groups@, g) by {
                if groups_has(r.groups@, g) {
                    let w = choose|w: int| 0 <= w < r.groups@.len() && r.groups@[w].0 == g;
                    assert(self.groups@[w].0 == g);
                }
                if groups_has(self.groups@, g) {
                    let w = choose|w: int| 0 <= w < self.groups@.len() && self.groups@[w].0 == g;
                    assert(r.groups@[w].0 == g);
                }
            }
            assert forall|g: Gid| #[trigger] r.gmap().contains_key(g) || self.gmap().contains_key(g)
                implies r.gmap().contains_key(g) && self.gmap().contains_key(g)
                    && r.gmap()[g] == self.gmap()[g] by {
                let wr = groups_at(r.groups@, g);
                let ws = groups_at(self.groups@, g);
                assert(r.groups@[wr].0 == g);
                assert(self.groups@[ws].0 == g);
                assert(r.groups@[ws].0 == g);
                lemma_sorted_unique(r.groups@, wr, ws);
            }
            assert(r.gmap() =~= self.gmap());
        }
        r
    }
}

/// In a sorted group table two positions with the same id coincide.
proof fn lemma_sorted_unique(gs: Seq<(Gid, Vec<String>)>, i: int, j: int)
    requires
        groups_sorted(gs),
        0 <= i < gs.len(),
        0 <= j < gs.len(),
        gs[i].0 == gs[j].0,
    ensures
        i == j,
{
}

/// Counting one more table slot adds one exactly for the owner of that slot.
proof fn lemma_count_take_step(s: Seq<Gid>, g: Gid, i: int)
    requires
        0 <= i < s.len(),
    ensures
        count_owned(s.take(i + 1), g)
            == count_owned(s.take(i), g) + if s[i] == g { 1int } else { 0int },
{
    assert(s.take(i + 1).drop_last() =~= s.take(i));
    assert(s.take(i + 1).last() == s[i]);
}

/// A group that owns no slot counts zero.
proof fn lemma_count_absent(s: Seq<Gid>, g: Gid)
    requires
        forall|j: int| 0 <= j < s.len() ==> s[j] != g,
    ensures
        count_owned(s, g) == 0,
    decreases s.len(),
{
    if s.len() > 0 {
        lemma_count_absent(s.drop_last(), g);
    }
}

/// The sum of the remaining quotas.
pub open spec fn nat_sum(s: Seq<usize>) -> int
    decreases s.len(),
{
    if s.len() == 0 {
        0
    } else {
        nat_sum(s.drop_last()) + s.last()
    }
}

proof fn lemma_nat_sum_push(s: Seq<usize>, x: usize)
    ensures
        nat_sum(s.push(x)) == nat_sum(s) + x,
{
    assert(s.push(x).drop_last() =~= s);
}

proof fn lemma_nat_sum_update(s: Seq<usize>, r: int, v: usize)
    requires
        0 <= r < s.len(),
    ensures
        nat_sum(s.update(r, v)) == nat_sum(s) - s[r] + v,
    decreases s.len(),
{
    if r == s.len() - 1 {
        assert(s.update(r, v).drop_last() =~= s.drop_last());
        assert(s.update(r, v).last() == v);
    } else {
        assert(s.update(r, v).drop_last() =~= s.drop_last().update(r, v));
        assert(s.update(r, v).last() == s.last());
        lemma_nat_sum_update(s.drop_last(), r, v);
    }
}

proof fn lemma_nat_sum_nonneg(s: Seq<usize>)
    ensures
        nat_sum(s) >= 0,
    decreases s.len(),
{
    if s.len() > 0 {
        lemma_nat_sum_nonneg(s.drop_last());
    }
}

/// A positive sum means some quota is positive.
proof fn lemma_nat_sum_positive(s: Seq<usize>)
    requires
        nat_sum(s) > 0,
    ensures
        exists|r: int| 0 <= r < s.len() && s[r] > 0,
    decreases s.len(),
{
    if s.len() > 0 {
        if s.last() > 0 {
            assert(s[s.len() - 1] > 0);
        } else {
            lemma_nat_sum_positive(s.drop_last());
            let r = choose|r: int| 0 <= r < s.len() - 1 && s.drop_last()[r] > 0;
            assert(s[r] > 0);
        }
    }
}

/// A zero sum of quotas means every quota is zero.
proof fn lemma_nat_sum_zero(s: Seq<usize>)
    requires
        nat_sum(s) == 0,
    ensures
        forall|r: int| 0 <= r < s.len() ==> s[r] == 0,
    decreases s.len(),
{
    if s.len() > 0 {
        lemma_nat_sum_nonneg(s.drop_last());
        lemma_nat_sum_zero(s.drop_last());
        assert forall|r: int| 0 <= r < s.len() implies s[r] == 0 by {
            if r < s.len() - 1 {
                assert(s.drop_last()[r] == 0);
            }
        }
    }
}

/// The rank of the group owning id `g`, if present.
fn find_rank(groups: &Vec<(Gid, Vec<String>)>, g: Gid) -> (r: Option<usize>)
    ensures
        match r {
            Option::Some(i) => i < groups@.len() && groups@[i as int].0 == g,
            Option::None => !groups_has(groups@, g),
        },
{
    let mut i: usize = 0;
    while i < groups.len()
        invariant
            i <= groups@.len(),
            forall|j: int| 0 <= j < i ==> groups@[j].0 != g,
        decreases groups@.len() - i,
    {
        if groups[i].0 == g {
            return Some(i);
        }
        i = i + 1;
    }
    None
}

/// The lowest rank whose quota is still positive.
fn find_first_positive(remain: &Vec<usize>) -> (r: usize)
    requires
        exists|j: int| 0 <= j < remain@.len() && remain@[j] > 0,
    ensures
        r < remain@.len(),
        remain@[r as int] > 0,
        forall|j: int| 0 <= j < r ==> remain@[j] == 0,
{
    let mut i: usize = 0;
    while i < remain.len()
        invariant
            i <= remain@.len(),
            exists|j: int| 0 <= j < remain@.len() && remain@[j] > 0,
            forall|j: int| 0 <= j < i ==> remain@[j] == 0,
        decreases remain@.len() - i,
    {
        if remain[i] > 0 {
            return i;
        }
        i = i + 1;
    }
    proof {
        let j = choose|j: int| 0 <= j < remain@.len() && remain@[j] > 0;
        assert(false);
    }
    0
}

impl Config {
    /// Redistribute the shards over the present groups.
    ///
    /// Each group keeps as many of its current shards as its quota allows;
    /// surplus shards, and shards of absent groups, go to the lowest group
    /// id with remaining quota. With no groups, the table is untouched.
    pub fn rebalance(&mut self)
        requires
            old(self).wf(),
        ensures
            final(self).wf(),
            final(self).num == old(self).num,
            final(self).groups@ == old(self).groups@,
            old(self).groups@.len() == 0
                ==> final(self).shards@ == Seq::new(N_SHARDS as nat, |s: int| 0u64),
            old(self).groups@.len() > 0 ==> well_balanced(*final(self)) && owners_present(*final(self)),
            // An owner is deposed only once its whole quota already
            // stands among the shards up to and including this one: an
            // incumbent with quota left keeps its shard.
            old(self).groups@.len() > 0 ==> forall|s: int|
                0 <= s < N_SHARDS && groups_has(old(self).groups@, old(self).shards@[s])
                    && final(self).shards@[s] != old(self).shards@[s]
                    ==> count_owned(final(self).shards@.take(s + 1), #[trigger] old(self).shards@[s])
                        == shard_target(
                        old(self).groups@.len() as int,
                        groups_at(old(self).groups@, old(self).shards@[s]),
                    ),
            // A reassigned shard goes to the lowest group id with quota
            // left: every lower rank is already full at that point.
            old(self).groups@.len() > 0 ==> forall|s: int, r: int|
                0 <= s < N_SHARDS && final(self).shards@[s] != old(self).shards@[s] && 0 <= r
                    < groups_at(old(self).groups@, final(self).shards@[s])
                    ==> #[trigger] count_owned(
                    final(self).shards@.take(s + 1),
                    old(self).groups@[r].0,
                ) == shard_target(old(self).groups@.len() as int, r),
    {
        let k = self.groups.len();
        if k == 0 {
            let mut s: usize = 0;
            while s < self.shards.len()
                invariant
                    self.shards@.len() == old(self).shards@.len(),
                    self.groups@ == old(self).groups@,
                    self.num == old(self).num,
                    s <= self.shards@.len(),
                    forall|j: int| 0 <= j < s ==> self.shards@[j] == 0u64,
                decreases self.shards@.len() - s,
            {
                self.shards[s] = 0;
                s = s + 1;
            }
            proof {
                assert(self.shards@ =~= Seq::new(N_SHARDS as nat, |s: int| 0u64));
            }
            return;
        }
        let base = N_SHARDS / k;
        let rem = N_SHARDS % k;
        let ghost gs = old(self).groups@;

        // Build the quota table: target(r) = base, plus one for the first
        // `rem` ranks.
        let mut remain: Vec<usize> = Vec::new();
        let mut r: usize = 0;
        while r < k
            invariant
                r <= k,
                k == gs.len(),
                base == N_SHARDS / k,
                rem == N_SHARDS % k,
                remain@.len() == r,
                forall|j: int| 0 <= j < r
                    ==> remain@[j] == shard_target(k as int, j),
                nat_sum(remain@) == (base * r) + if r <= rem { r as int } else { rem as int },
            decreases k - r,
        {
            let q = if r < rem { base + 1 } else { base };
            proof {
                lemma_nat_sum_push(remain@, q);
                assert((base as int) * ((r + 1) as int) == (base as int) * (r as int) + base as int)
                    by (nonlinear_arith);
            }
            remain.push(q);
            r = r + 1;
        }
        proof {
            lemma_fundamental_div_mod(N_SHARDS as int, k as int);
            assert(rem < k) by {
                assert((N_SHARDS as int) % (k as int) < k as int);
            }
            assert(nat_sum(remain@) == (base as int) * (k as int) + rem as int);
            assert((base as int) * (k as int) == (k as int) * (base as int)) by (nonlinear_arith);
            assert(nat_sum(remain@) == N_SHARDS as int);
        }

        // Walk the shard table, keeping owners while their quota lasts.
        let mut s: usize = 0;
        while s < self.shards.len()
            invariant
                self.wf(),
                self.groups@ == gs,
                self.num == old(self).num,
                k == gs.len(),
                k > 0,
                self.shards@.len() == N_SHARDS,
                s <= N_SHARDS,
                remain@.len() == k,
                forall|rr: int| 0 <= rr < k
                    ==> remain@[rr] == shard_target(k as int, rr)
                        - count_owned(self.shards@.take(s as int), gs[rr].0),
                nat_sum(remain@) == N_SHARDS as int - s,
                forall|j: int| 0 <= j < s ==> groups_has(gs, #[trigger] self.shards@[j]),
                forall|j: int| 0 <= j < s && groups_has(gs, old(self).shards@[j])
                    && self.shards@[j] != old(self).shards@[j]
                    ==> count_owned(self.shards@.take(j + 1), #[trigger] old(self).shards@[j])
                        == shard_target(k as int, groups_at(gs, old(self).shards@[j])),
                forall|j: int, r: int|
                    0 <= j < s && self.shards@[j] != old(self).shards@[j] && 0 <= r
                        < groups_at(gs, self.shards@[j])
                        ==> #[trigger] count_owned(self.shards@.take(j + 1), gs[r].0)
                            == shard_target(k as int, r),
                forall|j: int| s <= j < N_SHARDS
                    ==> #[trigger] self.shards@[j] == old(self).shards@[j],
            decreases N_SHARDS - s,
        {
            let ghost pre_shards = self.shards@;
            let ghost pre_remain = remain@;
            let owner = self.shards[s];
            let rank = find_rank(&self.groups, owner);
            let mut done = false;
            let mut chosen: usize = 0;
            match rank {
                Some(i) => {
                    if remain[i] > 0 {
                        done = true;
                        chosen = i;
                    }
                }
                None => {}
            }
            if !done {
                proof {
                    lemma_nat_sum_positive(remain@);
                }
                let i = find_first_positive(&remain);
                self.shards[s] = self.groups[i].0;
                chosen = i;
            }
            let q = remain[chosen];
            remain[chosen] = q - 1;
            proof {
                let ci = chosen as int;
                let si = s as int;
                lemma_nat_sum_update(pre_remain, ci, (q - 1) as usize);
                assert(self.shards@.take(si) =~= pre_shards.take(si));
                assert forall|rr: int| 0 <= rr < k
                    implies remain@[rr] == shard_target(k as int, rr)
                        - count_owned(self.shards@.take(si + 1), gs[rr].0) by {
                    lemma_count_take_step(self.shards@, gs[rr].0, si);
                    if rr != ci {
                        assert(gs[rr].0 != gs[ci].0) by {
                            if gs[rr].0 == gs[ci].0 {
                                lemma_sorted_unique(gs, rr, ci);
                            }
                        }
                    }
                }
                assert(groups_has(gs, self.shards@[si]));
                // The walk rules: prefix claims carry over, and a
                // reassignment at this slot only happens once the old
                // owner's quota — and every lower rank's — is spent.
                assert forall|j: int| 0 <= j < si + 1 && groups_has(gs, old(self).shards@[j])
                    && self.shards@[j] != old(self).shards@[j]
                    implies count_owned(self.shards@.take(j + 1), old(self).shards@[j])
                        == shard_target(k as int, groups_at(gs, old(self).shards@[j])) by {
                    if j < si {
                        assert(self.shards@.take(j + 1) =~= pre_shards.take(j + 1));
                    } else {
                        assert(!done) by {
                            if done {
                                assert(self.shards@[si] == pre_shards[si]);
                            }
                        }
                        let g0 = old(self).shards@[si];
                        let ri = groups_at(gs, g0);
                        assert(gs[ri].0 == g0);
                        match rank {
                            Option::Some(i2) => {
                                assert(gs[i2 as int].0 == g0);
                                lemma_sorted_unique(gs, i2 as int, ri);
                                assert(pre_remain[ri] == 0);
                            }
                            Option::None => {
                                assert(false);
                            }
                        }
                        assert(count_owned(pre_shards.take(si), g0)
                            == shard_target(k as int, ri));
                        assert(gs[ci].0 != g0) by {
                            if gs[ci].0 == g0 {
                                lemma_sorted_unique(gs, ci, ri);
                            }
                        }
                        lemma_count_take_step(self.shards@, g0, si);
                        assert(self.shards@.take(si) =~= pre_shards.take(si));
                    }
                }
                assert forall|j: int, r: int|
                    0 <= j < si + 1 && self.shards@[j] != old(self).shards@[j] && 0 <= r
                        < groups_at(gs, self.shards@[j])
                        implies count_owned(self.shards@.take(j + 1), gs[r].0)
                            == shard_target(k as int, r) by {
                    if j < si {
                        assert(self.shards@.take(j + 1) =~= pre_shards.take(j + 1));
                    } else {
                        assert(!done) by {
                            if done {
                                assert(self.shards@[si] == pre_shards[si]);
                            }
                        }
                        assert(self.shards@[si] == gs[ci].0);
                        assert(groups_at(gs, gs[ci].0) == ci) by {
                            let w = groups_at(gs, gs[ci].0);
                            assert(gs[w].0 == gs[ci].0);
                            lemma_sorted_unique(gs, w, ci);
                        }
                        assert(r < ci);
                        assert(pre_remain[r] == 0);
                        assert(count_owned(pre_shards.take(si), gs[r].0)
                            == shard_target(k as int, r));
                        assert(gs[r].0 != gs[ci].0) by {
                            if gs[r].0 == gs[ci].0 {
                                lemma_sorted_unique(gs, r, ci);
                            }
                        }
                        lemma_count_take_step(self.shards@, gs[r].0, si);
                        assert(self.shards@.take(si) =~= pre_shards.take(si));
                    }
                }
            }
            s = s + 1;
        }
        proof {
            assert(nat_sum(remain@) == 0);
            lemma_nat_sum_zero(remain@);
            assert(self.shards@.take(N_SHARDS as int) =~= self.shards@);
            assert forall|rr: int| 0 <= rr < k
                implies count_owned(final(self).shards@, gs[rr].0)
                    == shard_target(k as int, rr) by {
                assert(remain@[rr] == 0);
            }
        }
    }
}

/// Sharding balance: once a configuration is rebalanced, no group owns
/// more than one shard above any other present group.
pub proof fn lemma_sharding_balance(c: Config, r1: int, r2: int)
    requires
        c.wf(),
        well_balanced(c),
        0 <= r1 < c.groups@.len(),
        0 <= r2 < c.groups@.len(),
    ensures
        count_owned(c.shards@, c.groups@[r1].0) <= count_owned(c.shards@, c.groups@[r2].0) + 1,
{
    let k = c.groups@.len() as int;
    assert(count_owned(c.shards@, c.groups@[r1].0) == shard_target(k, r1));
    assert(count_owned(c.shards@, c.groups@[r2].0) == shard_target(k, r2));
}

/// A group absent from the configuration owns no shards: after a Leave
/// settles, the departed groups hold nothing.
pub proof fn lemma_absent_owns_nothing(c: Config, g: Gid)
    requires
        c.wf(),
        owners_present(c),
        !groups_has(c.groups@, g),
    ensures
        count_owned(c.shards@, g) == 0,
{
    lemma_count_absent(c.shards@, g);
}


/// The group table after merging `input` into `m`, later entries winning;
/// entries with group id 0 are ignored.
pub open spec fn joined_map(m: Map<Gid, Seq<String>>, input: Seq<(Gid, Vec<String>)>) -> Map<Gid, Seq<String>>
    decreases input.len(),
{
    if input.len() == 0 {
        m
    } else {
        let rest = joined_map(m, input.drop_last());
        if input.last().0 == 0 {
            rest
        } else {
            rest.insert(input.last().0, input.last().1@)
        }
    }
}

/// The group table after removing every id in `gids` from `m`.
pub open spec fn left_map(m: Map<Gid, Seq<String>>, gids: Seq<u64>) -> Map<Gid, Seq<String>>
    decreases gids.len(),
{
    if gids.len() == 0 {
        m
    } else {
        left_map(m, gids.drop_last()).remove(gids.last())
    }
}

/// Replacing the peers of the group at `w` updates the table at its id alone.
proof fn lemma_groups_update(pre: Seq<(Gid, Vec<String>)>, post: Seq<(Gid, Vec<String>)>, w: int)
    requires
        groups_sorted(pre),
        0 <= w < pre.len(),
        post.len() == pre.len(),
        post[w].0 == pre[w].0,
        forall|j: int| 0 <= j < pre.len() && j != w ==> post[j] == pre[j],
    ensures
        groups_sorted(post),
        groups_map(post) == groups_map(pre).insert(pre[w].0, post[w].1@),
{
    let g0 = pre[w].0;
    assert forall|i: int, j: int| 0 <= i < j < post.len() implies post[i].0 < post[j].0 by {
        assert(pre[i].0 == post[i].0);
        assert(pre[j].0 == post[j].0);
    }
    assert forall|i: int| 0 <= i < post.len() implies post[i].0 != 0 by {
        assert(pre[i].0 == post[i].0);
    }
    assert forall|q: Gid| groups_has(post, q) == groups_has(pre, q) by {
        if groups_has(post, q) {
            let i = choose|i: int| 0 <= i < post.len() && post[i].0 == q;
            assert(pre[i].0 == q);
        }
        if groups_has(pre, q) {
            let i = choose|i: int| 0 <= i < pre.len() && pre[i].0 == q;
            assert(post[i].0 == q);
        }
    }
    assert forall|q: Gid| #[trigger] groups_has(post, q)
        implies groups_map(post)[q] == groups_map(pre).insert(g0, post[w].1@)[q] by {
        let i = groups_at(post, q);
        assert(0 <= i < post.len() && post[i].0 == q);
        let ip = groups_at(pre, q);
        assert(pre[ip].0 == q);
        assert(post[ip].0 == q);
        lemma_sorted_unique(post, i, ip);
        if q == g0 {
            lemma_sorted_unique(pre, ip, w);
        } else {
            assert(i != w);
            assert(post[i] == pre[i]);
        }
    }
    assert(groups_map(post) =~= groups_map(pre).insert(g0, post[w].1@));
}

/// Inserting a new group at its sorted position adds its binding.
proof fn lemma_groups_insert(pre: Seq<(Gid, Vec<String>)>, post: Seq<(Gid, Vec<String>)>, w: int)
    requires
        groups_sorted(pre),
        0 <= w <= pre.len(),
        post == pre.insert(w, post[w]),
        post[w].0 != 0,
        forall|j: int| 0 <= j < w ==> pre[j].0 < post[w].0,
        forall|j: int| w <= j < pre.len() ==> pre[j].0 > post[w].0,
    ensures
        groups_sorted(post),
        groups_map(post) == groups_map(pre).insert(post[w].0, post[w].1@),
{
    let g0 = post[w].0;
    assert(post.len() == pre.len() + 1);
    assert forall|j: int| 0 <= j < post.len() && j != w
        implies post[j] == (if j < w { pre[j] } else { pre[j - 1] }) by {}
    assert forall|i: int, j: int| 0 <= i < j < post.len() implies post[i].0 < post[j].0 by {}
    assert forall|i: int| 0 <= i < post.len() implies post[i].0 != 0 by {}
    assert forall|q: Gid| #[trigger] groups_has(post, q) implies groups_has(pre, q) || q == g0 by {
        let i = groups_at(post, q);
        assert(0 <= i < post.len() && post[i].0 == q);
        if i != w {
            if i < w {
                assert(pre[i].0 == q);
            } else {
                assert(pre[i - 1].0 == q);
            }
        }
    }
    assert forall|q: Gid| groups_has(pre, q) || q == g0 implies groups_has(post, q) by {
        if q == g0 {
            assert(post[w].0 == q);
        } else if groups_has(pre, q) {
            let i = choose|i: int| 0 <= i < pre.len() && pre[i].0 == q;
            if i < w {
                assert(post[i].0 == q);
            } else {
                assert(post[i + 1].0 == q);
            }
        }
    }
    assert forall|q: Gid| #[trigger] groups_has(post, q)
        implies groups_map(post)[q] == groups_map(pre).insert(g0, post[w].1@)[q] by {
        let i = groups_at(post, q);
        assert(0 <= i < post.len() && post[i].0 == q);
        if q == g0 {
            lemma_sorted_unique(post, i, w);
        } else {
            assert(i != w);
            if i < w {
                assert(post[i] == pre[i]);
                let ip = groups_at(pre, q);
                assert(pre[ip].0 == q);
                if ip < w {
                    assert(post[ip].0 == q);
                    lemma_sorted_unique(post, i, ip);
                    assert(groups_map(post)[q] == pre[ip].1@);
                } else {
                    assert(post[ip + 1].0 == q);
                    lemma_sorted_unique(post, i, ip + 1);
                }
            } else {
                assert(post[i] == pre[i - 1]);
                let ip = groups_at(pre, q);
                assert(pre[ip].0 == q);
                if ip < w {
                    assert(post[ip].0 == q);
                    lemma_sorted_unique(post, i, ip);
                } else {
                    assert(post[ip + 1].0 == q);
                    lemma_sorted_unique(post, i, ip + 1);
                }
            }
        }
    }
    assert(groups_map(post) =~= groups_map(pre).insert(g0, post[w].1@));
}

/// Removing the group at `w` removes its binding and nothing else.
proof fn lemma_groups_remove(pre: Seq<(Gid, Vec<String>)>, post: Seq<(Gid, Vec<String>)>, w: int)
    requires
        groups_sorted(pre),
        0 <= w < pre.len(),
        post == pre.remove(w),
    ensures
        groups_sorted(post),
        groups_map(post) == groups_map(pre).remove(pre[w].0),
{
    let g0 = pre[w].0;
    assert(post.len() == pre.len() - 1);
    assert forall|j: int| 0 <= j < post.len()
        implies post[j] == (if j < w { pre[j] } else { pre[j + 1] }) by {}
    assert forall|i: int, j: int| 0 <= i < j < post.len() implies post[i].0 < post[j].0 by {}
    assert forall|i: int| 0 <= i < post.len() implies post[i].0 != 0 by {}
    assert forall|q: Gid| #[trigger] groups_has(post, q) implies groups_has(pre, q) && q != g0 by {
        let i = groups_at(post, q);
        assert(0 <= i < post.len() && post[i].0 == q);
        if i < w {
            assert(pre[i].0 == q);
            if q == g0 {
                lemma_sorted_unique(pre, i, w);
            }
        } else {
            assert(pre[i + 1].0 == q);
            if q == g0 {
                lemma_sorted_unique(pre, i + 1, w);
            }
        }
    }
    assert forall|q: Gid| groups_has(pre, q) && q != g0 implies groups_has(post, q) by {
        let i = choose|i: int| 0 <= i < pre.len() && pre[i].0 == q;
        assert(i != w);
        if i < w {
            assert(post[i].0 == q);
        } else {
            assert(post[i - 1].0 == q);
        }
    }
    assert forall|q: Gid| #[trigger] groups_has(post, q)
        implies groups_map(post)[q] == groups_map(pre).remove(g0)[q] by {
        let i = groups_at(post, q);
        assert(0 <= i < post.len() && post[i].0 == q);
        let ip = groups_at(pre, q);
        assert(pre[ip].0 == q);
        if i < w {
            lemma_sorted_unique(pre, i, ip);
        } else {
            lemma_sorted_unique(pre, i + 1, ip);
        }
    }
    assert(groups_map(post) =~= groups_map(pre).remove(g0));
}

impl Config {
    /// Add or replace the group `gid`, keeping the table sorted.
    pub fn upsert_group(&mut self, gid: Gid, peers: Vec<String>)
        requires
            old(self).wf(),
            gid != 0,
        ensures
            final(self).wf(),
            final(self).num == old(self).num,
            final(self).shards@ == old(self).shards@,
            final(self).gmap() == old(self).gmap().insert(gid, peers@),
            final(self).groups@.len() <= old(self).groups@.len() + 1,
    {
        let ghost pre = old(self).groups@;
        let n = self.groups.len();
        let mut i: usize = 0;
        while i < n && self.groups[i].0 < gid
            invariant
                pre == old(self).groups@,
                groups_sorted(pre),
                self.groups@ == pre,
                n == pre.len(),
                i <= n,
                forall|j: int| 0 <= j < i ==> pre[j].0 < gid,
            decreases n - i,
        {
            i = i + 1;
        }
        if i < n && self.groups[i].0 == gid {
            self.groups[i].1 = peers;
            proof {
                lemma_groups_update(pre, self.groups@, i as int);
            }
        } else {
            proof {
                assert forall|j: int| i <= j < pre.len() implies pre[j].0 > gid by {
                    if j == i {
                        assert(pre[j].0 != gid && !(pre[j].0 < gid));
                    } else {
                        assert(pre[i as int].0 > gid || pre[i as int].0 == gid || pre[i as int].0 < gid);
                        assert(pre[i as int].0 < pre[j].0);
                    }
                }
            }
            self.groups.insert(i, (gid, peers));
            proof {
                lemma_groups_insert(pre, self.groups@, i as int);
            }
        }
    }

    /// Remove the group `gid` if present.
    pub fn remove_group(&mut self, gid: Gid)
        requires
            old(self).wf(),
        ensures
            final(self).wf(),
            final(self).num == old(self).num,
            final(self).shards@ == old(self).shards@,
            final(self).gmap() == old(self).gmap().remove(gid),
    {
        let ghost pre = old(self).groups@;
        let rank = find_rank(&self.groups, gid);
        match rank {
            Some(i) => {
                self.groups.remove(i);
                proof {
                    lemma_groups_remove(pre, self.groups@, i as int);
                }
            }
            None => {
                proof {
                    assert(!self.gmap().contains_key(gid));
                    assert(self.gmap() =~= self.gmap().remove(gid));
                }
            }
        }
    }

    /// Merge a joining batch into the group table, later entries winning;
    /// ids of 0 never name a group and are ignored.
    pub fn join_groups(&mut self, input: &Vec<(Gid, Vec<String>)>)
        requires
            old(self).wf(),
        ensures
            final(self).wf(),
            final(self).num == old(self).num,
            final(self).shards@ == old(self).shards@,
            final(self).gmap() == joined_map(old(self).gmap(), input@),
    {
        let n = input.len();
        let mut i: usize = 0;
        while i < n
            invariant
                self.wf(),
                n == input@.len(),
                i <= n,
                self.num == old(self).num,
                self.shards@ == old(self).shards@,
                self.gmap() == joined_map(old(self).gmap(), input@.take(i as int)),
            decreases n - i,
        {
            let gid = input[i].0;
            proof {
                assert(input@.take(i + 1).drop_last() =~= input@.take(i as int));
                assert(input@.take(i + 1).last() == input@[i as int]);
            }
            if gid != 0 {
                let src = &input[i].1;
                let mut peers: Vec<String> = Vec::new();
                let mut p: usize = 0;
                while p < src.len()
                    invariant
                        p <= src@.len(),
                        peers@.len() == p,
                        forall|q: int| 0 <= q < p ==> peers@[q] == src@[q],
                    decreases src@.len() - p,
                {
                    peers.push(src[p].clone());
                    p = p + 1;
                }
                proof {
                    assert(peers@ =~= src@);
                }
                self.upsert_group(gid, peers);
            }
            i = i + 1;
        }
        proof {
            assert(input@.take(n as int) =~= input@);
        }
    }

    /// Remove every group named in `gids`.
    pub fn leave_groups(&mut self, gids: &Vec<u64>)
        requires
            old(self).wf(),
        ensures
            final(self).wf(),
            final(self).num == old(self).num,
            final(self).shards@ == old(self).shards@,
            final(self).gmap() == left_map(old(self).gmap(), gids@),
    {
        let n = gids.len();
        let mut i: usize = 0;
        while i < n
            invariant
                self.wf(),
                n == gids@.len(),
                i <= n,
                self.num == old(self).num,
                self.shards@ == old(self).shards@,
                self.gmap() == left_map(old(self).gmap(), gids@.take(i as int)),
            decreases n - i,
        {
            proof {
                assert(gids@.take(i + 1).drop_last() =~= gids@.take(i as int));
                assert(gids@.take(i + 1).last() == gids@[i as int]);
            }
            self.remove_group(gids[i]);
            i = i + 1;
        }
        proof {
            assert(gids@.take(n as int) =~= gids@);
        }
    }
}


/// A command to the shard controller.
pub enum Op {
    /// Read the configuration with the given number, clamped to the newest.
    Query { num: u64 },
    /// Add replica groups and rebalance.
    Join { groups: Vec<(Gid, Vec<String>)> },
    /// Remove replica groups and rebalance.
    Leave { gids: Vec<u64> },
    /// Reassign one shard by hand; no rebalance.
    Move { shard: usize, gid: Gid },
}

/// The position answering a query for configuration `num`: clamped to the
/// newest configuration.
pub open spec fn query_index(len: int, num: u64) -> int {
    if num as int >= len - 1 {
        len - 1
    } else {
        num as int
    }
}

/// The shard controller's state: the append-only configuration history
/// and the dedup record of applied request ids.
pub struct ShardInfo {
    pub config: Vec<Config>,
    pub ids: crate::dedup::DedupQueue,
}

impl ShardInfo {
    /// The history never empties and configuration numbers equal positions.
    pub open spec fn wf(&self) -> bool {
        &&& self.config@.len() >= 1
        &&& forall|i: int| 0 <= i < self.config@.len()
            ==> (#[trigger] self.config@[i]).wf() && self.config@[i].num == i
    }

    /// The newest configuration.
    pub open spec fn last_cfg(&self) -> Config {
        self.config@.last()
    }
}

impl Default for ShardInfo {
    /// The starting state: only the empty configuration, nothing applied.
    fn default() -> (r: ShardInfo)
        ensures
            r.wf(),
            r.config@.len() == 1,
            r.config@[0].groups@.len() == 0,
            r.config@[0].shards@ == Seq::new(N_SHARDS as nat, |s: int| 0u64),
            r.ids@ == Seq::<u64>::empty(),
    {
        let mut config: Vec<Config> = Vec::new();
        config.push(Config::initial());
        ShardInfo { config, ids: crate::dedup::DedupQueue::new() }
    }
}

impl ShardInfo {
    /// Apply one command, recording its request id.
    ///
    /// A Query is answered from the history and never suppressed. Join,
    /// Leave and Move append a successor configuration exactly when the
    /// request id is fresh (and, for Move, the shard index is in range);
    /// Join and Leave rebalance, Move does not.
    pub fn apply(&mut self, id: u64, cmd: Op) -> (r: Option<Config>)
        requires
            old(self).wf(),
        ensures
            final(self).wf(),
            final(self).ids@ == crate::dedup::evicted(old(self).ids@).push(id),
            match cmd {
                Op::Query { num } => {
                    &&& final(self).config@ == old(self).config@
                    &&& match r {
                        Option::Some(c) => {
                            let q = query_index(old(self).config@.len() as int, num);
                            &&& c.num == old(self).config@[q].num
                            &&& c.shards@ == old(self).config@[q].shards@
                            &&& c.gmap() == old(self).config@[q].gmap()
                        },
                        Option::None => false,
                    }
                },
                Op::Join { groups } => {
                    &&& r is None
                    &&& old(self).ids@.contains(id) ==> final(self).config@ == old(self).config@
                    &&& !old(self).ids@.contains(id) ==> {
                        let c = final(self).last_cfg();
                        &&& final(self).config@ == old(self).config@.push(c)
                        &&& c.num == old(self).config@.len()
                        &&& c.gmap() == joined_map(old(self).last_cfg().gmap(), groups@)
                        &&& c.groups@.len() > 0 ==> well_balanced(c) && owners_present(c)
                        &&& c.groups@.len() == 0
                            ==> c.shards@ == Seq::new(N_SHARDS as nat, |s: int| 0u64)
                    }
                },
                Op::Leave { gids } => {
                    &&& r is None
                    &&& old(self).ids@.contains(id) ==> final(self).config@ == old(self).config@
                    &&& !old(self).ids@.contains(id) ==> {
                        let c = final(self).last_cfg();
                        &&& final(self).config@ == old(self).config@.push(c)
                        &&& c.num == old(self).config@.len()
                        &&& c.gmap() == left_map(old(self).last_cfg().gmap(), gids@)
                        &&& c.groups@.len() > 0 ==> well_balanced(c) && owners_present(c)
                        &&& c.groups@.len() == 0
                            ==> c.shards@ == Seq::new(N_SHARDS as nat, |s: int| 0u64)
                    }
                },
                Op::Move { shard, gid } => {
                    &&& r is None
                    &&& old(self).ids@.contains(id) || shard >= N_SHARDS
                        ==> final(self).config@ == old(self).config@
                    &&& !old(self).ids@.contains(id) && shard < N_SHARDS ==> {
                        let c = final(self).last_cfg();
                        &&& final(self).config@ == old(self).config@.push(c)
                        &&& c.num == old(self).config@.len()
                        &&& c.gmap() == old(self).last_cfg().gmap()
                        &&& c.shards@ == old(self).last_cfg().shards@.update(shard as int, gid)
                    }
                },
            },
    {
        let fresh = self.ids.note(id);
        let len = self.config.len();
        match cmd {
            Op::Query { num } => {
                let q = if num >= (len - 1) as u64 { len - 1 } else { num as usize };
                Some(self.config[q].duplicate())
            }
            Op::Join { groups } => {
                if fresh {
                    let mut cfg = self.config[len - 1].duplicate();
                    cfg.num = len as u64;
                    cfg.join_groups(&groups);
                    cfg.rebalance();
                    self.config.push(cfg);
                }
                None
            }
            Op::Leave { gids } => {
                if fresh {
                    let mut cfg = self.config[len - 1].duplicate();
                    cfg.num = len as u64;
                    cfg.leave_groups(&gids);
                    cfg.rebalance();
                    self.config.push(cfg);
                }
                None
            }
            Op::Move { shard, gid } => {
                if fresh && shard < N_SHARDS {
                    let mut cfg = self.config[len - 1].duplicate();
                    cfg.num = len as u64;
                    cfg.shards[shard] = gid;
                    self.config.push(cfg);
                }
                None
            }
        }
    }
}

} // verus!