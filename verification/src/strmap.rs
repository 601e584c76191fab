//! A string-to-string map held as an association list.
//!
//! Replicated state machines must compute identical successor states on
//! every replica, so their key-value storage keeps an explicit, order-stable
//! representation. The abstract value of a `StrMap` is a
//! `Map<Seq<char>, Seq<char>>`.

use vstd::prelude::*;
use vstd::string::StringExecFns;

verus! {

/// A key-value table over strings with one entry per key.
pub struct StrMap {
    pairs: Vec<(String, String)>,
}

/// No key occurs twice among the pairs.
pub open spec fn keys_distinct(pairs: Seq<(String, String)>) -> bool {
    forall|i: int, j: int|
        0 <= i < j < pairs.len() ==> pairs[i].0@ != pairs[j].0@
}

/// Whether some pair carries the key `k`.
pub open spec fn assoc_has(pairs: Seq<(String, String)>, k: Seq<char>) -> bool {
    exists|i: int| 0 <= i < pairs.len() && pairs[i].0@ == k
}

/// The position of the pair carrying `k`.
pub open spec fn assoc_at(pairs: Seq<(String, String)>, k: Seq<char>) -> int {
    choose|i: int| 0 <= i < pairs.len() && pairs[i].0@ == k
}

/// The abstract map held by an association list.
pub open spec fn assoc_view(pairs: Seq<(String, String)>) -> Map<Seq<char>, Seq<char>> {
    Map::new(
        |k: Seq<char>| assoc_has(pairs, k),
        |k: Seq<char>| pairs[assoc_at(pairs, k)].1@,
    )
}

impl View for StrMap {
    type V = Map<Seq<char>, Seq<char>>;

    closed spec fn view(&self) -> Map<Seq<char>, Seq<char>> {
        assoc_view(self.pairs@)
    }
}

impl StrMap {
    /// The representation keeps one pair per key.
    pub closed spec fn wf(&self) -> bool {
        keys_distinct(self.pairs@)
    }

    pub fn new() -> (r: StrMap)
        ensures
            r.wf(),
            r@ == Map::<Seq<char>, Seq<char>>::empty(),
    {
        let r = StrMap { pairs: Vec::new() };
        proof {
            assert(r@ =~= Map::<Seq<char>, Seq<char>>::empty());
        }
        r
    }

    /// The value stored under `key`, or `None` when the key is absent.
    pub fn get(&self, key: &String) -> (r: Option<&String>)
        requires
            self.wf(),
        ensures
            match r {
                Option::Some(v) => self@.contains_key(key@) && v@ == self@[key@],
                Option::None => !self@.contains_key(key@),
            },
    {
        let n = self.pairs.len();
        let mut i: usize = 0;
        while i < n
            invariant
                self.wf(),
                n == self.pairs@.len(),
                i <= n,
                forall|j: int| 0 <= j < i ==> self.pairs@[j].0@ != key@,
            decreases n - i,
        {
            if self.pairs[i].0.eq(key) {
                proof {
                    assert(assoc_has(self.pairs@, key@));
                    let w = assoc_at(self.pairs@, key@);
                    assert(self.pairs@[w].0@ == key@);
                    assert(w == i);
                }
                return Some(&self.pairs[i].1);
            }
            i = i + 1;
        }
        proof {
            assert(!assoc_has(self.pairs@, key@));
        }
        None
    }

    /// Store `value` under `key`, replacing any previous value.
    pub fn put(&mut self, key: String, value: String)
        requires
            old(self).wf(),
        ensures
            final(self).wf(),
            final(self)@ == old(self)@.insert(key@, value@),
    {
        let ghost pre = old(self).pairs@;
        let n = self.pairs.len();
        let mut i: usize = 0;
        while i < n
            invariant
                pre == old(self).pairs@,
                keys_distinct(pre),
                self.pairs@ == pre,
                n == pre.len(),
                i <= n,
                forall|j: int| 0 <= j < i ==> pre[j].0@ != key@,
            decreases n - i,
        {
            if self.pairs[i].0.eq(&key) {
                self.pairs[i].1 = value;
                proof {
                    lemma_assoc_update(pre, self.pairs@, i as int, key@);
                }
                return;
            }
            i = i + 1;
        }
        self.pairs.push((key, value));
        proof {
            lemma_assoc_push(pre, self.pairs@);
        }
    }

    /// Concatenate `value` onto the value stored under `key`, treating an
    /// absent key as the empty string.
    pub fn append(&mut self, key: String, value: String)
        requires
            old(self).wf(),
        ensures
            final(self).wf(),
            final(self)@ == old(self)@.insert(
                key@,
                (if old(self)@.contains_key(key@) { old(self)@[key@] } else { Seq::<char>::empty() })
                    + value@,
            ),
    {
        let ghost pre = old(self).pairs@;
        let n = self.pairs.len();
        let mut i: usize = 0;
        while i < n
            invariant
                pre == old(self).pairs@,
                keys_distinct(pre),
                self.pairs@ == pre,
                n == pre.len(),
                i <= n,
                forall|j: int| 0 <= j < i ==> pre[j].0@ != key@,
            decreases n - i,
        {
            if self.pairs[i].0.eq(&key) {
                proof {
                    assert(assoc_has(pre, key@));
                    let w = assoc_at(pre, key@);
                    assert(pre[w].0@ == key@);
                    assert(w == i);
                }
                self.pairs[i].1.append(value.as_str());
                proof {
                    lemma_assoc_update(pre, self.pairs@, i as int, key@);
                }
                return;
            }
            i = i + 1;
        }
        proof {
            assert(!assoc_has(pre, key@));
        }
        self.pairs.push((key, value));
        proof {
            lemma_assoc_push(pre, self.pairs@);
            assert(final(self)@ =~= old(self)@.insert(key@, Seq::<char>::empty() + value@));
        }
    }

    /// The pairs as fresh strings, one per key: what a snapshot of the
    /// table must hold.
    pub fn items(&self) -> (r: Vec<(String, String)>)
        requires
            self.wf(),
        ensures
            keys_distinct(r@),
            assoc_view(r@) == self@,
    {
        let copy = self.duplicate();
        let StrMap { pairs } = copy;
        pairs
    }

    /// A deep copy with the same abstract value.
    pub fn duplicate(&self) -> (r: StrMap)
        requires
            self.wf(),
        ensures
            r.wf(),
            r@ == self@,
    {
        let mut pairs: Vec<(String, String)> = Vec::new();
        let n = self.pairs.len();
        let mut i: usize = 0;
        while i < n
            invariant
                self.wf(),
                n == self.pairs@.len(),
                i <= n,
                pairs@.len() == i,
                forall|j: int| 0 <= j < i ==> (pairs@[j].0@, pairs@[j].1@)
                    == (self.pairs@[j].0@, self.pairs@[j].1@),
            decreases n - i,
        {
            let k = self.pairs[i].0.clone();
            let v = self.pairs[i].1.clone();
            pairs.push((k, v));
            i = i + 1;
        }
        let r = StrMap { pairs };
        proof {
            assert forall|idx: int| 0 <= idx < r.pairs@.len()
                implies r.pairs@[idx].0@ == self.pairs@[idx].0@
                    && r.pairs@[idx].1@ == self.pairs@[idx].1@ by {}
            assert(keys_distinct(r.pairs@));
            assert forall|k: Seq<char>| assoc_has(r.pairs@, k) == assoc_has(self.pairs@, k) by {
                if assoc_has(r.pairs@, k) {
                    let w = choose|w: int| 0 <= w < r.pairs@.len() && r.pairs@[w].0@ == k;
                    assert(self.pairs@[w].0@ == k);
                }
                if assoc_has(self.pairs@, k) {
                    let w = choose|w: int| 0 <= w < self.pairs@.len() && self.pairs@[w].0@ == k;
                    assert(r.pairs@[w].0@ == k);
                }
            }
            assert forall|k: Seq<char>| #[trigger] r@.contains_key(k) || self@.contains_key(k)
                implies r@.contains_key(k) && self@.contains_key(k) && r@[k] == self@[k] by {
                let wr = assoc_at(r.pairs@, k);
                let ws = assoc_at(self.pairs@, k);
                assert(r.pairs@[wr].0@ == k);
                assert(self.pairs@[ws].0@ == k);
                assert(r.pairs@[ws].0@ == k);
                assert(wr == ws);
            }
            assert(r@ =~= self@);
        }
        r
    }
}

/// Replacing the value of the pair at `w` (which carries key `k`) updates
/// the abstract map at `k` alone.
proof fn lemma_assoc_update(pre: Seq<(String, String)>, post: Seq<(String, String)>, w: int, k: Seq<char>)
    requires
        keys_distinct(pre),
        0 <= w < pre.len(),
        post.len() == pre.len(),
        pre[w].0@ == k,
        post[w].0@ == k,
        forall|j: int| 0 <= j < pre.len() && j != w ==> post[j] == pre[j],
    ensures
        keys_distinct(post),
        assoc_view(post) == assoc_view(pre).insert(k, post[w].1@),
{
    assert forall|i: int, j: int| 0 <= i < j < post.len() implies post[i].0@ != post[j].0@ by {
        assert(pre[i].0@ == post[i].0@);
        assert(pre[j].0@ == post[j].0@);
    }
    assert forall|q: Seq<char>| assoc_has(post, q) == assoc_has(pre, q) by {
        if assoc_has(post, q) {
            let i = choose|i: int| 0 <= i < post.len() && post[i].0@ == q;
            assert(pre[i].0@ == q);
        }
        if assoc_has(pre, q) {
            let i = choose|i: int| 0 <= i < pre.len() && pre[i].0@ == q;
            assert(post[i].0@ == q);
        }
    }
    assert forall|q: Seq<char>| #[trigger] assoc_has(post, q)
        implies assoc_view(post)[q] == assoc_view(pre).insert(k, post[w].1@)[q] by {
        let i = assoc_at(post, q);
        assert(0 <= i < post.len() && post[i].0@ == q);
        let ip = assoc_at(pre, q);
        assert(0 <= ip < pre.len() && pre[ip].0@ == q);
        assert(post[ip].0@ == q);
        assert(i == ip);
        if q == k {
            assert(i == w);
        } else {
            assert(i != w);
            assert(post[i] == pre[i]);
        }
    }
    assert(assoc_view(post) =~= assoc_view(pre).insert(k, post[w].1@));
}

/// Appending a pair with a key not yet present inserts that binding.
proof fn lemma_assoc_push(pre: Seq<(String, String)>, post: Seq<(String, String)>)
    requires
        keys_distinct(pre),
        post.len() == pre.len() + 1,
        forall|j: int| 0 <= j < pre.len() ==> post[j] == pre[j],
        !assoc_has(pre, post[post.len() - 1].0@),
    ensures
        keys_distinct(post),
        assoc_view(post) == assoc_view(pre).insert(post[post.len() - 1].0@, post[post.len() - 1].1@),
{
    let n = pre.len() as int;
    let k = post[n].0@;
    assert forall|i: int, j: int| 0 <= i < j < post.len() implies post[i].0@ != post[j].0@ by {
        if j < n {
            assert(pre[i].0@ != pre[j].0@);
        } else {
            assert(post[i] == pre[i]);
            assert(!(pre[i].0@ == k));
        }
    }
    assert forall|q: Seq<char>| #[trigger] assoc_has(post, q)
        implies assoc_view(post)[q] == assoc_view(pre).insert(k, post[n].1@)[q] by {
        let i = assoc_at(post, q);
        assert(0 <= i < post.len() && post[i].0@ == q);
        if q == k {
            assert(i == n) by {
                if i < n {
                    assert(pre[i].0@ == k);
                    assert(assoc_has(pre, k));
                }
            }
        } else {
            assert(i != n);
            assert(pre[i].0@ == q);
            let ip = assoc_at(pre, q);
            assert(pre[ip].0@ == q);
            assert(post[ip].0@ == q);
            assert(ip == i);
        }
    }
    assert forall|q: Seq<char>| assoc_has(pre, q) || q == k implies assoc_has(post, q) by {
        if q == k {
            assert(post[n].0@ == q);
        } else {
            let i = choose|i: int| 0 <= i < pre.len() && pre[i].0@ == q;
            assert(post[i].0@ == q);
        }
    }
    assert forall|q: Seq<char>| #[trigger] assoc_has(post, q) implies assoc_has(pre, q) || q == k by {
        let i = assoc_at(post, q);
        if i < n {
            assert(pre[i].0@ == q);
        }
    }
    assert(assoc_view(post) =~= assoc_view(pre).insert(k, post[n].1@));
}

} // verus!
