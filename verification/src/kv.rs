//! The plain key-value service's replicated state machine.
//!
//! `Kv` applies Get / Put / Append commands, suppressing the mutation of a
//! request id that is still on record. The transition is stated by the
//! spec functions below, which the sharded store reuses; the laws at the
//! bottom are proved about those transitions.

use vstd::prelude::*;
use vstd::string::StringExecFns;
use crate::dedup::{evicted, DedupQueue};
use crate::strmap::StrMap;

verus! {

/// A client command for the key-value service.
pub enum Op {
    Get { key: String },
    Put { key: String, value: String },
    Append { key: String, value: String },
}

/// What a Get answers: the stored value, if any.
pub open spec fn get_value(data: Map<Seq<char>, Seq<char>>, k: Seq<char>) -> Option<Seq<char>> {
    if data.contains_key(k) {
        Option::Some(data[k])
    } else {
        Option::None
    }
}

/// The store after a Put of `v` under `k`.
pub open spec fn put_data(data: Map<Seq<char>, Seq<char>>, k: Seq<char>, v: Seq<char>) -> Map<
    Seq<char>,
    Seq<char>,
> {
    data.insert(k, v)
}

/// The store after an Append of `v` under `k`: a missing key reads as "".
pub open spec fn append_data(data: Map<Seq<char>, Seq<char>>, k: Seq<char>, v: Seq<char>) -> Map<
    Seq<char>,
    Seq<char>,
> {
    data.insert(k, (if data.contains_key(k) { data[k] } else { Seq::<char>::empty() }) + v)
}

/// The store after a mutation with request id `id`: ids already on record
/// mutate nothing, and the id is recorded either way.
pub open spec fn dedup_step(
    data: Map<Seq<char>, Seq<char>>,
    ids: Seq<u64>,
    id: u64,
    mutated: Map<Seq<char>, Seq<char>>,
) -> (Map<Seq<char>, Seq<char>>, Seq<u64>) {
    if ids.contains(id) {
        (data, evicted(ids).push(id))
    } else {
        (mutated, evicted(ids).push(id))
    }
}

/// The state machine of the plain key-value service.
pub struct Kv {
    pub data: StrMap,
    pub ids: DedupQueue,
}

impl Kv {
    pub open spec fn wf(&self) -> bool {
        self.data.wf()
    }
}

impl Default for Kv {
    /// The empty store with nothing applied.
    fn default() -> (r: Kv)
        ensures
            r.wf(),
            r.data@ == Map::<Seq<char>, Seq<char>>::empty(),
            r.ids@ == Seq::<u64>::empty(),
    {
        Kv { data: StrMap::new(), ids: DedupQueue::new() }
    }
}

impl Kv {
    /// Apply one client command under request id `id`.
    ///
    /// Get never mutates and answers the stored value, "" when absent.
    /// Put and Append record `id` and mutate only when `id` is fresh;
    /// both answer "".
    pub fn apply(&mut self, id: u64, cmd: Op) -> (r: String)
        requires
            old(self).wf(),
        ensures
            final(self).wf(),
            match cmd {
                Op::Get { key } => {
                    &&& final(self).data@ == old(self).data@
                    &&& final(self).ids@ == old(self).ids@
                    &&& r@ == match get_value(old(self).data@, key@) {
                        Option::Some(v) => v,
                        Option::None => Seq::<char>::empty(),
                    }
                },
                Op::Put { key, value } => {
                    &&& (final(self).data@, final(self).ids@) == dedup_step(
                        old(self).data@,
                        old(self).ids@,
                        id,
                        put_data(old(self).data@, key@, value@),
                    )
                    &&& r@ == Seq::<char>::empty()
                },
                Op::Append { key, value } => {
                    &&& (final(self).data@, final(self).ids@) == dedup_step(
                        old(self).data@,
                        old(self).ids@,
                        id,
                        append_data(old(self).data@, key@, value@),
                    )
                    &&& r@ == Seq::<char>::empty()
                },
            },
    {
        match cmd {
            Op::Get { key } => {
                match self.data.get(&key) {
                    Option::Some(v) => v.clone(),
                    Option::None => String::new(),
                }
            }
            Op::Put { key, value } => {
                let fresh = self.ids.note(id);
                if fresh {
                    self.data.put(key, value);
                }
                String::new()
            }
            Op::Append { key, value } => {
                let fresh = self.ids.note(id);
                if fresh {
                    self.data.append(key, value);
                }
                String::new()
            }
        }
    }
}

/// Round-trip: a Put of `v` is read back as `v`, and a Put of `v1`
/// followed by an Append of `v2` is read back as `v1 + v2`.
pub proof fn lemma_round_trip(
    data: Map<Seq<char>, Seq<char>>,
    k: Seq<char>,
    v1: Seq<char>,
    v2: Seq<char>,
)
    ensures
        get_value(put_data(data, k, v1), k) == Option::Some(v1),
        get_value(append_data(put_data(data, k, v1), k, v2), k) == Option::Some(v1 + v2),
{
}

/// Exactly-once: a mutation under a request id already on record is
/// suppressed; in particular, re-applying a command right after its first
/// application leaves the store unchanged.
pub proof fn lemma_exactly_once(
    data: Map<Seq<char>, Seq<char>>,
    ids: Seq<u64>,
    id: u64,
    first: Map<Seq<char>, Seq<char>>,
    second: Map<Seq<char>, Seq<char>>,
)
    ensures
        ({
            let (d1, i1) = dedup_step(data, ids, id, first);
            let (d2, i2) = dedup_step(d1, i1, id, second);
            d2 == d1
        }),
{
    let (d1, i1) = dedup_step(data, ids, id, first);
    crate::dedup::DedupQueue::lemma_note_records(ids, id);
    assert(i1.contains(id));
}

} // verus!
