//! The byte format of the engine's durable state.
//!
//! What must survive a crash — term, vote, the log and its snapshot
//! boundary — is laid out as a flat little-endian record. The encoder's
//! output is pinned exactly; the decoder accepts a record only after
//! re-encoding it to the very bytes it read, so whatever it returns is
//! a faithful pre-image of the input.

use vstd::prelude::*;
use vstd::bytes::{spec_u64_to_le_bytes, u64_from_le_bytes, u64_to_le_bytes};
use vstd::slice::slice_subrange;
use crate::raft::{le_view, log_view, LogEntry, Raft};

verus! {

/// What one replica must persist.
pub struct Durable {
    pub term: u64,
    pub voted_for: Option<usize>,
    pub last_included_index: u64,
    pub last_included_term: u64,
    pub log: Vec<LogEntry>,
}

/// The encoding of one log entry: its term, its payload length, its
/// payload.
pub open spec fn enc_entry(e: (u64, Seq<u8>)) -> Seq<u8> {
    spec_u64_to_le_bytes(e.0) + spec_u64_to_le_bytes(e.1.len() as u64) + e.1
}

/// The encoding of a log, entry after entry.
pub open spec fn enc_entries(es: Seq<(u64, Seq<u8>)>) -> Seq<u8>
    decreases es.len(),
{
    if es.len() == 0 {
        Seq::<u8>::empty()
    } else {
        enc_entry(es[0]) + enc_entries(es.skip(1))
    }
}

/// The encoding of the vote: a presence byte and the peer.
pub open spec fn enc_vote(v: Option<usize>) -> Seq<u8> {
    match v {
        Option::Some(p) => seq![1u8] + spec_u64_to_le_bytes(p as u64),
        Option::None => seq![0u8] + spec_u64_to_le_bytes(0),
    }
}

/// The encoding of the whole durable state.
pub open spec fn enc_state(
    term: u64,
    voted_for: Option<usize>,
    last_included_index: u64,
    last_included_term: u64,
    log: Seq<(u64, Seq<u8>)>,
) -> Seq<u8> {
    spec_u64_to_le_bytes(term) + enc_vote(voted_for) + spec_u64_to_le_bytes(last_included_index)
        + spec_u64_to_le_bytes(last_included_term) + spec_u64_to_le_bytes(log.len() as u64)
        + enc_entries(log)
}

impl Durable {
    /// The abstract value of the record.
    pub open spec fn view_enc(&self) -> Seq<u8> {
        enc_state(
            self.term,
            self.voted_for,
            self.last_included_index,
            self.last_included_term,
            log_view(self.log@),
        )
    }
}

/// Append all of `src` to `dst`.
fn push_all(dst: &mut Vec<u8>, src: &Vec<u8>)
    ensures
        final(dst)@ == old(dst)@ + src@,
{
    let n = src.len();
    let mut i: usize = 0;
    while i < n
        invariant
            n == src@.len(),
            i <= n,
            dst@ == old(dst)@ + src@.take(i as int),
        decreases n - i,
    {
        proof {
            assert(src@.take(i + 1) =~= src@.take(i as int).push(src@[i as int]));
            assert((old(dst)@ + src@.take(i as int)).push(src@[i as int])
                =~= old(dst)@ + src@.take(i + 1));
        }
        dst.push(src[i]);
        i = i + 1;
    }
    proof {
        assert(src@.take(n as int) =~= src@);
    }
}

/// Lay the durable state out as bytes; the result is exactly
/// `enc_state` of its fields.
pub fn encode_state(d: &Durable) -> (r: Vec<u8>)
    ensures
        r@ == d.view_enc(),
{
    let mut out: Vec<u8> = Vec::new();
    let piece = u64_to_le_bytes(d.term);
    push_all(&mut out, &piece);
    match d.voted_for {
        Option::Some(p) => {
            out.push(1);
            let vb = u64_to_le_bytes(p as u64);
            push_all(&mut out, &vb);
        }
        Option::None => {
            out.push(0);
            let vb = u64_to_le_bytes(0);
            push_all(&mut out, &vb);
        }
    }
    let piece2 = u64_to_le_bytes(d.last_included_index);
    push_all(&mut out, &piece2);
    let piece3 = u64_to_le_bytes(d.last_included_term);
    push_all(&mut out, &piece3);
    let count = u64_to_le_bytes(d.log.len() as u64);
    push_all(&mut out, &count);
    let ghost header = out@;
    proof {
        assert(header =~= spec_u64_to_le_bytes(d.term) + enc_vote(d.voted_for)
            + spec_u64_to_le_bytes(d.last_included_index)
            + spec_u64_to_le_bytes(d.last_included_term)
            + spec_u64_to_le_bytes(d.log@.len() as u64));
    }
    let n = d.log.len();
    let mut i: usize = 0;
    while i < n
        invariant
            n == d.log@.len(),
            i <= n,
            out@ == header + enc_entries(log_view(d.log@).take(i as int)),
            header == spec_u64_to_le_bytes(d.term) + enc_vote(d.voted_for)
                + spec_u64_to_le_bytes(d.last_included_index)
                + spec_u64_to_le_bytes(d.last_included_term)
                + spec_u64_to_le_bytes(d.log@.len() as u64),
        decreases n - i,
    {
        let e = &d.log[i];
        let et = u64_to_le_bytes(e.term);
        push_all(&mut out, &et);
        let el = u64_to_le_bytes(e.data.len() as u64);
        push_all(&mut out, &el);
        push_all(&mut out, &e.data);
        proof {
            lemma_enc_entries_snoc(log_view(d.log@), i as int);
            assert(log_view(d.log@)[i as int] == le_view(d.log@[i as int]));
            assert(out@ =~= header + enc_entries(log_view(d.log@).take(i + 1)));
        }
        i = i + 1;
    }
    proof {
        assert(log_view(d.log@).take(n as int) =~= log_view(d.log@));
        assert(out@ =~= d.view_enc());
    }
    out
}

/// Adding one more entry to an encoded prefix appends that entry's
/// encoding.
proof fn lemma_enc_entries_snoc(es: Seq<(u64, Seq<u8>)>, i: int)
    requires
        0 <= i < es.len(),
    ensures
        enc_entries(es.take(i + 1)) == enc_entries(es.take(i)) + enc_entry(es[i]),
    decreases i,
{
    if i == 0 {
        assert(es.take(1)[0] == es[0]);
        assert(es.take(1).skip(1) =~= Seq::<(u64, Seq<u8>)>::empty());
        assert(es.take(0) =~= Seq::<(u64, Seq<u8>)>::empty());
        assert(enc_entries(Seq::<(u64, Seq<u8>)>::empty()) == Seq::<u8>::empty());
        assert(enc_entries(es.take(1)) == enc_entry(es[0]) + Seq::<u8>::empty());
        assert(enc_entry(es[0]) + Seq::<u8>::empty() =~= Seq::<u8>::empty() + enc_entry(es[0]));
    } else {
        lemma_enc_entries_snoc(es.skip(1), i - 1);
        assert(es.take(i + 1)[0] == es[0]);
        assert(es.take(i + 1).skip(1) =~= es.skip(1).take(i));
        assert(es.take(i)[0] == es[0]);
        assert(es.take(i).skip(1) =~= es.skip(1).take(i - 1));
        assert(es.skip(1)[i - 1] == es[i]);
        assert(enc_entries(es.take(i + 1)) == enc_entry(es[0]) + enc_entries(es.skip(1).take(i)));
        assert(enc_entries(es.skip(1).take(i))
            == enc_entries(es.skip(1).take(i - 1)) + enc_entry(es[i]));
        assert(enc_entry(es[0]) + (enc_entries(es.skip(1).take(i - 1)) + enc_entry(es[i]))
            =~= (enc_entry(es[0]) + enc_entries(es.skip(1).take(i - 1))) + enc_entry(es[i]));
    }
}

/// Two equal concatenations with equally long heads agree piecewise.
proof fn lemma_concat_split(x1: Seq<u8>, y1: Seq<u8>, x2: Seq<u8>, y2: Seq<u8>)
    requires
        x1 + y1 == x2 + y2,
        x1.len() == x2.len(),
    ensures
        x1 == x2,
        y1 == y2,
{
    assert(x1 =~= (x1 + y1).subrange(0, x1.len() as int));
    assert(x2 =~= (x2 + y2).subrange(0, x2.len() as int));
    assert(y1 =~= (x1 + y1).subrange(x1.len() as int, (x1 + y1).len() as int));
    assert(y2 =~= (x2 + y2).subrange(x2.len() as int, (x2 + y2).len() as int));
}

/// The u64 layout is injective.
proof fn lemma_u64_bytes_injective(a: u64, b: u64)
    requires
        spec_u64_to_le_bytes(a) == spec_u64_to_le_bytes(b),
    ensures
        a == b,
{
    vstd::bytes::lemma_auto_spec_u64_to_from_le_bytes();
}

/// The entry layout is injective: equally many entries with the same
/// bytes are the same entries.
proof fn lemma_enc_entries_injective(e1: Seq<(u64, Seq<u8>)>, e2: Seq<(u64, Seq<u8>)>)
    requires
        e1.len() == e2.len(),
        forall|i: int| 0 <= i < e1.len() ==> (#[trigger] e1[i]).1.len() <= u64::MAX,
        forall|i: int| 0 <= i < e2.len() ==> (#[trigger] e2[i]).1.len() <= u64::MAX,
        enc_entries(e1) == enc_entries(e2),
    ensures
        e1 == e2,
    decreases e1.len(),
{
    vstd::bytes::lemma_auto_spec_u64_to_from_le_bytes();
    if e1.len() == 0 {
        assert(e1 =~= e2);
    } else {
        let h1 = e1[0];
        let h2 = e2[0];
        let t1 = enc_entries(e1.skip(1));
        let t2 = enc_entries(e2.skip(1));
        assert(enc_entries(e1) == enc_entry(h1) + t1);
        assert(enc_entries(e2) == enc_entry(h2) + t2);
        // Terms: the first eight bytes.
        assert(enc_entry(h1) + t1 =~= spec_u64_to_le_bytes(h1.0) + (spec_u64_to_le_bytes(
            h1.1.len() as u64,
        ) + h1.1 + t1));
        assert(enc_entry(h2) + t2 =~= spec_u64_to_le_bytes(h2.0) + (spec_u64_to_le_bytes(
            h2.1.len() as u64,
        ) + h2.1 + t2));
        lemma_concat_split(
            spec_u64_to_le_bytes(h1.0),
            spec_u64_to_le_bytes(h1.1.len() as u64) + h1.1 + t1,
            spec_u64_to_le_bytes(h2.0),
            spec_u64_to_le_bytes(h2.1.len() as u64) + h2.1 + t2,
        );
        lemma_u64_bytes_injective(h1.0, h2.0);
        // Payload lengths: the next eight bytes.
        assert(spec_u64_to_le_bytes(h1.1.len() as u64) + h1.1 + t1
            =~= spec_u64_to_le_bytes(h1.1.len() as u64) + (h1.1 + t1));
        assert(spec_u64_to_le_bytes(h2.1.len() as u64) + h2.1 + t2
            =~= spec_u64_to_le_bytes(h2.1.len() as u64) + (h2.1 + t2));
        lemma_concat_split(
            spec_u64_to_le_bytes(h1.1.len() as u64),
            h1.1 + t1,
            spec_u64_to_le_bytes(h2.1.len() as u64),
            h2.1 + t2,
        );
        lemma_u64_bytes_injective(h1.1.len() as u64, h2.1.len() as u64);
        assert(h1.1.len() <= u64::MAX && h2.1.len() <= u64::MAX);
        assert(h1.1.len() == h2.1.len());
        // Payloads, then the remaining entries.
        lemma_concat_split(h1.1, t1, h2.1, t2);
        assert forall|i: int| 0 <= i < e1.skip(1).len()
            implies (#[trigger] e1.skip(1)[i]).1.len() <= u64::MAX by {
            assert(e1.skip(1)[i] == e1[i + 1]);
        }
        assert forall|i: int| 0 <= i < e2.skip(1).len()
            implies (#[trigger] e2.skip(1)[i]).1.len() <= u64::MAX by {
            assert(e2.skip(1)[i] == e2[i + 1]);
        }
        lemma_enc_entries_injective(e1.skip(1), e2.skip(1));
        assert(h1 == h2);
        assert(e1 =~= e2) by {
            assert forall|i: int| 0 <= i < e1.len() implies e1[i] == e2[i] by {
                if i > 0 {
                    assert(e1.skip(1)[i - 1] == e2.skip(1)[i - 1]);
                }
            }
        }
    }
}

/// The durable layout is faithful: two states with the same bytes are
/// the same state. Together with the contracts of `encode_state` and
/// `decode_state`, a record written and read back yields the state that
/// was written.
pub proof fn lemma_encoding_faithful(
    t1: u64,
    v1: Option<usize>,
    li1: u64,
    lt1: u64,
    lg1: Seq<(u64, Seq<u8>)>,
    t2: u64,
    v2: Option<usize>,
    li2: u64,
    lt2: u64,
    lg2: Seq<(u64, Seq<u8>)>,
)
    requires
        lg1.len() <= u64::MAX,
        lg2.len() <= u64::MAX,
        forall|i: int| 0 <= i < lg1.len() ==> (#[trigger] lg1[i]).1.len() <= u64::MAX,
        forall|i: int| 0 <= i < lg2.len() ==> (#[trigger] lg2[i]).1.len() <= u64::MAX,
        enc_state(t1, v1, li1, lt1, lg1) == enc_state(t2, v2, li2, lt2, lg2),
    ensures
        t1 == t2,
        v1 == v2,
        li1 == li2,
        lt1 == lt2,
        lg1 == lg2,
{
    vstd::bytes::lemma_auto_spec_u64_to_from_le_bytes();
    let rest1 = enc_vote(v1) + (spec_u64_to_le_bytes(li1) + (spec_u64_to_le_bytes(lt1) + (
    spec_u64_to_le_bytes(lg1.len() as u64) + enc_entries(lg1))));
    let rest2 = enc_vote(v2) + (spec_u64_to_le_bytes(li2) + (spec_u64_to_le_bytes(lt2) + (
    spec_u64_to_le_bytes(lg2.len() as u64) + enc_entries(lg2))));
    assert(enc_state(t1, v1, li1, lt1, lg1) =~= spec_u64_to_le_bytes(t1) + rest1);
    assert(enc_state(t2, v2, li2, lt2, lg2) =~= spec_u64_to_le_bytes(t2) + rest2);
    lemma_concat_split(spec_u64_to_le_bytes(t1), rest1, spec_u64_to_le_bytes(t2), rest2);
    lemma_u64_bytes_injective(t1, t2);
    let vrest1 = spec_u64_to_le_bytes(li1) + (spec_u64_to_le_bytes(lt1) + (spec_u64_to_le_bytes(
        lg1.len() as u64,
    ) + enc_entries(lg1)));
    let vrest2 = spec_u64_to_le_bytes(li2) + (spec_u64_to_le_bytes(lt2) + (spec_u64_to_le_bytes(
        lg2.len() as u64,
    ) + enc_entries(lg2)));
    assert(enc_vote(v1).len() == 9 && enc_vote(v2).len() == 9);
    lemma_concat_split(enc_vote(v1), vrest1, enc_vote(v2), vrest2);
    assert(v1 == v2) by {
        match (v1, v2) {
            (Option::Some(p1), Option::Some(p2)) => {
                assert(enc_vote(v1) == seq![1u8] + spec_u64_to_le_bytes(p1 as u64));
                assert(enc_vote(v2) == seq![1u8] + spec_u64_to_le_bytes(p2 as u64));
                lemma_concat_split(
                    seq![1u8],
                    spec_u64_to_le_bytes(p1 as u64),
                    seq![1u8],
                    spec_u64_to_le_bytes(p2 as u64),
                );
                lemma_u64_bytes_injective(p1 as u64, p2 as u64);
            },
            (Option::Some(p1), Option::None) => {
                assert(enc_vote(v1)[0] == 1u8);
                assert(enc_vote(v2)[0] == 0u8);
            },
            (Option::None, Option::Some(p2)) => {
                assert(enc_vote(v1)[0] == 0u8);
                assert(enc_vote(v2)[0] == 1u8);
            },
            (Option::None, Option::None) => {},
        }
    }
    lemma_concat_split(
        spec_u64_to_le_bytes(li1),
        spec_u64_to_le_bytes(lt1) + (spec_u64_to_le_bytes(lg1.len() as u64) + enc_entries(lg1)),
        spec_u64_to_le_bytes(li2),
        spec_u64_to_le_bytes(lt2) + (spec_u64_to_le_bytes(lg2.len() as u64) + enc_entries(lg2)),
    );
    lemma_u64_bytes_injective(li1, li2);
    lemma_concat_split(
        spec_u64_to_le_bytes(lt1),
        spec_u64_to_le_bytes(lg1.len() as u64) + enc_entries(lg1),
        spec_u64_to_le_bytes(lt2),
        spec_u64_to_le_bytes(lg2.len() as u64) + enc_entries(lg2),
    );
    lemma_u64_bytes_injective(lt1, lt2);
    lemma_concat_split(
        spec_u64_to_le_bytes(lg1.len() as u64),
        enc_entries(lg1),
        spec_u64_to_le_bytes(lg2.len() as u64),
        enc_entries(lg2),
    );
    lemma_u64_bytes_injective(lg1.len() as u64, lg2.len() as u64);
    assert(lg1.len() == lg2.len());
    lemma_enc_entries_injective(lg1, lg2);
}

/// A byte string that is the encoding of a durable state whose lengths
/// fit the wire fields.
pub open spec fn valid_record(
    bytes: Seq<u8>,
    t: u64,
    v: Option<usize>,
    li: u64,
    lt: u64,
    lg: Seq<(u64, Seq<u8>)>,
) -> bool {
    &&& bytes == enc_state(t, v, li, lt, lg)
    &&& lg.len() <= u64::MAX
    &&& forall|i: int| 0 <= i < lg.len() ==> (#[trigger] lg[i]).1.len() <= u64::MAX
}

/// Where each field of the encoding sits.
proof fn lemma_enc_state_layout(
    t: u64,
    v: Option<usize>,
    li: u64,
    lt: u64,
    lg: Seq<(u64, Seq<u8>)>,
)
    ensures
        enc_state(t, v, li, lt, lg).len() == 41 + enc_entries(lg).len(),
        enc_state(t, v, li, lt, lg).subrange(0, 8) == spec_u64_to_le_bytes(t),
        enc_state(t, v, li, lt, lg)[8] == (match v {
            Option::Some(_) => 1u8,
            Option::None => 0u8,
        }),
        enc_state(t, v, li, lt, lg).subrange(9, 17) == spec_u64_to_le_bytes(
            match v {
                Option::Some(p) => p as u64,
                Option::None => 0u64,
            },
        ),
        enc_state(t, v, li, lt, lg).subrange(17, 25) == spec_u64_to_le_bytes(li),
        enc_state(t, v, li, lt, lg).subrange(25, 33) == spec_u64_to_le_bytes(lt),
        enc_state(t, v, li, lt, lg).subrange(33, 41) == spec_u64_to_le_bytes(lg.len() as u64),
        enc_state(t, v, li, lt, lg).subrange(41, enc_state(t, v, li, lt, lg).len() as int)
            == enc_entries(lg),
{
    vstd::bytes::lemma_auto_spec_u64_to_from_le_bytes();
    let b = enc_state(t, v, li, lt, lg);
    assert(enc_vote(v).len() == 9) by {
        match v {
            Option::Some(p) => {
                assert(enc_vote(v) == seq![1u8] + spec_u64_to_le_bytes(p as u64));
            },
            Option::None => {
                assert(enc_vote(v) == seq![0u8] + spec_u64_to_le_bytes(0));
            },
        }
    }
    assert(b.len() == 41 + enc_entries(lg).len());
    assert(b.subrange(0, 8) =~= spec_u64_to_le_bytes(t));
    assert(b.subrange(8, 17) =~= enc_vote(v));
    match v {
        Option::Some(p) => {
            assert(enc_vote(v)[0] == 1u8);
            assert(b[8] == enc_vote(v)[0]);
            assert(b.subrange(9, 17) =~= spec_u64_to_le_bytes(p as u64));
        },
        Option::None => {
            assert(enc_vote(v)[0] == 0u8);
            assert(b[8] == enc_vote(v)[0]);
            assert(b.subrange(9, 17) =~= spec_u64_to_le_bytes(0));
        },
    }
    assert(b.subrange(17, 25) =~= spec_u64_to_le_bytes(li));
    assert(b.subrange(25, 33) =~= spec_u64_to_le_bytes(lt));
    assert(b.subrange(33, 41) =~= spec_u64_to_le_bytes(lg.len() as u64));
    assert(b.subrange(41, b.len() as int) =~= enc_entries(lg));
}

/// An encoded log splits at any entry boundary.
proof fn lemma_enc_entries_split(es: Seq<(u64, Seq<u8>)>, k: int)
    requires
        0 <= k <= es.len(),
    ensures
        enc_entries(es) == enc_entries(es.take(k)) + enc_entries(es.skip(k)),
    decreases k,
{
    if k == 0 {
        assert(es.take(0) =~= Seq::<(u64, Seq<u8>)>::empty());
        assert(es.skip(0) =~= es);
        assert(enc_entries(Seq::<(u64, Seq<u8>)>::empty()) == Seq::<u8>::empty());
        assert(Seq::<u8>::empty() + enc_entries(es) =~= enc_entries(es));
    } else {
        lemma_enc_entries_split(es, k - 1);
        lemma_enc_entries_snoc(es, k - 1);
        assert(es.skip(k - 1)[0] == es[k - 1]);
        assert(es.skip(k - 1).skip(1) =~= es.skip(k));
        assert(enc_entries(es.skip(k - 1)) == enc_entry(es[k - 1]) + enc_entries(es.skip(k)));
        assert(enc_entries(es.take(k - 1)) + (enc_entry(es[k - 1]) + enc_entries(es.skip(k)))
            =~= (enc_entries(es.take(k - 1)) + enc_entry(es[k - 1])) + enc_entries(es.skip(k)));
    }
}

/// Read one little-endian u64 at `off`.
fn read_u64(bytes: &Vec<u8>, off: usize) -> (x: u64)
    requires
        off + 8 <= bytes@.len(),
    ensures
        x == vstd::bytes::spec_u64_from_le_bytes(bytes@.subrange(off as int, off as int + 8)),
{
    let n = bytes.len();
    proof {
        assert(off + 8 <= n);
    }
    let s = slice_subrange(bytes.as_slice(), off, off + 8);
    u64_from_le_bytes(s)
}

/// Parse a durable record.
///
/// A `Some` answer is always a faithful pre-image — the record is
/// accepted only after re-encoding it to the very bytes read — and the
/// encoding of any durable state whose lengths fit the wire fields is
/// always accepted and parsed back to that state (`valid_record`), so
/// decoding is a two-sided inverse of `encode_state`. Corrupt bytes
/// give `None`.
#[verifier::rlimit(100)]
#[verifier::spinoff_prover]
pub fn decode_state(bytes: &Vec<u8>) -> (r: Option<Durable>)
    ensures
        match r {
            Option::Some(d) => d.view_enc() == bytes@,
            Option::None => true,
        },
        forall|t: u64, v: Option<usize>, li: u64, lt: u64, lg: Seq<(u64, Seq<u8>)>|
            #[trigger] valid_record(bytes@, t, v, li, lt, lg) ==> match r {
                Option::Some(d) => {
                    &&& d.term == t
                    &&& d.voted_for == v
                    &&& d.last_included_index == li
                    &&& d.last_included_term == lt
                    &&& log_view(d.log@) == lg
                },
                Option::None => false,
            },
{
    let ghost has_wit = exists|t: u64, v: Option<usize>, li: u64, lt: u64, lg: Seq<(u64, Seq<u8>)>|
        valid_record(bytes@, t, v, li, lt, lg);
    let ghost wit = choose|t: u64, v: Option<usize>, li: u64, lt: u64, lg: Seq<(u64, Seq<u8>)>|
        valid_record(bytes@, t, v, li, lt, lg);
    proof {
        if has_wit {
            lemma_enc_state_layout(wit.0, wit.1, wit.2, wit.3, wit.4);
        }
    }
    if bytes.len() < 41 {
        proof {
            assert forall|t: u64, v: Option<usize>, li: u64, lt: u64, lg: Seq<(u64, Seq<u8>)>|
                valid_record(bytes@, t, v, li, lt, lg) implies false by {
                lemma_enc_state_layout(t, v, li, lt, lg);
            }
        }
        return None;
    }
    let term = read_u64(bytes, 0);
    let tag = bytes[8];
    proof {
        if has_wit {
            vstd::bytes::lemma_auto_spec_u64_to_from_le_bytes();
            assert(bytes@.subrange(0, 8) == spec_u64_to_le_bytes(wit.0));
            assert(term == wit.0);
        }
    }
    if tag > 1 {
        proof {
            assert forall|t: u64, v: Option<usize>, li: u64, lt: u64, lg: Seq<(u64, Seq<u8>)>|
                valid_record(bytes@, t, v, li, lt, lg) implies false by {
                lemma_enc_state_layout(t, v, li, lt, lg);
            }
        }
        return None;
    }
    let votev = read_u64(bytes, 9);
    proof {
        if has_wit {
            vstd::bytes::lemma_auto_spec_u64_to_from_le_bytes();
            assert(votev == (match wit.1 {
                Option::Some(p) => p as u64,
                Option::None => 0u64,
            }));
            assert(tag == (match wit.1 {
                Option::Some(_) => 1u8,
                Option::None => 0u8,
            }));
        }
    }
    let voted_for: Option<usize> = if tag == 1 {
        if votev > usize::MAX as u64 {
            proof {
                assert forall|t: u64, v: Option<usize>, li: u64, lt: u64, lg: Seq<(u64, Seq<u8>)>|
                    valid_record(bytes@, t, v, li, lt, lg) implies false by {
                    assert(has_wit);
                    lemma_record_unique(bytes@, t, v, li, lt, lg, wit);
                }
            }
            return None;
        }
        Some(votev as usize)
    } else {
        None
    };
    proof {
        if has_wit {
            assert(voted_for == wit.1);
        }
    }
    let last_included_index = read_u64(bytes, 17);
    let last_included_term = read_u64(bytes, 25);
    let count = read_u64(bytes, 33);
    proof {
        if has_wit {
            vstd::bytes::lemma_auto_spec_u64_to_from_le_bytes();
            assert(last_included_index == wit.2);
            assert(last_included_term == wit.3);
            assert(count == wit.4.len() as u64);
        }
    }
    let blen = bytes.len();
    let mut log: Vec<LogEntry> = Vec::new();
    let mut off: usize = 41;
    let mut k: u64 = 0;
    proof {
        if has_wit {
            assert(wit.4.take(0) =~= Seq::<(u64, Seq<u8>)>::empty());
            assert(enc_entries(Seq::<(u64, Seq<u8>)>::empty()) == Seq::<u8>::empty());
            assert(log_view(log@) =~= wit.4.take(0));
        }
    }
    while k < count
        invariant
            blen == bytes@.len(),
            off <= blen,
            log@.len() == k,
            k <= count,
            forall|i: int| 0 <= i < log@.len()
                ==> (#[trigger] log@[i]).data@.len() <= usize::MAX,
            has_wit == exists|t: u64, v: Option<usize>, li: u64, lt: u64, lg: Seq<(u64, Seq<u8>)>|
                valid_record(bytes@, t, v, li, lt, lg),
            has_wit ==> valid_record(bytes@, wit.0, wit.1, wit.2, wit.3, wit.4),
            has_wit ==> {
                &&& count == wit.4.len()
                &&& log_view(log@) == wit.4.take(k as int)
                &&& off == 41 + enc_entries(wit.4.take(k as int)).len()
                &&& blen == 41 + enc_entries(wit.4).len()
            },
        decreases count - k,
    {
        proof {
            if has_wit {
                lemma_parse_step_facts(bytes@, wit, k as int, off as int);
            }
        }
        if blen < 16 || off > blen - 16 {
            proof {
                assert forall|t: u64, v: Option<usize>, li: u64, lt: u64, lg: Seq<(u64, Seq<u8>)>|
                    valid_record(bytes@, t, v, li, lt, lg) implies false by {
                    assert(has_wit);
                    lemma_record_unique(bytes@, t, v, li, lt, lg, wit);
                }
            }
            return None;
        }
        let et = read_u64(bytes, off);
        let el = read_u64(bytes, off + 8);
        if el > (blen - off - 16) as u64 {
            proof {
                assert forall|t: u64, v: Option<usize>, li: u64, lt: u64, lg: Seq<(u64, Seq<u8>)>|
                    valid_record(bytes@, t, v, li, lt, lg) implies false by {
                    assert(has_wit);
                    lemma_record_unique(bytes@, t, v, li, lt, lg, wit);
                    vstd::bytes::lemma_auto_spec_u64_to_from_le_bytes();
                    assert(el == wit.4[k as int].1.len() as u64);
                    assert(wit.4[k as int].1.len() <= blen - off - 16);
                }
            }
            return None;
        }
        let dl = el as usize;
        let ghost target = bytes@.subrange(off as int + 16, off as int + 16 + dl as int);
        let mut data: Vec<u8> = Vec::new();
        let mut q: usize = 0;
        while q < dl
            invariant
                blen == bytes@.len(),
                off + 16 + dl <= blen,
                q <= dl,
                target == bytes@.subrange(off as int + 16, off as int + 16 + dl as int),
                data@ == target.take(q as int),
            decreases dl - q,
        {
            proof {
                assert(target.take(q + 1) =~= target.take(q as int).push(target[q as int]));
            }
            data.push(bytes[off + 16 + q]);
            q = q + 1;
        }
        proof {
            assert(data@ =~= target);
        }
        let ghost pre_log = log@;
        log.push(LogEntry { term: et, data });
        proof {
            if has_wit {
                vstd::bytes::lemma_auto_spec_u64_to_from_le_bytes();
                assert(et == wit.4[k as int].0);
                assert(dl == wit.4[k as int].1.len());
                assert(target == wit.4[k as int].1);
                assert(log_view(log@) =~= wit.4.take(k as int + 1)) by {
                    assert(log_view(log@) =~= log_view(pre_log).push(le_view(log@.last())));
                    assert(wit.4.take(k as int + 1) =~= wit.4.take(k as int).push(
                        wit.4[k as int],
                    ));
                }
                lemma_enc_entries_snoc(wit.4, k as int);
                vstd::bytes::lemma_auto_spec_u64_to_from_le_bytes();
                assert(enc_entry(wit.4[k as int]).len() == 16 + dl);
            }
        }
        off = off + 16 + dl;
        k = k + 1;
    }
    if off != bytes.len() {
        proof {
            assert forall|t: u64, v: Option<usize>, li: u64, lt: u64, lg: Seq<(u64, Seq<u8>)>|
                valid_record(bytes@, t, v, li, lt, lg) implies false by {
                assert(has_wit);
                lemma_record_unique(bytes@, t, v, li, lt, lg, wit);
                assert(log_view(log@) == wit.4.take(count as int));
                assert(wit.4.take(count as int) =~= wit.4);
                lemma_enc_entries_split(wit.4, count as int);
            }
        }
        return None;
    }
    proof {
        if has_wit {
            assert(wit.4.take(count as int) =~= wit.4);
            assert(log_view(log@) == wit.4);
        }
    }
    let loglen = log.len();
    let d = Durable { term, voted_for, last_included_index, last_included_term, log };
    // Accept only a faithful pre-image.
    let again = encode_state(&d);
    if !bytes_equal(&again, bytes) {
        proof {
            assert forall|t: u64, v: Option<usize>, li: u64, lt: u64, lg: Seq<(u64, Seq<u8>)>|
                valid_record(bytes@, t, v, li, lt, lg) implies false by {
                assert(has_wit);
                assert(d.view_enc() == enc_state(wit.0, wit.1, wit.2, wit.3, wit.4));
                assert(again@ == bytes@);
            }
        }
        return None;
    }
    proof {
        assert forall|t: u64, v: Option<usize>, li: u64, lt: u64, lg: Seq<(u64, Seq<u8>)>|
            valid_record(bytes@, t, v, li, lt, lg) implies {
            &&& d.term == t
            &&& d.voted_for == v
            &&& d.last_included_index == li
            &&& d.last_included_term == lt
            &&& log_view(d.log@) == lg
        } by {
            assert(d.view_enc() == bytes@);
            assert(log_view(d.log@).len() == loglen);
            lemma_encoding_faithful(
                d.term,
                d.voted_for,
                d.last_included_index,
                d.last_included_term,
                log_view(d.log@),
                t,
                v,
                li,
                lt,
                lg,
            );
        }
    }
    Some(d)
}

/// Any fields encoding to the same bytes as the chosen witness are the
/// witness's fields.
proof fn lemma_record_unique(
    bytes: Seq<u8>,
    t: u64,
    v: Option<usize>,
    li: u64,
    lt: u64,
    lg: Seq<(u64, Seq<u8>)>,
    wit: (u64, Option<usize>, u64, u64, Seq<(u64, Seq<u8>)>),
)
    requires
        valid_record(bytes, t, v, li, lt, lg),
        valid_record(bytes, wit.0, wit.1, wit.2, wit.3, wit.4),
    ensures
        t == wit.0 && v == wit.1 && li == wit.2 && lt == wit.3 && lg == wit.4,
{
    lemma_encoding_faithful(t, v, li, lt, lg, wit.0, wit.1, wit.2, wit.3, wit.4);
}

/// Facts available while parsing entry `k` of a valid record: the
/// remaining bytes are the remaining entries' encoding, so the next
/// term, length and payload sit exactly at the cursor.
#[verifier::rlimit(100)]
#[verifier::spinoff_prover]
proof fn lemma_parse_step_facts(
    bytes: Seq<u8>,
    wit: (u64, Option<usize>, u64, u64, Seq<(u64, Seq<u8>)>),
    k: int,
    off: int,
)
    requires
        valid_record(bytes, wit.0, wit.1, wit.2, wit.3, wit.4),
        0 <= k < wit.4.len(),
        off == 41 + enc_entries(wit.4.take(k)).len(),
        bytes.len() == 41 + enc_entries(wit.4).len(),
    ensures
        off + 16 + wit.4[k].1.len() <= bytes.len(),
        bytes.subrange(off, off + 8) == vstd::bytes::spec_u64_to_le_bytes(wit.4[k].0),
        bytes.subrange(off + 8, off + 16) == vstd::bytes::spec_u64_to_le_bytes(
            wit.4[k].1.len() as u64,
        ),
        bytes.subrange(off + 16, off + 16 + wit.4[k].1.len() as int) == wit.4[k].1,
{
    vstd::bytes::lemma_auto_spec_u64_to_from_le_bytes();
    let lg = wit.4;
    lemma_enc_state_layout(wit.0, wit.1, wit.2, wit.3, lg);
    lemma_enc_entries_split(lg, k);
    assert(lg.skip(k)[0] == lg[k]);
    assert(lg.skip(k).skip(1) =~= lg.skip(k + 1));
    assert(enc_entries(lg.skip(k)) == enc_entry(lg[k]) + enc_entries(lg.skip(k + 1)));
    let head = enc_entry(lg[k]);
    assert(head.len() == 16 + lg[k].1.len());
    let tail_all = bytes.subrange(41, bytes.len() as int);
    assert(tail_all == enc_entries(lg));
    assert(enc_entries(lg) == enc_entries(lg.take(k)) + enc_entries(lg.skip(k)));
    let done = enc_entries(lg.take(k)).len() as int;
    assert(bytes.len() - off == enc_entries(lg.skip(k)).len());
    assert forall|i: int| 0 <= i < enc_entries(lg.skip(k)).len()
        implies bytes[off + i] == enc_entries(lg.skip(k))[i] by {
        assert(tail_all[done + i] == enc_entries(lg.skip(k))[i]);
        assert(bytes[41 + done + i] == tail_all[done + i]);
    }
    assert(bytes.subrange(off, off + 8) =~= head.subrange(0, 8));
    assert(head.subrange(0, 8) =~= vstd::bytes::spec_u64_to_le_bytes(lg[k].0));
    assert(bytes.subrange(off + 8, off + 16) =~= head.subrange(8, 16));
    assert(head.subrange(8, 16) =~= vstd::bytes::spec_u64_to_le_bytes(lg[k].1.len() as u64));
    assert(bytes.subrange(off + 16, off + 16 + lg[k].1.len() as int)
        =~= head.subrange(16, head.len() as int));
    assert(head.subrange(16, head.len() as int) =~= lg[k].1);
}

/// Whether two byte strings are the same.
fn bytes_equal(a: &Vec<u8>, b: &Vec<u8>) -> (r: bool)
    ensures
        r == (a@ == b@),
{
    if a.len() != b.len() {
        proof {
            assert(a@ != b@);
        }
        return false;
    }
    let n = a.len();
    let mut i: usize = 0;
    while i < n
        invariant
            n == a@.len() && n == b@.len(),
            i <= n,
            forall|j: int| 0 <= j < i ==> a@[j] == b@[j],
        decreases n - i,
    {
        if a[i] != b[i] {
            proof {
                assert(a@ != b@);
            }
            return false;
        }
        i = i + 1;
    }
    proof {
        assert(a@ =~= b@);
    }
    true
}

impl Raft {
    /// The durable part of this peer's state, ready to encode.
    pub fn durable(&self) -> (d: Durable)
        requires
            self.wf(),
        ensures
            d.term == self.term,
            d.voted_for == self.voted_for,
            d.last_included_index == self.last_included_index,
            d.last_included_term == self.last_included_term,
            log_view(d.log@) == log_view(self.log@),
    {
        let mut log: Vec<LogEntry> = Vec::new();
        let n = self.log.len();
        let mut i: usize = 0;
        while i < n
            invariant
                n == self.log@.len(),
                i <= n,
                log@.len() == i,
                forall|j: int| 0 <= j < i
                    ==> le_view(#[trigger] log@[j]) == le_view(self.log@[j]),
            decreases n - i,
        {
            let e = &self.log[i];
            let mut data: Vec<u8> = Vec::new();
            let dn = e.data.len();
            let mut q: usize = 0;
            while q < dn
                invariant
                    dn == e.data@.len(),
                    q <= dn,
                    data@.len() == q,
                    forall|j: int| 0 <= j < q ==> data@[j] == e.data@[j],
                decreases dn - q,
            {
                data.push(e.data[q]);
                q = q + 1;
            }
            proof {
                assert(data@ =~= e.data@);
            }
            log.push(LogEntry { term: e.term, data });
            i = i + 1;
        }
        proof {
            assert(log_view(log@) =~= log_view(self.log@));
        }
        Durable {
            term: self.term,
            voted_for: self.voted_for,
            last_included_index: self.last_included_index,
            last_included_term: self.last_included_term,
            log,
        }
    }

    /// Rebuild a peer from its durable record and snapshot after a
    /// restart. The peer comes back as a follower with everything up to
    /// the snapshot boundary still owed to the apply stream. The record
    /// is refused exactly when it cannot fit the group: its vote names a
    /// peer outside it, or its indices overrun the index space.
    pub fn restore(d: Durable, n: usize, me: usize, snapshot: Vec<u8>) -> (r: Option<Raft>)
        requires
            1 <= n,
            me < n,
        ensures
            (r is None) == ((d.voted_for matches Option::Some(p) && p >= n)
                || d.last_included_index + d.log@.len() + 1 > u64::MAX),
            match r {
                Option::Some(s) => {
                    &&& s.wf()
                    &&& s.term == d.term
                    &&& s.voted_for == d.voted_for
                    &&& s.last_included_index == d.last_included_index
                    &&& s.last_included_term == d.last_included_term
                    &&& log_view(s.log@) == log_view(d.log@)
                    &&& s.snapshot@ == snapshot@
                    &&& s.role == crate::raft::Role::Follower
                    &&& s.commit_index == d.last_included_index
                    &&& s.me == me
                    &&& s.n == n
                },
                Option::None => true,
            },
    {
        match d.voted_for {
            Option::Some(p) => {
                if p >= n {
                    return None;
                }
            }
            Option::None => {}
        }
        if d.log.len() as u64 > u64::MAX - 1
            || d.last_included_index > u64::MAX - 1 - d.log.len() as u64 {
            return None;
        }
        let mut base = Raft::new(n, me);
        base.term = d.term;
        base.voted_for = d.voted_for;
        base.log = d.log;
        base.last_included_index = d.last_included_index;
        base.last_included_term = d.last_included_term;
        base.snapshot = snapshot;
        base.commit_index = d.last_included_index;
        base.last_applied = 0;
        base.pending_snapshot = d.last_included_index > 0;
        Some(base)
    }
}

} // verus!
