//! The sequential key-value model and the shape of recorded histories.

use vstd::prelude::*;
use vstd::multiset::Multiset;
use vstd::string::StringExecFns;

verus! {

/// The kind of a recorded client operation.
#[derive(PartialEq, Eq, Structural, Clone, Copy, Debug)]
pub enum KvOp {
    Get,
    Put,
    Append,
}

/// The input half of a recorded operation.
pub struct KvInput {
    pub op: KvOp,
    pub key: String,
    pub value: String,
}

/// The output half of a recorded operation.
pub struct KvOutput {
    pub value: String,
}

/// One recorded operation: what was asked, what came back, and when.
pub struct Operation {
    pub client_id: Option<usize>,
    pub input: KvInput,
    pub call: u128,
    pub output: KvOutput,
    pub ret: u128,
}

/// A call or return event of one operation; `Null` only pads nothing.
pub enum EntryValue {
    Null,
    Call(KvInput),
    Return(KvOutput),
}

/// One event of a sub-history, with its operation's id and its time.
pub struct Entry {
    pub value: EntryValue,
    pub id: usize,
    pub time: u128,
    pub client_id: Option<usize>,
}

/// Whether the sequential model in state `st` may answer `out` to `inp`.
pub open spec fn step_ok(st: Seq<char>, inp: KvInput, out: KvOutput) -> bool {
    match inp.op {
        KvOp::Get => out.value@ == st,
        KvOp::Put => true,
        KvOp::Append => true,
    }
}

/// The model state after `inp` is applied in state `st`.
pub open spec fn step_state(st: Seq<char>, inp: KvInput) -> Seq<char> {
    match inp.op {
        KvOp::Get => st,
        KvOp::Put => inp.value@,
        KvOp::Append => st + inp.value@,
    }
}

/// The state of one key of the store: its current value.
pub struct KvModel {
    pub state: String,
}

impl KvModel {
    /// The model before any operation: the empty value.
    pub fn init() -> (m: KvModel)
        ensures
            m.state@ == Seq::<char>::empty(),
    {
        KvModel { state: String::new() }
    }

    /// One sequential step: whether `output` is a legal answer to
    /// `input` here, and the state afterwards.
    pub fn step(&self, input: &KvInput, output: &KvOutput) -> (r: (bool, KvModel))
        ensures
            r.0 == step_ok(self.state@, *input, *output),
            r.1.state@ == (if step_ok(self.state@, *input, *output) {
                step_state(self.state@, *input)
            } else {
                self.state@
            }),
    {
        match input.op {
            KvOp::Get => {
                let ok = self.state.eq(&output.value);
                (ok, KvModel { state: self.state.clone() })
            }
            KvOp::Put => (true, KvModel { state: input.value.clone() }),
            KvOp::Append => {
                let mut s = self.state.clone();
                s.append(input.value.as_str());
                (true, KvModel { state: s })
            }
        }
    }

    /// Whether two model states are the same.
    pub fn same_state(&self, other: &KvModel) -> (r: bool)
        ensures
            r == (self.state@ == other.state@),
    {
        self.state.eq(&other.state)
    }
}

/// Returns sort after calls at the same time.
pub open spec fn entry_rank(e: Entry) -> int {
    if e.value is Return {
        1
    } else {
        0
    }
}

/// Event order within a sub-history: by time, calls before returns at
/// the same time.
pub open spec fn entry_le(a: Entry, b: Entry) -> bool {
    ||| a.time < b.time
    ||| (a.time == b.time && entry_rank(a) <= entry_rank(b))
}

/// The events held by a group table, front group first.
pub open spec fn total_entries(groups: Seq<(String, Vec<Entry>)>) -> int
    decreases groups.len(),
{
    if groups.len() == 0 {
        0
    } else {
        groups[0].1@.len() + total_entries(groups.skip(1))
    }
}

/// The events held by the finished sub-histories.
pub open spec fn total_out(r: Seq<Vec<Entry>>) -> int
    decreases r.len(),
{
    if r.len() == 0 {
        0
    } else {
        r[0]@.len() + total_out(r.skip(1))
    }
}

proof fn lemma_total_entries_snoc(s: Seq<(String, Vec<Entry>)>, x: (String, Vec<Entry>))
    ensures
        total_entries(s.push(x)) == total_entries(s) + x.1@.len(),
    decreases s.len(),
{
    if s.len() == 0 {
        assert(s.push(x)[0] == x);
        assert(s.push(x).skip(1) =~= Seq::<(String, Vec<Entry>)>::empty());
        assert(total_entries(Seq::<(String, Vec<Entry>)>::empty()) == 0);
        assert(total_entries(s) == 0);
    } else {
        assert(s.push(x)[0] == s[0]);
        assert(s.push(x).skip(1) =~= s.skip(1).push(x));
        lemma_total_entries_snoc(s.skip(1), x);
    }
}

proof fn lemma_total_entries_update(s: Seq<(String, Vec<Entry>)>, i: int, v: (String, Vec<Entry>))
    requires
        0 <= i < s.len(),
    ensures
        total_entries(s.update(i, v)) == total_entries(s) - s[i].1@.len() + v.1@.len(),
    decreases s.len(),
{
    if i == 0 {
        assert(s.update(0, v)[0] == v);
        assert(s.update(0, v).skip(1) =~= s.skip(1));
    } else {
        assert(s.update(i, v)[0] == s[0]);
        assert(s.update(i, v).skip(1) =~= s.skip(1).update(i - 1, v));
        lemma_total_entries_update(s.skip(1), i - 1, v);
    }
}

proof fn lemma_total_out_snoc(s: Seq<Vec<Entry>>, x: Vec<Entry>)
    ensures
        total_out(s.push(x)) == total_out(s) + x@.len(),
    decreases s.len(),
{
    if s.len() == 0 {
        assert(s.push(x)[0] == x);
        assert(s.push(x).skip(1) =~= Seq::<Vec<Entry>>::empty());
        assert(total_out(Seq::<Vec<Entry>>::empty()) == 0);
        assert(total_out(s) == 0);
    } else {
        assert(s.push(x)[0] == s[0]);
        assert(s.push(x).skip(1) =~= s.skip(1).push(x));
        lemma_total_out_snoc(s.skip(1), x);
    }
}

/// The events are sorted by `entry_le`.
pub open spec fn entries_sorted(es: Seq<Entry>) -> bool {
    forall|i: int, j: int| 0 <= i < j < es.len() ==> entry_le(es[i], es[j])
}

/// Every call event in the sub-history asks about the key `key`.
pub open spec fn group_key_is(es: Seq<Entry>, key: Seq<char>) -> bool {
    forall|i: int| 0 <= i < es.len() ==> match (#[trigger] es[i]).value {
        EntryValue::Call(inp) => inp.key@ == key,
        _ => true,
    }
}

/// The first call event of operation `id` at or after `from`; the
/// history's length when there is none.
pub open spec fn call_idx_from(h: Seq<Entry>, id: int, from: int) -> int
    decreases h.len() - from,
{
    if from < 0 || from >= h.len() {
        h.len() as int
    } else if h[from].id == id && h[from].value is Call {
        from
    } else {
        call_idx_from(h, id, from + 1)
    }
}

/// The first return event of operation `id` at or after `from`.
pub open spec fn ret_idx_from(h: Seq<Entry>, id: int, from: int) -> int
    decreases h.len() - from,
{
    if from < 0 || from >= h.len() {
        h.len() as int
    } else if h[from].id == id && h[from].value is Return {
        from
    } else {
        ret_idx_from(h, id, from + 1)
    }
}

/// The input a call event carries.
pub open spec fn entry_input(e: Entry) -> KvInput {
    match e.value {
        EntryValue::Call(i) => i,
        _ => vstd::pervasive::arbitrary(),
    }
}

/// The output a return event carries.
pub open spec fn entry_output(e: Entry) -> KvOutput {
    match e.value {
        EntryValue::Return(o) => o,
        _ => vstd::pervasive::arbitrary(),
    }
}

/// The content of one recorded operation: what was asked, what came
/// back, and when.
pub open spec fn op_core(o: Operation) -> (KvOp, Seq<char>, Seq<char>, Seq<char>, u128, u128) {
    (o.input.op, o.input.key@, o.input.value@, o.output.value@, o.call, o.ret)
}

/// The operations of `h` asking about `key`, as a multiset of contents.
pub open spec fn history_ops_for(h: Seq<Operation>, key: Seq<char>) -> Multiset<
    (KvOp, Seq<char>, Seq<char>, Seq<char>, u128, u128),
>
    decreases h.len(),
{
    if h.len() == 0 {
        Multiset::empty()
    } else {
        let rest = history_ops_for(h.drop_last(), key);
        if h.last().input.key@ == key {
            rest.insert(op_core(h.last()))
        } else {
            rest
        }
    }
}

/// The content of the operation `id` describes in a sub-history: its
/// call's input, its return's output, and the two times.
pub open spec fn group_op_core(es: Seq<Entry>, id: int) -> (
    KvOp,
    Seq<char>,
    Seq<char>,
    Seq<char>,
    u128,
    u128,
) {
    let c = es[call_idx_from(es, id, 0)];
    let rt = es[ret_idx_from(es, id, 0)];
    (
        entry_input(c).op,
        entry_input(c).key@,
        entry_input(c).value@,
        entry_output(rt).value@,
        c.time,
        rt.time,
    )
}

/// The contents of the first `n` operations of a sub-history.
pub open spec fn group_ops_upto(es: Seq<Entry>, n: int) -> Multiset<
    (KvOp, Seq<char>, Seq<char>, Seq<char>, u128, u128),
>
    decreases n,
{
    if n <= 0 {
        Multiset::empty()
    } else {
        group_ops_upto(es, n - 1).insert(group_op_core(es, n - 1))
    }
}

/// The contents of all the operations of a sub-history.
pub open spec fn group_ops(es: Seq<Entry>) -> Multiset<
    (KvOp, Seq<char>, Seq<char>, Seq<char>, u128, u128),
> {
    group_ops_upto(es, (es.len() / 2) as int)
}

/// The key a sub-history is about: its first operation's.
pub open spec fn group_key(es: Seq<Entry>) -> Seq<char> {
    entry_input(es[call_idx_from(es, 0, 0)]).key@
}

/// No operation id has two calls or two returns.
pub open spec fn unique_pairs(es: Seq<Entry>) -> bool {
    forall|i: int, j: int|
        0 <= i < j < es.len() && (#[trigger] es[i]).id == (#[trigger] es[j]).id ==> !(
        es[i].value is Call && es[j].value is Call) && !(es[i].value is Return
            && es[j].value is Return)
}

/// Some call event carries operation id `id`.
pub open spec fn has_call_id(es: Seq<Entry>, id: int) -> bool {
    exists|i: int| 0 <= i < es.len() && (#[trigger] es[i]).id == id && es[i].value is Call
}

/// Some return event carries operation id `id`.
pub open spec fn has_return_id(es: Seq<Entry>, id: int) -> bool {
    exists|i: int| 0 <= i < es.len() && (#[trigger] es[i]).id == id && es[i].value is Return
}

/// The sub-history holds matched pairs: two events per operation, ids
/// numbered below the operation count, and for every such id both a
/// call and a return are present.
pub open spec fn ids_paired(es: Seq<Entry>) -> bool {
    let n = es.len() / 2;
    &&& es.len() == 2 * n
    &&& forall|i: int| 0 <= i < es.len() ==> (#[trigger] es[i]).id < n
    &&& forall|id: int| 0 <= id < n ==> #[trigger] has_call_id(es, id)
    &&& forall|id: int| 0 <= id < n ==> #[trigger] has_return_id(es, id)
}

impl KvModel {
    /// Split a history by key — each key's events are independent — and
    /// sort each sub-history by time, calls before returns at the same
    /// time. Within a sub-history the q-th operation gets id q, its call
    /// and return carrying the same id.
    pub fn partition(history: Vec<Operation>) -> (r: Vec<Vec<Entry>>)
        ensures
            forall|g: int| 0 <= g < r@.len() ==> entries_sorted((#[trigger] r@[g])@),
            history@.len() == 0 ==> r@.len() == 0,
            total_out(r@) == 2 * history@.len(),
            // Split by key: one key per sub-history, different keys in
            // different sub-histories, matched pairs numbered 0, 1, ...
            forall|g: int, i: int, j: int|
                0 <= g < r@.len() && 0 <= i < r@[g]@.len() && 0 <= j < r@[g]@.len()
                    ==> match ((#[trigger] r@[g]@[i]).value, (#[trigger] r@[g]@[j]).value) {
                    (EntryValue::Call(x), EntryValue::Call(y)) => x.key@ == y.key@,
                    _ => true,
                },
            forall|a: int, b: int, i: int, j: int|
                0 <= a < r@.len() && 0 <= b < r@.len() && a != b && 0 <= i < r@[a]@.len()
                    && 0 <= j < r@[b]@.len() ==> match (
                    (#[trigger] r@[a]@[i]).value,
                    (#[trigger] r@[b]@[j]).value,
                ) {
                    (EntryValue::Call(x), EntryValue::Call(y)) => x.key@ != y.key@,
                    _ => true,
                },
            forall|g: int| 0 <= g < r@.len() ==> ids_paired((#[trigger] r@[g])@),
            // Faithful by content: each sub-history is non-empty, holds
            // one call and one return per operation, and its operations'
            // inputs, outputs and times are exactly the history's
            // operations on its key.
            forall|g: int| 0 <= g < r@.len()
                ==> (#[trigger] r@[g])@.len() > 0 && unique_pairs(r@[g]@),
            forall|g: int| 0 <= g < r@.len() ==> #[trigger] group_ops(r@[g]@)
                == history_ops_for(history@, group_key(r@[g]@)),
    {
        let mut rest = history;
        let mut groups: Vec<(String, Vec<Entry>)> = Vec::new();
        loop
            invariant
                history@.len() == 0 ==> rest@.len() == 0 && groups@.len() == 0,
                total_entries(groups@) + 2 * rest@.len() == 2 * history@.len(),
                forall|g: int| 0 <= g < groups@.len() ==> group_key_is(
                    (#[trigger] groups@[g]).1@,
                    groups@[g].0@,
                ),
                forall|g: int| 0 <= g < groups@.len()
                    ==> ids_paired((#[trigger] groups@[g]).1@),
                forall|g1: int, g2: int| 0 <= g1 < g2 < groups@.len()
                    ==> (#[trigger] groups@[g1]).0@ != (#[trigger] groups@[g2]).0@,
                forall|g: int| 0 <= g < groups@.len()
                    ==> (#[trigger] groups@[g]).1@.len() > 0 && unique_pairs(groups@[g].1@),
                forall|g: int| 0 <= g < groups@.len() ==> #[trigger] group_ops(
                    groups@[g].1@,
                ).add(history_ops_for(rest@, groups@[g].0@)) == history_ops_for(
                    history@,
                    groups@[g].0@,
                ),
                forall|key: Seq<char>|
                    (forall|g: int| 0 <= g < groups@.len()
                        ==> (#[trigger] groups@[g]).0@ != key)
                        ==> #[trigger] history_ops_for(rest@, key) == history_ops_for(
                        history@,
                        key,
                    ),
            ensures
                history@.len() == 0 ==> groups@.len() == 0,
                total_entries(groups@) == 2 * history@.len(),
                forall|g: int| 0 <= g < groups@.len() ==> group_key_is(
                    (#[trigger] groups@[g]).1@,
                    groups@[g].0@,
                ),
                forall|g: int| 0 <= g < groups@.len()
                    ==> ids_paired((#[trigger] groups@[g]).1@),
                forall|g1: int, g2: int| 0 <= g1 < g2 < groups@.len()
                    ==> (#[trigger] groups@[g1]).0@ != (#[trigger] groups@[g2]).0@,
                forall|g: int| 0 <= g < groups@.len()
                    ==> (#[trigger] groups@[g]).1@.len() > 0 && unique_pairs(groups@[g].1@),
                forall|g: int| 0 <= g < groups@.len() ==> #[trigger] group_ops(groups@[g].1@)
                    == history_ops_for(history@, groups@[g].0@),
            decreases rest@.len(),
        {
            let ghost rest_top = rest@;
            let ghost groups_top = groups@;
            let op = match rest.pop() {
                Option::Some(op) => op,
                Option::None => {
                    proof {
                        assert forall|g: int| 0 <= g < groups@.len()
                            implies #[trigger] group_ops(groups@[g].1@) == history_ops_for(
                                history@,
                                groups@[g].0@,
                            ) by {
                            assert(rest@.len() == 0);
                            assert(history_ops_for(rest@, groups@[g].0@)
                                =~= Multiset::empty());
                            assert(group_ops(groups@[g].1@).add(Multiset::empty())
                                =~= group_ops(groups@[g].1@));
                        }
                    }
                    break;
                },
            };
            let ghost rest_pre = rest@.push(op);
            proof {
                assert(rest_pre.drop_last() =~= rest@);
                assert(rest_pre.last() == op);
                assert(rest_top =~= rest_pre);
            }
            let found = find_group(&groups, &op.input.key);
            if found == groups.len() {
                let key = op.input.key.clone();
                let ghost pre = groups@;
                let fresh: Vec<Entry> = Vec::new();
                proof {
                    lemma_total_entries_snoc(pre, (key, fresh));
                }
                proof {
                    // No group held this key yet: all its operations are
                    // still pending, including the one just popped.
                    assert(history_ops_for(rest_pre, op.input.key@)
                        == history_ops_for(history@, op.input.key@));
                }
                groups.push((key, fresh));
                proof {
                    assert(groups@[pre.len() as int].1@.len() == 0);
                    assert(ids_paired(groups@[pre.len() as int].1@));
                    assert(unique_pairs(groups@[pre.len() as int].1@));
                    assert(group_ops(groups@[pre.len() as int].1@) =~= Multiset::empty());
                    assert(group_ops(groups@[pre.len() as int].1@).add(history_ops_for(
                        rest_pre,
                        key@,
                    )) =~= history_ops_for(rest_pre, key@));
                    assert forall|g: int| 0 <= g < groups@.len()
                        implies group_key_is((#[trigger] groups@[g]).1@, groups@[g].0@)
                            && ids_paired(groups@[g].1@) by {
                        if g < pre.len() {
                            assert(groups@[g] == pre[g]);
                        }
                    }
                }
            }
            let slot = found;
            proof {
                assert(slot < groups@.len());
                assert(groups@[slot as int].0@ == op.input.key@);
            }
            let id = groups[slot].1.len() / 2;
            let call_entry = Entry {
                value: EntryValue::Call(op.input),
                id,
                time: op.call,
                client_id: op.client_id,
            };
            let return_entry = Entry {
                value: EntryValue::Return(op.output),
                id,
                time: op.ret,
                client_id: op.client_id,
            };
            let ghost before = groups@;
            groups[slot].1.push(call_entry);
            proof {
                lemma_total_entries_update(before, slot as int, groups@[slot as int]);
            }
            let ghost mid = groups@;
            groups[slot].1.push(return_entry);
            proof {
                lemma_total_entries_update(mid, slot as int, groups@[slot as int]);
                let si = slot as int;
                let pre_es = before[si].1@;
                let new_es = groups@[si].1@;
                let k0 = before[si].0@;
                assert(new_es =~= pre_es.push(call_entry).push(return_entry));
                assert(ids_paired(pre_es));
                lemma_pair_extend(pre_es, new_es, call_entry, return_entry);
                lemma_group_ops_extend(pre_es, new_es, call_entry, return_entry);
                // The pair just laid down carries exactly this
                // operation's content.
                assert(entry_input(call_entry) == op.input);
                assert(entry_output(return_entry) == op.output);
                assert(group_ops(new_es) == group_ops(pre_es).insert(op_core(op)));
                // The operation left the pending history and entered its
                // group; every other key's balance is untouched.
                assert(k0 == op.input.key@);
                assert(history_ops_for(rest_pre, k0)
                    == history_ops_for(rest@, k0).insert(op_core(op)));
                assert(group_ops(pre_es).add(history_ops_for(rest_pre, k0))
                    == history_ops_for(history@, k0));
                assert(group_ops(new_es).add(history_ops_for(rest@, k0))
                    =~= group_ops(pre_es).add(history_ops_for(rest_pre, k0)));
                assert forall|g: int| 0 <= g < groups@.len()
                    implies #[trigger] group_ops(groups@[g].1@).add(history_ops_for(
                        rest@,
                        groups@[g].0@,
                    )) == history_ops_for(history@, groups@[g].0@) by {
                    if g != si {
                        assert(groups@[g] == before[g]);
                        assert(before[g].0@ != k0) by {
                            if g < si {
                                assert((#[trigger] before[g]).0@ != (#[trigger] before[si]).0@);
                            } else {
                                assert((#[trigger] before[si]).0@ != (#[trigger] before[g]).0@);
                            }
                        }
                        assert(history_ops_for(rest_pre, before[g].0@)
                            == history_ops_for(rest@, before[g].0@));
                    }
                }
                assert forall|key: Seq<char>|
                    (forall|g: int| 0 <= g < groups@.len()
                        ==> (#[trigger] groups@[g]).0@ != key)
                        implies #[trigger] history_ops_for(rest@, key) == history_ops_for(
                        history@,
                        key,
                    ) by {
                    assert(groups@[si].0@ != key);
                    assert(key != k0);
                    assert(history_ops_for(rest_pre, key) == history_ops_for(rest@, key));
                    assert forall|g: int| 0 <= g < groups_top.len()
                        implies (#[trigger] groups_top[g]).0@ != key by {
                        assert(groups_top[g].0@ == before[g].0@);
                        assert(before[g].0@ == groups@[g].0@);
                    }
                    assert(history_ops_for(rest_top, key) == history_ops_for(history@, key));
                }
                assert(group_key_is(new_es, groups@[si].0@)) by {
                    assert forall|i: int| 0 <= i < new_es.len() implies match (
                        #[trigger] new_es[i]
                    ).value {
                        EntryValue::Call(inp) => inp.key@ == groups@[si].0@,
                        _ => true,
                    } by {
                        if i < pre_es.len() {
                            assert(new_es[i] == pre_es[i]);
                        }
                    }
                }
                assert forall|g: int| 0 <= g < groups@.len()
                    implies group_key_is((#[trigger] groups@[g]).1@, groups@[g].0@)
                        && ids_paired(groups@[g].1@) by {
                    if g != si {
                        assert(groups@[g] == before[g]);
                    }
                }
            }
        }
        let mut r: Vec<Vec<Entry>> = Vec::new();
        proof {
            assert(r@ =~= Seq::<Vec<Entry>>::empty());
            assert(total_out(Seq::<Vec<Entry>>::empty()) == 0);
        }
        let mut g: usize = 0;
        let n_groups = groups.len();
        let ghost all_groups = groups@;
        let mut rest_groups = groups;
        while g < n_groups
            invariant
                g <= n_groups,
                n_groups == all_groups.len(),
                rest_groups@ == all_groups.skip(g as int),
                forall|q: int| 0 <= q < r@.len() ==> entries_sorted((#[trigger] r@[q])@),
                history@.len() == 0 ==> n_groups == 0 && r@.len() == 0,
                total_out(r@) + total_entries(rest_groups@) == 2 * history@.len(),
                r@.len() == g,
                forall|q: int| 0 <= q < all_groups.len() ==> group_key_is(
                    (#[trigger] all_groups[q]).1@,
                    all_groups[q].0@,
                ),
                forall|q: int| 0 <= q < all_groups.len()
                    ==> ids_paired((#[trigger] all_groups[q]).1@),
                forall|q1: int, q2: int| 0 <= q1 < q2 < all_groups.len()
                    ==> (#[trigger] all_groups[q1]).0@ != (#[trigger] all_groups[q2]).0@,
                forall|q: int| 0 <= q < all_groups.len()
                    ==> (#[trigger] all_groups[q]).1@.len() > 0 && unique_pairs(
                    all_groups[q].1@,
                ),
                forall|q: int| 0 <= q < all_groups.len() ==> #[trigger] group_ops(
                    all_groups[q].1@,
                ) == history_ops_for(history@, all_groups[q].0@),
                forall|q: int| 0 <= q < r@.len() ==> group_key_is(
                    (#[trigger] r@[q])@,
                    all_groups[q].0@,
                ) && ids_paired(r@[q]@),
                forall|q: int| 0 <= q < r@.len()
                    ==> (#[trigger] r@[q])@.len() > 0 && unique_pairs(r@[q]@)
                        && group_ops(r@[q]@) == history_ops_for(history@, all_groups[q].0@)
                        && group_key(r@[q]@) == all_groups[q].0@,
            decreases n_groups - g,
        {
            let ghost pre_rest = rest_groups@;
            let ghost pre_r = r@;
            let (_key, es) = rest_groups.remove(0);
            proof {
                assert(pre_rest[0] == all_groups[g as int]);
                assert(es@ == all_groups[g as int].1@);
            }
            let sorted = sort_entries(es);
            proof {
                assert(rest_groups@ =~= pre_rest.skip(1));
                assert(rest_groups@ =~= all_groups.skip(g + 1));
                lemma_total_out_snoc(pre_r, sorted);
                lemma_shape_transfer(es@, sorted@, all_groups[g as int].0@);
                lemma_group_ops_permute(es@, sorted@);
                // The sorted sub-history names the same key.
                let key = all_groups[g as int].0@;
                assert(sorted@.len() == es@.len());
                assert(sorted@.len() / 2 >= 1);
                assert(has_call_id(sorted@, 0));
                let w = choose|w: int|
                    0 <= w < sorted@.len() && (#[trigger] sorted@[w]).id == 0
                        && sorted@[w].value is Call;
                lemma_call_idx_finds(sorted@, 0, w, 0);
                lemma_call_idx_hit(sorted@, 0, 0);
                assert(group_key(sorted@) == key);
            }
            r.push(sorted);
            g = g + 1;
        }
        proof {
            assert forall|q: int| 0 <= q < r@.len()
                implies #[trigger] group_ops(r@[q]@) == history_ops_for(
                    history@,
                    group_key(r@[q]@),
                ) by {
                assert(group_key(r@[q]@) == all_groups[q].0@);
            }
            assert forall|q: int, i: int, j: int|
                0 <= q < r@.len() && 0 <= i < r@[q]@.len() && 0 <= j < r@[q]@.len()
                    implies match ((#[trigger] r@[q]@[i]).value, (#[trigger] r@[q]@[j]).value) {
                    (EntryValue::Call(x), EntryValue::Call(y)) => x.key@ == y.key@,
                    _ => true,
                } by {
                assert(group_key_is(r@[q]@, all_groups[q].0@));
            }
            assert forall|a: int, b: int, i: int, j: int|
                0 <= a < r@.len() && 0 <= b < r@.len() && a != b && 0 <= i < r@[a]@.len()
                    && 0 <= j < r@[b]@.len() implies match (
                (#[trigger] r@[a]@[i]).value,
                (#[trigger] r@[b]@[j]).value,
            ) {
                (EntryValue::Call(x), EntryValue::Call(y)) => x.key@ != y.key@,
                _ => true,
            } by {
                assert(group_key_is(r@[a]@, all_groups[a].0@));
                assert(group_key_is(r@[b]@, all_groups[b].0@));
                assert(all_groups[a].0@ != all_groups[b].0@) by {
                    if a < b {
                        assert((#[trigger] all_groups[a]).0@ != (#[trigger] all_groups[b]).0@);
                    } else {
                        assert((#[trigger] all_groups[b]).0@ != (#[trigger] all_groups[a]).0@);
                    }
                }
            }
        }
        r
    }
}

/// The group holding `key`'s events, or one past the end when none does.
fn find_group(groups: &Vec<(String, Vec<Entry>)>, key: &String) -> (r: usize)
    ensures
        r <= groups@.len(),
        r < groups@.len() ==> groups@[r as int].0@ == key@,
        r == groups@.len() ==> forall|g: int| 0 <= g < groups@.len()
            ==> (#[trigger] groups@[g]).0@ != key@,
{
    let n = groups.len();
    let mut g: usize = 0;
    while g < n
        invariant
            n == groups@.len(),
            g <= n,
            forall|j: int| 0 <= j < g ==> (#[trigger] groups@[j]).0@ != key@,
        decreases n - g,
    {
        if groups[g].0.eq(key) {
            return g;
        }
        g = g + 1;
    }
    n
}

/// When some call carries the id, the scan lands on one.
pub proof fn lemma_call_idx_locates(es: Seq<Entry>, id: int, w: int)
    requires
        0 <= w < es.len(),
        es[w].id == id,
        es[w].value is Call,
    ensures
        0 <= call_idx_from(es, id, 0) < es.len(),
        es[call_idx_from(es, id, 0)].id == id,
        es[call_idx_from(es, id, 0)].value is Call,
{
    lemma_call_idx_finds(es, id, w, 0);
    lemma_call_idx_hit(es, id, 0);
}

/// A scan that reports a hit really found one.
proof fn lemma_call_idx_hit(es: Seq<Entry>, id: int, from: int)
    requires
        0 <= from,
        call_idx_from(es, id, from) < es.len(),
    ensures
        from <= call_idx_from(es, id, from),
        es[call_idx_from(es, id, from)].id == id,
        es[call_idx_from(es, id, from)].value is Call,
    decreases es.len() - from,
{
    if from < es.len() && !(es[from].id == id && es[from].value is Call) {
        lemma_call_idx_hit(es, id, from + 1);
    }
}

proof fn lemma_ret_idx_hit(es: Seq<Entry>, id: int, from: int)
    requires
        0 <= from,
        ret_idx_from(es, id, from) < es.len(),
    ensures
        from <= ret_idx_from(es, id, from),
        es[ret_idx_from(es, id, from)].id == id,
        es[ret_idx_from(es, id, from)].value is Return,
    decreases es.len() - from,
{
    if from < es.len() && !(es[from].id == id && es[from].value is Return) {
        lemma_ret_idx_hit(es, id, from + 1);
    }
}

/// A present event is found: the scan does not run off the end.
proof fn lemma_call_idx_finds(es: Seq<Entry>, id: int, w: int, from: int)
    requires
        0 <= from <= w < es.len(),
        es[w].id == id,
        es[w].value is Call,
    ensures
        call_idx_from(es, id, from) <= w,
    decreases es.len() - from,
{
    if !(es[from].id == id && es[from].value is Call) {
        lemma_call_idx_finds(es, id, w, from + 1);
    }
}

proof fn lemma_ret_idx_finds(es: Seq<Entry>, id: int, w: int, from: int)
    requires
        0 <= from <= w < es.len(),
        es[w].id == id,
        es[w].value is Return,
    ensures
        ret_idx_from(es, id, from) <= w,
    decreases es.len() - from,
{
    if !(es[from].id == id && es[from].value is Return) {
        lemma_ret_idx_finds(es, id, w, from + 1);
    }
}

/// Scans are unaffected by events appended after a hit.
proof fn lemma_call_idx_prefix(pre: Seq<Entry>, post: Seq<Entry>, id: int, from: int)
    requires
        0 <= from,
        pre.len() <= post.len(),
        forall|i: int| 0 <= i < pre.len() ==> post[i] == pre[i],
        call_idx_from(pre, id, from) < pre.len(),
    ensures
        call_idx_from(post, id, from) == call_idx_from(pre, id, from),
    decreases pre.len() - from,
{
    if from < pre.len() && !(pre[from].id == id && pre[from].value is Call) {
        lemma_call_idx_prefix(pre, post, id, from + 1);
    }
}

proof fn lemma_ret_idx_prefix(pre: Seq<Entry>, post: Seq<Entry>, id: int, from: int)
    requires
        0 <= from,
        pre.len() <= post.len(),
        forall|i: int| 0 <= i < pre.len() ==> post[i] == pre[i],
        ret_idx_from(pre, id, from) < pre.len(),
    ensures
        ret_idx_from(post, id, from) == ret_idx_from(pre, id, from),
    decreases pre.len() - from,
{
    if from < pre.len() && !(pre[from].id == id && pre[from].value is Return) {
        lemma_ret_idx_prefix(pre, post, id, from + 1);
    }
}

/// A scan for an id no prefix event carries lands past the prefix.
proof fn lemma_call_idx_past(es: Seq<Entry>, id: int, from: int, upto: int)
    requires
        0 <= from <= upto <= es.len(),
        forall|i: int| from <= i < upto
            ==> !((#[trigger] es[i]).id == id && es[i].value is Call),
    ensures
        call_idx_from(es, id, from) == call_idx_from(es, id, upto),
    decreases upto - from,
{
    if from < upto {
        lemma_call_idx_past(es, id, from + 1, upto);
    }
}

proof fn lemma_ret_idx_past(es: Seq<Entry>, id: int, from: int, upto: int)
    requires
        0 <= from <= upto <= es.len(),
        forall|i: int| from <= i < upto
            ==> !((#[trigger] es[i]).id == id && es[i].value is Return),
    ensures
        ret_idx_from(es, id, from) == ret_idx_from(es, id, upto),
    decreases upto - from,
{
    if from < upto {
        lemma_ret_idx_past(es, id, from + 1, upto);
    }
}

/// Appending one operation's pair appends its content: the sub-history
/// describes one more operation and nothing else changes.
proof fn lemma_group_ops_extend(pre: Seq<Entry>, post: Seq<Entry>, c: Entry, rt: Entry)
    requires
        ids_paired(pre),
        unique_pairs(pre),
        post == pre.push(c).push(rt),
        c.id == pre.len() / 2,
        rt.id == pre.len() / 2,
        c.value is Call,
        rt.value is Return,
    ensures
        unique_pairs(post),
        group_ops(post) == group_ops(pre).insert(
            (
                entry_input(c).op,
                entry_input(c).key@,
                entry_input(c).value@,
                entry_output(rt).value@,
                c.time,
                rt.time,
            ),
        ),
    decreases pre.len(),
{
    let n = (pre.len() / 2) as int;
    assert forall|i: int, j: int|
        0 <= i < j < post.len() && (#[trigger] post[i]).id == (#[trigger] post[j]).id
        implies !(post[i].value is Call && post[j].value is Call) && !(post[i].value is Return
            && post[j].value is Return) by {
        if j < pre.len() {
            assert(post[i] == pre[i] && post[j] == pre[j]);
        } else if i < pre.len() {
            assert(post[i] == pre[i]);
            assert(pre[i].id < n);
        }
    }
    // The new pair sits exactly at the end.
    assert(post[pre.len() as int] == c && post[pre.len() as int + 1] == rt);
    assert forall|i: int| 0 <= i < pre.len()
        implies !((#[trigger] post[i]).id == n && post[i].value is Call) by {
        assert(post[i] == pre[i]);
    }
    lemma_call_idx_past(post, n, 0, pre.len() as int);
    assert(call_idx_from(post, n, 0) == pre.len());
    assert forall|i: int| 0 <= i < pre.len() + 1
        implies !((#[trigger] post[i]).id == n && post[i].value is Return) by {
        if i < pre.len() {
            assert(post[i] == pre[i]);
        }
    }
    lemma_ret_idx_past(post, n, 0, pre.len() as int + 1);
    assert(ret_idx_from(post, n, 0) == pre.len() + 1);
    assert(group_op_core(post, n) == (
        entry_input(c).op,
        entry_input(c).key@,
        entry_input(c).value@,
        entry_output(rt).value@,
        c.time,
        rt.time,
    ));
    // Earlier operations read the same entries as before.
    assert forall|id: int| 0 <= id < n
        implies group_op_core(post, id) == group_op_core(pre, id) by {
        assert(has_call_id(pre, id));
        let w = choose|w: int|
            0 <= w < pre.len() && (#[trigger] pre[w]).id == id && pre[w].value is Call;
        assert(post[w] == pre[w]);
        lemma_call_idx_finds(pre, id, w, 0);
        lemma_call_idx_prefix(pre, post, id, 0);
        lemma_call_idx_hit(pre, id, 0);
        assert(post[call_idx_from(pre, id, 0)] == pre[call_idx_from(pre, id, 0)]);
        assert(has_return_id(pre, id));
        let w2 = choose|w2: int|
            0 <= w2 < pre.len() && (#[trigger] pre[w2]).id == id && pre[w2].value is Return;
        lemma_ret_idx_finds(pre, id, w2, 0);
        lemma_ret_idx_prefix(pre, post, id, 0);
        lemma_ret_idx_hit(pre, id, 0);
        assert(post[ret_idx_from(pre, id, 0)] == pre[ret_idx_from(pre, id, 0)]);
    }
    lemma_group_ops_upto_same(pre, post, n);
    assert((post.len() / 2) as int == n + 1);
    assert(group_ops(post) == group_ops_upto(post, n).insert(group_op_core(post, n)));
}

/// Two sub-histories whose first `n` operations read equal entries
/// describe the same contents.
proof fn lemma_group_ops_upto_same(a: Seq<Entry>, b: Seq<Entry>, n: int)
    requires
        forall|id: int| 0 <= id < n
            ==> #[trigger] group_op_core(b, id) == group_op_core(a, id),
    ensures
        group_ops_upto(b, n) == group_ops_upto(a, n),
    decreases n,
{
    if n > 0 {
        lemma_group_ops_upto_same(a, b, n - 1);
    }
}

/// Two events at different slots with one value occur at least twice.
proof fn lemma_count_two(s: Seq<Entry>, i: int, j: int)
    requires
        0 <= i < j < s.len(),
        s[i] == s[j],
    ensures
        s.to_multiset().count(s[i]) >= 2,
{
    broadcast use vstd::seq_lib::group_to_multiset_ensures;

    assert(s.remove(i).to_multiset() =~= s.to_multiset().remove(s[i]));
    assert(s.remove(i)[j - 1] == s[j]);
    assert(s.remove(i).contains(s[j]));
    assert(s.remove(i).to_multiset().count(s[j]) > 0);
}

/// The contents a sub-history describes survive any reordering of its
/// events, as long as no id has two calls or two returns.
proof fn lemma_group_ops_permute(a: Seq<Entry>, b: Seq<Entry>)
    requires
        a.to_multiset() == b.to_multiset(),
        ids_paired(a),
        unique_pairs(a),
    ensures
        unique_pairs(b),
        group_ops(b) == group_ops(a),
{
    broadcast use vstd::seq_lib::group_to_multiset_ensures;

    assert(a.len() == a.to_multiset().len());
    assert(b.len() == b.to_multiset().len());
    let n = (a.len() / 2) as int;
    assert forall|i: int, j: int|
        0 <= i < j < b.len() && (#[trigger] b[i]).id == (#[trigger] b[j]).id
        implies !(b[i].value is Call && b[j].value is Call) && !(b[i].value is Return
            && b[j].value is Return) by {
        if b[i] == b[j] {
            lemma_count_two(b, i, j);
            assert(a.to_multiset().count(b[i]) >= 2);
            assert(a.to_multiset().count(b[i]) > 0);
            assert(a.contains(b[i]));
            let w1 = choose|w1: int| 0 <= w1 < a.len() && a[w1] == b[i];
            lemma_count_two_rev(a, w1, b[i]);
        } else {
            assert(b.contains(b[i]) && b.contains(b[j]));
            assert(b.to_multiset().count(b[i]) > 0 && b.to_multiset().count(b[j]) > 0);
            assert(a.to_multiset().count(b[i]) > 0 && a.to_multiset().count(b[j]) > 0);
            assert(a.contains(b[i]) && a.contains(b[j]));
            let w1 = choose|w1: int| 0 <= w1 < a.len() && a[w1] == b[i];
            let w2 = choose|w2: int| 0 <= w2 < a.len() && a[w2] == b[j];
            assert(w1 != w2);
        }
    }
    assert forall|id: int| 0 <= id < n
        implies #[trigger] group_op_core(b, id) == group_op_core(a, id) by {
        // The (unique) call with this id is the same entry in both.
        assert(has_call_id(a, id));
        let wa = choose|wa: int|
            0 <= wa < a.len() && (#[trigger] a[wa]).id == id && a[wa].value is Call;
        assert(a.contains(a[wa]));
        assert(a.to_multiset().count(a[wa]) > 0);
        assert(b.to_multiset().count(a[wa]) > 0);
        assert(b.contains(a[wa]));
        let wb = choose|wb: int| 0 <= wb < b.len() && b[wb] == a[wa];
        lemma_call_idx_finds(a, id, wa, 0);
        lemma_call_idx_hit(a, id, 0);
        lemma_call_idx_finds(b, id, wb, 0);
        lemma_call_idx_hit(b, id, 0);
        let ia = call_idx_from(a, id, 0);
        let ib = call_idx_from(b, id, 0);
        assert(b[ib].value is Call && b[ib].id == id);
        assert(b.contains(b[ib]));
        assert(b.to_multiset().count(b[ib]) > 0);
        assert(a.to_multiset().count(b[ib]) > 0);
        assert(a.contains(b[ib]));
        let va = choose|va: int| 0 <= va < a.len() && a[va] == b[ib];
        assert(a[va].value is Call && a[va].id == id);
        assert(va == ia || a[va] == a[ia]) by {
            if va != ia {
                if va < ia {
                    assert(!(a[va].value is Call && a[ia].value is Call) || !(a[va].id
                        == a[ia].id));
                } else {
                    assert(!(a[ia].value is Call && a[va].value is Call) || !(a[ia].id
                        == a[va].id));
                }
            }
        }
        assert(b[ib] == a[ia]);
        // And the unique return likewise.
        assert(has_return_id(a, id));
        let ra = choose|ra: int|
            0 <= ra < a.len() && (#[trigger] a[ra]).id == id && a[ra].value is Return;
        assert(a.contains(a[ra]));
        assert(a.to_multiset().count(a[ra]) > 0);
        assert(b.to_multiset().count(a[ra]) > 0);
        assert(b.contains(a[ra]));
        let rb = choose|rb: int| 0 <= rb < b.len() && b[rb] == a[ra];
        lemma_ret_idx_finds(a, id, ra, 0);
        lemma_ret_idx_hit(a, id, 0);
        lemma_ret_idx_finds(b, id, rb, 0);
        lemma_ret_idx_hit(b, id, 0);
        let ja = ret_idx_from(a, id, 0);
        let jb = ret_idx_from(b, id, 0);
        assert(b.contains(b[jb]));
        assert(b.to_multiset().count(b[jb]) > 0);
        assert(a.to_multiset().count(b[jb]) > 0);
        assert(a.contains(b[jb]));
        let ua = choose|ua: int| 0 <= ua < a.len() && a[ua] == b[jb];
        assert(ua == ja || a[ua] == a[ja]) by {
            if ua != ja {
                if ua < ja {
                    assert(!(a[ua].value is Return && a[ja].value is Return) || !(a[ua].id
                        == a[ja].id));
                } else {
                    assert(!(a[ja].value is Return && a[ua].value is Return) || !(a[ja].id
                        == a[ua].id));
                }
            }
        }
        assert(b[jb] == a[ja]);
    }
    lemma_group_ops_upto_same(a, b, n);
    assert((b.len() / 2) as int == n);
}

/// A value at one slot whose multiset count is two or more occurs at a
/// second slot too.
proof fn lemma_count_two_rev(s: Seq<Entry>, i: int, v: Entry)
    requires
        0 <= i < s.len(),
        s[i] == v,
        s.to_multiset().count(v) >= 2,
    ensures
        exists|j: int| 0 <= j < s.len() && j != i && s[j] == v,
{
    broadcast use vstd::seq_lib::group_to_multiset_ensures;

    assert(s.remove(i).to_multiset() =~= s.to_multiset().remove(v));
    assert(s.remove(i).to_multiset().count(v) >= 1);
    assert(s.remove(i).contains(v));
    let j0 = choose|j0: int| 0 <= j0 < s.remove(i).len() && s.remove(i)[j0] == v;
    if j0 < i {
        assert(s[j0] == v);
    } else {
        assert(s[j0 + 1] == v);
    }
}

/// Appending one operation's call and return keeps the pairing shape.
proof fn lemma_pair_extend(pre: Seq<Entry>, post: Seq<Entry>, c: Entry, rt: Entry)
    requires
        ids_paired(pre),
        post == pre.push(c).push(rt),
        c.id == pre.len() / 2,
        rt.id == pre.len() / 2,
        c.value is Call,
        rt.value is Return,
    ensures
        ids_paired(post),
{
    let n = pre.len() / 2;
    assert(post.len() == 2 * (n + 1));
    assert forall|i: int| 0 <= i < post.len() implies (#[trigger] post[i]).id < n + 1 by {
        if i < pre.len() {
            assert(post[i] == pre[i]);
        }
    }
    assert forall|id: int| 0 <= id < n + 1 implies has_call_id(post, id) by {
        if id < n {
            assert(has_call_id(pre, id));
            let i = choose|i: int|
                0 <= i < pre.len() && (#[trigger] pre[i]).id == id && pre[i].value is Call;
            assert(post[i] == pre[i]);
        } else {
            assert(post[pre.len() as int] == c);
        }
    }
    assert forall|id: int| 0 <= id < n + 1 implies has_return_id(post, id) by {
        if id < n {
            assert(has_return_id(pre, id));
            let i = choose|i: int|
                0 <= i < pre.len() && (#[trigger] pre[i]).id == id && pre[i].value is Return;
            assert(post[i] == pre[i]);
        } else {
            assert(post[pre.len() as int + 1] == rt);
        }
    }
}

/// The key and pairing shape of a sub-history survive any reordering.
proof fn lemma_shape_transfer(a: Seq<Entry>, b: Seq<Entry>, key: Seq<char>)
    requires
        a.to_multiset() == b.to_multiset(),
        group_key_is(a, key),
        ids_paired(a),
    ensures
        group_key_is(b, key),
        ids_paired(b),
{
    broadcast use vstd::seq_lib::group_to_multiset_ensures;

    assert(a.len() == a.to_multiset().len());
    assert(b.len() == b.to_multiset().len());
    assert forall|i: int| 0 <= i < b.len() implies exists|j: int|
        0 <= j < a.len() && a[j] == #[trigger] b[i] by {
        assert(b.contains(b[i]));
        assert(b.to_multiset().count(b[i]) > 0);
        assert(a.contains(b[i]));
    }
    assert forall|i: int| 0 <= i < b.len() implies (match (#[trigger] b[i]).value {
        EntryValue::Call(inp) => inp.key@ == key,
        _ => true,
    }) && b[i].id < b.len() / 2 by {
        let j = choose|j: int| 0 <= j < a.len() && a[j] == b[i];
        assert(a[j].id < a.len() / 2);
    }
    assert forall|id: int| 0 <= id < b.len() / 2 implies has_call_id(b, id) by {
        assert(has_call_id(a, id));
        let j = choose|j: int|
            0 <= j < a.len() && (#[trigger] a[j]).id == id && a[j].value is Call;
        assert(a.contains(a[j]));
        assert(a.to_multiset().count(a[j]) > 0);
        assert(b.contains(a[j]));
        let i = choose|i: int| 0 <= i < b.len() && b[i] == a[j];
        assert(b[i].id == id && b[i].value is Call);
    }
    assert forall|id: int| 0 <= id < b.len() / 2 implies has_return_id(b, id) by {
        assert(has_return_id(a, id));
        let j = choose|j: int|
            0 <= j < a.len() && (#[trigger] a[j]).id == id && a[j].value is Return;
        assert(a.contains(a[j]));
        assert(a.to_multiset().count(a[j]) > 0);
        assert(b.contains(a[j]));
        let i = choose|i: int| 0 <= i < b.len() && b[i] == a[j];
        assert(b[i].id == id && b[i].value is Return);
    }
}

/// Sort events by `entry_le` (insertion sort).
fn sort_entries(es: Vec<Entry>) -> (r: Vec<Entry>)
    ensures
        entries_sorted(r@),
        r@.len() == es@.len(),
        r@.to_multiset() == es@.to_multiset(),
{
    let mut rest = es;
    let mut out: Vec<Entry> = Vec::new();
    let total = rest.len();
    proof {
        broadcast use vstd::seq_lib::group_to_multiset_ensures;

        assert(out@.to_multiset().len() == 0);
        assert(out@.to_multiset().add(rest@.to_multiset()) =~= es@.to_multiset());
    }
    loop
        invariant
            entries_sorted(out@),
            out@.len() + rest@.len() == total,
            total == es@.len(),
            out@.to_multiset().add(rest@.to_multiset()) == es@.to_multiset(),
        ensures
            entries_sorted(out@),
            out@.len() == total,
            out@.to_multiset() == es@.to_multiset(),
        decreases rest@.len(),
    {
        let ghost rest_pre = rest@;
        let e = match rest.pop() {
            Option::Some(e) => e,
            Option::None => {
                proof {
                    broadcast use vstd::seq_lib::group_to_multiset_ensures;

                    assert(rest@.to_multiset().len() == 0);
                    assert(out@.to_multiset().add(rest@.to_multiset()) =~= out@.to_multiset());
                }
                break;
            },
        };
        proof {
            broadcast use vstd::seq_lib::group_to_multiset_ensures;

            assert(rest_pre =~= rest@.push(e));
            assert(rest_pre.to_multiset() =~= rest@.to_multiset().insert(e));
        }
        // Find the first position whose element must come after `e`.
        let mut p: usize = 0;
        while p < out.len() && entry_le_exec(&out[p], &e)
            invariant
                entries_sorted(out@),
                p <= out@.len(),
                forall|q: int| 0 <= q < p ==> entry_le(out@[q], e),
            decreases out@.len() - p,
        {
            p = p + 1;
        }
        proof {
            if p < out@.len() {
                assert(!entry_le(out@[p as int], e));
                assert(entry_le(e, out@[p as int])) by {
                    lemma_entry_le_total(e, out@[p as int]);
                }
            }
            assert forall|q: int| p <= q < out@.len() implies entry_le(e, out@[q]) by {
                if p < out@.len() {
                    assert(entry_le(e, out@[p as int])) by {
                        lemma_entry_le_total(e, out@[p as int]);
                    }
                    if q > p {
                        assert(entry_le(out@[p as int], out@[q]));
                        lemma_entry_le_trans(e, out@[p as int], out@[q]);
                    }
                }
            }
        }
        let ghost pre = out@;
        out.insert(p, e);
        proof {
            broadcast use vstd::seq_lib::group_to_multiset_ensures;

            assert(out@.remove(p as int) =~= pre);
            assert(out@.remove(p as int).to_multiset() =~= out@.to_multiset().remove(
                out@[p as int],
            ));
            assert(out@[p as int] == e);
            assert(out@.contains(e));
            assert(out@.to_multiset().count(e) > 0);
            assert(out@.to_multiset() =~= pre.to_multiset().insert(e));
            assert(out@.to_multiset().add(rest@.to_multiset()) =~= pre.to_multiset().add(
                rest_pre.to_multiset(),
            ));
            assert forall|i: int, j: int| 0 <= i < j < out@.len()
                implies entry_le(out@[i], out@[j]) by {
                let pi = p as int;
                if i < pi && j == pi {
                } else if i == pi && j > pi {
                } else if i < pi && j > pi {
                    assert(out@[i] == pre[i]);
                    assert(out@[j] == pre[j - 1]);
                } else if j < pi {
                    assert(out@[i] == pre[i] && out@[j] == pre[j]);
                } else if i > pi {
                    assert(out@[i] == pre[i - 1] && out@[j] == pre[j - 1]);
                }
            }
        }
    }
    out
}

/// `entry_le` decided at run time.
fn entry_le_exec(a: &Entry, b: &Entry) -> (r: bool)
    ensures
        r == entry_le(*a, *b),
{
    if a.time < b.time {
        true
    } else if a.time == b.time {
        let a_ret = match a.value {
            EntryValue::Return(_) => true,
            _ => false,
        };
        let b_ret = match b.value {
            EntryValue::Return(_) => true,
            _ => false,
        };
        !a_ret || b_ret
    } else {
        false
    }
}

/// `entry_le` is total.
proof fn lemma_entry_le_total(a: Entry, b: Entry)
    ensures
        entry_le(a, b) || entry_le(b, a),
{
}

/// `entry_le` is transitive.
proof fn lemma_entry_le_trans(a: Entry, b: Entry, c: Entry)
    requires
        entry_le(a, b),
        entry_le(b, c),
    ensures
        entry_le(a, c),
{
}

} // verus!
