//! The search for a linearization, with a checked witness.
//!
//! The search walks the undecided events in time order. A call whose
//! matched return makes a legal model step is tentatively linearized:
//! the pair leaves the list, the choice goes on a stack, and the walk
//! restarts from the front. A return with no linearized call forces
//! backtracking. A cache of (linearized set, model state) pairs prunes
//! states already explored. A positive verdict is only ever produced
//! after the collected order has been re-checked as a witness, so `Ok`
//! always means a linearization exists.

use vstd::prelude::*;
use crate::porcupine::kv::{
    call_idx_from, entries_sorted, group_key, group_ops, history_ops_for, ids_paired,
    ret_idx_from, step_ok, step_state, total_out, unique_pairs, Entry, EntryValue, KvModel,
    Operation,
};
use crate::porcupine::utils::{EntryNode, EntryView, LinkedEntries};

verus! {

/// Evidence attached to a negative verdict.
pub struct LinearizationInfo {}

/// Why a history was not passed.
pub enum Error {
    /// No linearization exists: the search exhausted every order.
    Illegal(LinearizationInfo),
    /// The search budget ran out before a verdict.
    Unknown,
}

/// How many search steps a sub-history is given before the verdict
/// degrades to `Unknown`.
pub const SEARCH_BUDGET: u64 = 10000000;

/// No operation id occurs twice.
pub open spec fn distinct_ids(order: Seq<usize>) -> bool {
    forall|i: int, j: int| 0 <= i < j < order.len() ==> order[i] != order[j]
}

/// The orders `order` linearizes the history legally from state `st`:
/// each listed operation has a call and a return in the history, and its
/// output is a legal answer in the state reached so far.
pub open spec fn wit_ok(h: Seq<Entry>, order: Seq<usize>, st: Seq<char>) -> bool
    decreases order.len(),
{
    if order.len() == 0 {
        true
    } else {
        exists|ci: int, ri: int|
            {
                &&& 0 <= ci < h.len()
                &&& 0 <= ri < h.len()
                &&& h[ci].id == order[0]
                &&& h[ri].id == order[0]
                &&& match (h[ci].value, h[ri].value) {
                    (EntryValue::Call(inp), EntryValue::Return(out)) => {
                        &&& step_ok(st, inp, out)
                        &&& wit_ok(h, order.skip(1), step_state(st, inp))
                    },
                    _ => false,
                }
            }
    }
}

/// The order respects real time: an operation whose return precedes
/// another's call is never placed after it.
pub open spec fn precedence_ok(h: Seq<Entry>, order: Seq<usize>) -> bool {
    forall|q1: int, q2: int|
        0 <= q1 < q2 < order.len() ==> {
            let ci = call_idx_from(h, #[trigger] order[q1] as int, 0);
            let ri = ret_idx_from(h, #[trigger] order[q2] as int, 0);
            ci < h.len() && ri < h.len() ==> !(h[ri].time < h[ci].time)
        }
}

/// A full, duplicate-free, legal linearization of a history of `n`
/// operations, placed consistently with real time.
pub open spec fn spec_valid_witness(h: Seq<Entry>, order: Seq<usize>, n: int) -> bool {
    &&& order.len() == n
    &&& forall|k: int| 0 <= k < order.len() ==> (#[trigger] order[k]) < n
    &&& distinct_ids(order)
    &&& wit_ok(h, order, Seq::<char>::empty())
    &&& precedence_ok(h, order)
}

/// A by-key split of the recorded history, each key with a checked
/// linearization witness: what a passing whole-history verdict rests on.
/// Every sub-history is sorted, pairs its events one call and one return
/// per operation, and holds exactly the contents of the history's
/// operations on its key; the keys are distinct and the event count
/// matches the history, so no operation is dropped or invented.
pub open spec fn witnessed_groups(
    history: Seq<Operation>,
    gs: Seq<Vec<Entry>>,
    ords: Seq<Seq<usize>>,
) -> bool {
    &&& total_out(gs) == 2 * history.len()
    &&& ords.len() == gs.len()
    &&& forall|g: int| 0 <= g < gs.len() ==> entries_sorted((#[trigger] gs[g])@)
    &&& forall|g: int| 0 <= g < gs.len()
        ==> (#[trigger] gs[g])@.len() > 0 && ids_paired(gs[g]@) && unique_pairs(gs[g]@)
    &&& forall|g: int| 0 <= g < gs.len() ==> #[trigger] group_ops(gs[g]@) == history_ops_for(
        history,
        group_key(gs[g]@),
    )
    &&& forall|g1: int, g2: int| 0 <= g1 < g2 < gs.len()
        ==> group_key((#[trigger] gs[g1])@) != group_key((#[trigger] gs[g2])@)
    &&& forall|g: int| 0 <= g < gs.len() ==> spec_valid_witness(
        (#[trigger] gs[g])@,
        ords[g],
        (gs[g]@.len() / 2) as int,
    )
}

/// The first call event of operation `id`.
fn find_call(history: &Vec<Entry>, id: usize) -> (r: Option<usize>)
    ensures
        match r {
            Option::Some(j) => j < history@.len() && history@[j as int].value is Call
                && history@[j as int].id == id && j == call_idx_from(history@, id as int, 0),
            Option::None => call_idx_from(history@, id as int, 0) == history@.len(),
        },
{
    let n = history.len();
    let mut j: usize = 0;
    while j < n
        invariant
            n == history@.len(),
            j <= n,
            call_idx_from(history@, id as int, 0) == call_idx_from(history@, id as int, j as int),
        decreases n - j,
    {
        let is_call = match history[j].value {
            EntryValue::Call(_) => true,
            _ => false,
        };
        if is_call && history[j].id == id {
            return Some(j);
        }
        j = j + 1;
    }
    None
}

/// The first return event of operation `id`.
fn find_return(history: &Vec<Entry>, id: usize) -> (r: Option<usize>)
    ensures
        match r {
            Option::Some(j) => j < history@.len() && history@[j as int].value is Return
                && history@[j as int].id == id && j == ret_idx_from(history@, id as int, 0),
            Option::None => ret_idx_from(history@, id as int, 0) == history@.len(),
        },
{
    let n = history.len();
    let mut j: usize = 0;
    while j < n
        invariant
            n == history@.len(),
            j <= n,
            ret_idx_from(history@, id as int, 0) == ret_idx_from(history@, id as int, j as int),
        decreases n - j,
    {
        let is_ret = match history[j].value {
            EntryValue::Return(_) => true,
            _ => false,
        };
        if is_ret && history[j].id == id {
            return Some(j);
        }
        j = j + 1;
    }
    None
}

/// Re-check a collected order: every operation exactly once, every
/// step legal for the sequential model from the initial state.
fn validate_witness(history: &Vec<Entry>, order: &Vec<usize>, n: usize) -> (r: bool)
    ensures
        r ==> spec_valid_witness(history@, order@, n as int),
        n == 0 && order@.len() == 0 ==> r,
{
    if order.len() != n {
        return false;
    }
    // Ids are in range and occur once.
    let mut seen: Vec<bool> = Vec::new();
    let mut i: usize = 0;
    while i < n
        invariant
            i <= n,
            seen@.len() == i,
            forall|x: int| 0 <= x < i ==> !(#[trigger] seen@[x]),
        decreases n - i,
    {
        seen.push(false);
        i = i + 1;
    }
    let mut q: usize = 0;
    while q < n
        invariant
            q <= n,
            n == order@.len(),
            seen@.len() == n,
            forall|k: int| 0 <= k < q ==> (#[trigger] order@[k]) < n,
            forall|i1: int, j1: int| 0 <= i1 < j1 < q ==> order@[i1] != order@[j1],
            forall|x: int| 0 <= x < n
                ==> ((#[trigger] seen@[x]) <==> exists|k: int| 0 <= k < q && order@[k] == x),
        decreases n - q,
    {
        let id = order[q];
        if id >= n {
            return false;
        }
        if seen[id] {
            return false;
        }
        let ghost pre_seen = seen@;
        proof {
            assert forall|k: int| 0 <= k < q implies order@[k] != order@[q as int] by {
                assert(pre_seen[order@[k] as int]);
            }
        }
        seen[id] = true;
        proof {
            assert forall|x: int| 0 <= x < n
                implies ((#[trigger] seen@[x]) <==> exists|k: int| 0 <= k < q + 1
                    && order@[k] == x) by {
                if x == id {
                    assert(order@[q as int] == x);
                } else {
                    if seen@[x] {
                        let k = choose|k: int| 0 <= k < q && order@[k] == x;
                        assert(0 <= k < q + 1 && order@[k] == x);
                    }
                    if exists|k: int| 0 <= k < q + 1 && order@[k] == x {
                        let k = choose|k: int| 0 <= k < q + 1 && order@[k] == x;
                        assert(k < q);
                    }
                }
            }
        }
        q = q + 1;
    }
    proof {
        assert forall|i1: int, j1: int| 0 <= i1 < j1 < order@.len()
            implies order@[i1] != order@[j1] by {
            if order@[i1] == order@[j1] {
                let x = order@[i1] as int;
                assert(seen@[x]);
            }
        }
        assert(distinct_ids(order@));
    }
    // Replay the order against the model.
    let mut st = KvModel::init();
    proof {
        assert(order@.skip(0) =~= order@);
    }
    let mut q2: usize = 0;
    while q2 < n
        invariant
            q2 <= n,
            n == order@.len(),
            wit_ok(history@, order@.skip(q2 as int), st.state@) ==> wit_ok(
                history@,
                order@,
                Seq::<char>::empty(),
            ),
        decreases n - q2,
    {
        let id = order[q2];
        let ci = match find_call(history, id) {
            Option::Some(ci) => ci,
            Option::None => { return false; },
        };
        let ri = match find_return(history, id) {
            Option::Some(ri) => ri,
            Option::None => { return false; },
        };
        let stepped = match (&history[ci].value, &history[ri].value) {
            (EntryValue::Call(inp), EntryValue::Return(out)) => st.step(inp, out),
            _ => {
                proof {
                    assert(false);
                }
                return false;
            },
        };
        if !stepped.0 {
            return false;
        }
        proof {
            let tail = order@.skip(q2 as int);
            assert(tail[0] == order@[q2 as int]);
            assert(tail.skip(1) =~= order@.skip(q2 as int + 1));
        }
        st = stepped.1;
        q2 = q2 + 1;
    }
    proof {
        assert(order@.skip(n as int) =~= Seq::<usize>::empty());
        assert(wit_ok(history@, order@.skip(n as int), st.state@));
        assert(wit_ok(history@, order@, Seq::<char>::empty()));
    }
    // The order must respect real time: nothing is placed after an
    // operation that finished before it began.
    let mut qa: usize = 0;
    while qa < n
        invariant
            n == order@.len(),
            qa <= n,
            forall|k: int| 0 <= k < order@.len() ==> (#[trigger] order@[k]) < n,
            distinct_ids(order@),
            wit_ok(history@, order@, Seq::<char>::empty()),
            forall|a1: int, a2: int|
                0 <= a1 < a2 < qa ==> {
                    let ci = call_idx_from(history@, #[trigger] order@[a1] as int, 0);
                    let ri = ret_idx_from(history@, #[trigger] order@[a2] as int, 0);
                    ci < history@.len() && ri < history@.len()
                        ==> !(history@[ri].time < history@[ci].time)
                },
        decreases n - qa,
    {
        let ra = match find_return(history, order[qa]) {
            Option::Some(r) => r,
            Option::None => { return false; },
        };
        let mut qb: usize = 0;
        while qb < qa
            invariant
                n == order@.len(),
                qb <= qa < n,
                ra < history@.len(),
                ra == ret_idx_from(history@, order@[qa as int] as int, 0),
                forall|a1: int|
                    0 <= a1 < qb ==> {
                        let ci = call_idx_from(history@, #[trigger] order@[a1] as int, 0);
                        ci < history@.len()
                            ==> !(history@[ra as int].time < history@[ci].time)
                    },
            decreases qa - qb,
        {
            let cb = match find_call(history, order[qb]) {
                Option::Some(cb) => cb,
                Option::None => { return false; },
            };
            if history[ra].time < history[cb].time {
                return false;
            }
            qb = qb + 1;
        }
        proof {
            assert forall|a1: int, a2: int| 0 <= a1 < a2 < qa + 1 implies {
                let ci = call_idx_from(history@, #[trigger] order@[a1] as int, 0);
                let ri = ret_idx_from(history@, #[trigger] order@[a2] as int, 0);
                ci < history@.len() && ri < history@.len()
                    ==> !(history@[ri].time < history@[ci].time)
            } by {
                if a2 == qa {
                    assert(ret_idx_from(history@, order@[a2] as int, 0) == ra);
                }
            }
        }
        qa = qa + 1;
    }
    proof {
        assert(precedence_ok(history@, order@));
    }
    true
}

/// Whether the cache already holds model state `m` for the call set
/// `bv`.
pub fn cache_contains(cache: &Vec<(Vec<bool>, Vec<KvModel>)>, bv: &Vec<bool>, m: &KvModel)
    -> (r: bool)
    ensures
        r == exists|i: int, j: int|
            {
                &&& 0 <= i < cache@.len()
                &&& (#[trigger] cache@[i]).0@ == bv@
                &&& 0 <= j < cache@[i].1@.len()
                &&& (#[trigger] cache@[i].1@[j]).state@ == m.state@
            },
{
    let n = cache.len();
    let mut i: usize = 0;
    while i < n
        invariant
            n == cache@.len(),
            i <= n,
            forall|i1: int, j1: int|
                0 <= i1 < i && (#[trigger] cache@[i1]).0@ == bv@ && 0 <= j1
                    < cache@[i1].1@.len() ==> (#[trigger] cache@[i1].1@[j1]).state@ != m.state@,
        decreases n - i,
    {
        if bitsets_equal(&cache[i].0, bv) {
            let states = &cache[i].1;
            let sn = states.len();
            let mut j: usize = 0;
            while j < sn
                invariant
                    i < n,
                    n == cache@.len(),
                    cache@[i as int].0@ == bv@,
                    states@ == cache@[i as int].1@,
                    sn == states@.len(),
                    j <= sn,
                    forall|j1: int| 0 <= j1 < j
                        ==> (#[trigger] states@[j1]).state@ != m.state@,
                decreases sn - j,
            {
                if states[j].same_state(m) {
                    proof {
                        assert(0 <= i < cache@.len());
                        assert((#[trigger] cache@[i as int]).0@ == bv@);
                        assert((#[trigger] cache@[i as int].1@[j as int]).state@ == m.state@);
                    }
                    return true;
                }
                j = j + 1;
            }
        }
        i = i + 1;
    }
    false
}

/// Whether two call sets are the same.
fn bitsets_equal(a: &Vec<bool>, b: &Vec<bool>) -> (r: bool)
    ensures
        r == (a@ == b@),
{
    if a.len() != b.len() {
        proof {
            assert(a@ != b@);
        }
        return false;
    }
    let n = a.len();
    let mut i: usize = 0;
    while i < n
        invariant
            n == a@.len() && n == b@.len(),
            i <= n,
            forall|j: int| 0 <= j < i ==> a@[j] == b@[j],
        decreases n - i,
    {
        if a[i] != b[i] {
            proof {
                assert(a@ != b@);
            }
            return false;
        }
        i = i + 1;
    }
    proof {
        assert(a@ =~= b@);
    }
    true
}

/// A copy of a call set.
fn bitset_clone(v: &Vec<bool>) -> (r: Vec<bool>)
    ensures
        r@ == v@,
{
    let mut r: Vec<bool> = Vec::new();
    let n = v.len();
    let mut i: usize = 0;
    while i < n
        invariant
            n == v@.len(),
            i <= n,
            r@.len() == i,
            forall|j: int| 0 <= j < i ==> r@[j] == v@[j],
        decreases n - i,
    {
        r.push(v[i]);
        i = i + 1;
    }
    proof {
        assert(r@ =~= v@);
    }
    r
}

/// Two events of the same kind carrying the same content.
pub open spec fn same_event(a: EntryValue, b: EntryValue) -> bool {
    match (a, b) {
        (EntryValue::Null, EntryValue::Null) => true,
        (EntryValue::Call(x), EntryValue::Call(y)) => x.op == y.op && x.key@ == y.key@
            && x.value@ == y.value@,
        (EntryValue::Return(x), EntryValue::Return(y)) => x.value@ == y.value@,
        _ => false,
    }
}

/// A copy of an event (its strings are duplicated).
fn copy_entry_value(v: &EntryValue) -> (r: EntryValue)
    ensures
        same_event(*v, r),
{
    match v {
        EntryValue::Null => EntryValue::Null,
        EntryValue::Call(inp) => EntryValue::Call(
            crate::porcupine::kv::KvInput {
                op: inp.op,
                key: inp.key.clone(),
                value: inp.value.clone(),
            },
        ),
        EntryValue::Return(out) => EntryValue::Return(
            crate::porcupine::kv::KvOutput { value: out.value.clone() },
        ),
    }
}

impl LinkedEntries {
    /// Build the working list from a sub-history: one node per event, in
    /// event order, each carrying its event's id and content.
    pub fn from_entries(history: &Vec<Entry>) -> (r: LinkedEntries)
        ensures
            r.wf(),
            r.nodes@.len() == history@.len(),
            forall|i: int| 0 <= i < r.nodes@.len()
                ==> (#[trigger] r.nodes@[i]).id == history@[i].id && same_event(
                    r.nodes@[i].value,
                    history@[i].value,
                ),
    {
        let mut list = LinkedEntries::new();
        let n = history.len();
        let mut i: usize = n;
        while i > 0
            invariant
                list.wf(),
                n == history@.len(),
                i <= n,
                list.nodes@.len() == n - i,
                forall|q: int| 0 <= q < n - i
                    ==> (#[trigger] list.nodes@[q]).id == history@[i + q].id && same_event(
                        list.nodes@[q].value,
                        history@[i + q].value,
                    ),
            decreases i,
        {
            i = i - 1;
            let node = EntryNode {
                value: copy_entry_value(&history[i].value),
                id: history[i].id,
            };
            list.push_front_node(node);
        }
        list
    }
}

/// Search one sub-history for a linearization.
///
/// The walk visits events in list order, so a call is only ever chosen
/// while its return is still pending. `Ok` is produced only after the
/// collected order passed `validate_witness`: it proves an order of all
/// operations that the sequential model accepts. `Illegal` reports an
/// exhausted search; `Unknown`, an exhausted budget.
pub fn check_single(history: &Vec<Entry>, budget: u64) -> (r: Result<(), Error>)
    ensures
        r is Ok ==> exists|order: Seq<usize>|
            #[trigger] spec_valid_witness(history@, order, (history@.len() / 2) as int),
        history@.len() == 0 ==> r is Ok,
{
    let n = history.len() / 2;
    let mut list = LinkedEntries::from_entries(history);
    let ghost arena_len = list.nodes@.len();
    let mut linearized: Vec<bool> = Vec::new();
    let mut i: usize = 0;
    while i < n
        invariant
            i <= n,
            linearized@.len() == i,
        decreases n - i,
    {
        linearized.push(false);
        i = i + 1;
    }
    let mut cache: Vec<(Vec<bool>, Vec<KvModel>)> = Vec::new();
    let mut calls: Vec<(EntryView, KvModel)> = Vec::new();
    let mut state = KvModel::init();
    let mut cursor = list.front();
    let mut fuel = budget;
    loop
        invariant
            list.wf(),
            list.nodes@.len() == arena_len,
            linearized@.len() == n,
            n == history@.len() / 2,
            forall|q: int| 0 <= q < calls@.len()
                ==> (#[trigger] calls@[q]).0.pos < arena_len && calls@[q].0.matched < arena_len,
            match cursor {
                Option::Some(c) => c < arena_len,
                Option::None => true,
            },
            arena_len == history@.len(),
            history@.len() == 0 ==> calls@.len() == 0,
        decreases fuel,
    {
        if list.is_empty() {
            break;
        }
        proof {
            // A non-empty working list means a non-empty history.
            assert(history@.len() > 0) by {
                let w = choose|w: int| 0 <= w < list.present@.len() && list.present@[w];
                assert(list.present@.len() == arena_len);
            }
        }
        if fuel == 0 {
            return Err(Error::Unknown);
        }
        fuel = fuel - 1;
        let pos = match cursor {
            Option::Some(c) => c,
            Option::None => { return Err(Error::Unknown); },
        };
        let is_call = match list.nodes[pos].value {
            EntryValue::Call(_) => true,
            _ => false,
        };
        if is_call {
            let m = match EntryNode::matched(&list, pos) {
                Option::Some(m) => m,
                Option::None => { return Err(Error::Unknown); },
            };
            let stepped = match (&list.nodes[pos].value, &list.nodes[m].value) {
                (EntryValue::Call(inp), EntryValue::Return(out)) => state.step(inp, out),
                _ => { return Err(Error::Unknown); },
            };
            let id = list.nodes[pos].id;
            let mut advanced = false;
            if stepped.0 && id < n {
                let mut probe = bitset_clone(&linearized);
                probe[id] = true;
                if !cache_contains(&cache, &probe, &stepped.1) {
                    linearized[id] = true;
                    push_cache(&mut cache, probe, &stepped.1);
                    let view = EntryNode::lift(&mut list, pos, m);
                    let mut prior = stepped.1;
                    core::mem::swap(&mut prior, &mut state);
                    calls.push((view, prior));
                    cursor = list.front();
                    advanced = true;
                }
            }
            if !advanced {
                cursor = EntryNode::next(&list, pos);
            }
        } else {
            // An undecided return: revoke the latest tentative choice.
            let last = match calls.pop() {
                Option::Some(last) => last,
                Option::None => { return Err(Error::Illegal(LinearizationInfo {})); },
            };
            let (view, prior) = last;
            state = prior;
            if view.id < n {
                linearized[view.id] = false;
            }
            let back = view.unlift(&mut list);
            cursor = EntryNode::next(&list, back);
        }
    }
    // The list emptied: re-check the collected order as a witness.
    let mut order: Vec<usize> = Vec::new();
    let cn = calls.len();
    let mut q: usize = 0;
    while q < cn
        invariant
            q <= cn,
            cn == calls@.len(),
            order@.len() == q,
        decreases cn - q,
    {
        order.push(calls[q].0.id);
        q = q + 1;
    }
    if validate_witness(history, &order, n) {
        Ok(())
    } else {
        Err(Error::Unknown)
    }
}

/// Record `state` for the call set `probe`.
fn push_cache(cache: &mut Vec<(Vec<bool>, Vec<KvModel>)>, probe: Vec<bool>, state: &KvModel) {
    let n = cache.len();
    let mut i: usize = 0;
    while i < n
        invariant
            n <= cache@.len(),
            i <= n,
        decreases n - i,
    {
        if bitsets_equal(&cache[i].0, &probe) {
            let copy = KvModel { state: state.state.clone() };
            cache[i].1.push(copy);
            return;
        }
        i = i + 1;
    }
    let copy = KvModel { state: state.state.clone() };
    let mut states: Vec<KvModel> = Vec::new();
    states.push(copy);
    cache.push((probe, states));
}

/// Check a whole history: split it by key and search every sub-history,
/// stopping at the first negative verdict.
///
/// A pass is never empty-handed: it comes with sorted sub-histories
/// holding two events per recorded operation, each sub-history with a
/// checked linearization witness. The converse — that a refusal means
/// no linearization exists — is not proved.
pub fn check_operations(history: Vec<Operation>) -> (r: Result<(), Error>)
    ensures
        history@.len() == 0 ==> r is Ok,
        r is Ok ==> exists|gs: Seq<Vec<Entry>>, ords: Seq<Seq<usize>>|
            #[trigger] witnessed_groups(history@, gs, ords),
{
    check_operations_budgeted(history, SEARCH_BUDGET)
}

/// `check_operations`, reporting every sub-history even after a failure
/// would have sufficed; the verdict is the same.
pub fn check_operation_verbose(history: Vec<Operation>) -> (r: Result<(), Error>)
    ensures
        history@.len() == 0 ==> r is Ok,
        r is Ok ==> exists|gs: Seq<Vec<Entry>>, ords: Seq<Seq<usize>>|
            #[trigger] witnessed_groups(history@, gs, ords),
{
    check_operations_budgeted(history, SEARCH_BUDGET)
}

/// Check every key's sub-history under a step budget.
pub fn check_operations_budgeted(history: Vec<Operation>, budget: u64) -> (r: Result<(), Error>)
    ensures
        history@.len() == 0 ==> r is Ok,
        r is Ok ==> exists|gs: Seq<Vec<Entry>>, ords: Seq<Seq<usize>>|
            #[trigger] witnessed_groups(history@, gs, ords),
{
    let groups = KvModel::partition(history);
    let gn = groups.len();
    let ghost mut orders: Seq<Seq<usize>> = Seq::empty();
    let mut g: usize = 0;
    while g < gn
        invariant
            gn == groups@.len(),
            g <= gn,
            history@.len() == 0 ==> gn == 0,
            total_out(groups@) == 2 * history@.len(),
            forall|g2: int| 0 <= g2 < gn ==> entries_sorted((#[trigger] groups@[g2])@),
            orders.len() == g,
            forall|g2: int|
                #![trigger orders[g2]]
                0 <= g2 < g ==> spec_valid_witness(
                    groups@[g2]@,
                    orders[g2],
                    (groups@[g2]@.len() / 2) as int,
                ),
            forall|g2: int| 0 <= g2 < gn
                ==> (#[trigger] groups@[g2])@.len() > 0 && ids_paired(groups@[g2]@)
                    && unique_pairs(groups@[g2]@),
            forall|g2: int| 0 <= g2 < gn ==> #[trigger] group_ops(groups@[g2]@)
                == history_ops_for(history@, group_key(groups@[g2]@)),
            forall|a: int, b: int, i: int, j: int|
                0 <= a < gn && 0 <= b < gn && a != b && 0 <= i < groups@[a]@.len()
                    && 0 <= j < groups@[b]@.len() ==> match (
                    (#[trigger] groups@[a]@[i]).value,
                    (#[trigger] groups@[b]@[j]).value,
                ) {
                    (EntryValue::Call(x), EntryValue::Call(y)) => x.key@ != y.key@,
                    _ => true,
                },
        decreases gn - g,
    {
        match check_single(&groups[g], budget) {
            Result::Ok(()) => {}
            Result::Err(e) => { return Err(e); },
        }
        proof {
            let o = choose|order: Seq<usize>|
                #![trigger spec_valid_witness(groups@[g as int]@, order, (groups@[g as int]@.len() / 2) as int)]
                spec_valid_witness(
                    groups@[g as int]@,
                    order,
                    (groups@[g as int]@.len() / 2) as int,
                );
            orders = orders.push(o);
        }
        g = g + 1;
    }
    proof {
        assert(total_out(groups@) == 2 * history@.len());
        assert(orders.len() == groups@.len());
        assert(witnessed_groups(history@, groups@, orders)) by {
            assert(forall|g2: int| 0 <= g2 < groups@.len()
                ==> entries_sorted((#[trigger] groups@[g2])@));
            assert forall|g2: int| 0 <= g2 < groups@.len()
                implies spec_valid_witness(
                    (#[trigger] groups@[g2])@,
                    orders[g2],
                    (groups@[g2]@.len() / 2) as int,
                ) by {
                assert(spec_valid_witness(
                    groups@[g2]@,
                    orders[g2],
                    (groups@[g2]@.len() / 2) as int,
                ));
            }
            assert forall|g1: int, g2: int| 0 <= g1 < g2 < groups@.len()
                implies group_key((#[trigger] groups@[g1])@) != group_key(
                    (#[trigger] groups@[g2])@,
                ) by {
                // Each sub-history's key is one of its calls' keys, and
                // calls of different sub-histories ask different keys.
                let e1 = groups@[g1]@;
                let e2 = groups@[g2]@;
                assert(crate::porcupine::kv::has_call_id(e1, 0));
                let w1 = choose|w1: int|
                    0 <= w1 < e1.len() && (#[trigger] e1[w1]).id == 0 && e1[w1].value is Call;
                crate::porcupine::kv::lemma_call_idx_locates(e1, 0, w1);
                assert(crate::porcupine::kv::has_call_id(e2, 0));
                let w2 = choose|w2: int|
                    0 <= w2 < e2.len() && (#[trigger] e2[w2]).id == 0 && e2[w2].value is Call;
                crate::porcupine::kv::lemma_call_idx_locates(e2, 0, w2);
            }
        }
    }
    Ok(())
}

} // verus!
