//! The checker's working list of undecided events.
//!
//! Events live in a fixed arena in history order; a presence mark per
//! slot says whether the event is still undecided. Lifting an operation
//! hides its call and return; unlifting puts them back. Slots never
//! move, so a lifted pair can always return to its place.

use vstd::prelude::*;
use crate::porcupine::kv::{EntryValue, KvInput, KvOutput};

verus! {

/// One event in the arena: a call or return and its operation's id.
pub struct EntryNode {
    pub value: EntryValue,
    pub id: usize,
}

/// A lifted call with the places it and its return must go back to.
pub struct EntryView {
    pub id: usize,
    pub pos: usize,
    pub matched: usize,
}

/// The arena of events with their presence marks.
pub struct LinkedEntries {
    pub nodes: Vec<EntryNode>,
    pub present: Vec<bool>,
}

impl LinkedEntries {
    pub open spec fn wf(&self) -> bool {
        self.nodes@.len() == self.present@.len()
    }

    /// How many slots the arena has (present or not).
    pub open spec fn spec_len(&self) -> int {
        self.nodes@.len() as int
    }

    pub fn new() -> (r: LinkedEntries)
        ensures
            r.wf(),
            r.nodes@.len() == 0,
    {
        LinkedEntries { nodes: Vec::new(), present: Vec::new() }
    }

    /// Put a node at the front; everything else moves one slot up.
    pub fn push_front_node(&mut self, node: EntryNode)
        requires
            old(self).wf(),
        ensures
            final(self).wf(),
            final(self).nodes@ == seq![node] + old(self).nodes@,
            final(self).present@ == seq![true] + old(self).present@,
    {
        self.nodes.insert(0, node);
        self.present.insert(0, true);
        proof {
            assert(self.nodes@ =~= seq![node] + old(self).nodes@);
            assert(self.present@ =~= seq![true] + old(self).present@);
        }
    }

    /// Whether no event is left undecided.
    pub fn is_empty(&self) -> (r: bool)
        requires
            self.wf(),
        ensures
            r == (forall|i: int| 0 <= i < self.present@.len() ==> !(#[trigger] self.present@[i])),
    {
        let n = self.present.len();
        let mut i: usize = 0;
        while i < n
            invariant
                self.wf(),
                n == self.present@.len(),
                i <= n,
                forall|j: int| 0 <= j < i ==> !(#[trigger] self.present@[j]),
            decreases n - i,
        {
            if self.present[i] {
                return false;
            }
            i = i + 1;
        }
        true
    }

    /// The first undecided slot.
    pub fn front(&self) -> (r: Option<usize>)
        requires
            self.wf(),
        ensures
            match r {
                Option::Some(i) => i < self.present@.len() && self.present@[i as int]
                    && forall|j: int| 0 <= j < i ==> !(#[trigger] self.present@[j]),
                Option::None => forall|j: int| 0 <= j < self.present@.len()
                    ==> !(#[trigger] self.present@[j]),
            },
    {
        let n = self.present.len();
        let mut i: usize = 0;
        while i < n
            invariant
                self.wf(),
                n == self.present@.len(),
                i <= n,
                forall|j: int| 0 <= j < i ==> !(#[trigger] self.present@[j]),
            decreases n - i,
        {
            if self.present[i] {
                return Some(i);
            }
            i = i + 1;
        }
        None
    }
}

impl EntryNode {
    /// The next undecided slot after `i`.
    pub fn next(list: &LinkedEntries, i: usize) -> (r: Option<usize>)
        requires
            list.wf(),
        ensures
            match r {
                Option::Some(j) => i < j < list.present@.len() && list.present@[j as int]
                    && forall|q: int| i < q < j ==> !(#[trigger] list.present@[q]),
                Option::None => forall|q: int| i < q < list.present@.len()
                    ==> !(#[trigger] list.present@[q]),
            },
    {
        let n = list.present.len();
        if i >= n {
            return None;
        }
        let mut j: usize = i + 1;
        while j < n
            invariant
                list.wf(),
                n == list.present@.len(),
                i < j <= n,
                forall|q: int| i < q < j ==> !(#[trigger] list.present@[q]),
            decreases n - j,
        {
            if list.present[j] {
                return Some(j);
            }
            j = j + 1;
        }
        None
    }

    /// The slot of the return event of the operation whose call sits at
    /// `i`: the first return with the same id. `None` only when no other
    /// slot holds a return with that id.
    pub fn matched(list: &LinkedEntries, i: usize) -> (r: Option<usize>)
        requires
            list.wf(),
            i < list.nodes@.len(),
        ensures
            match r {
                Option::Some(j) => j < list.nodes@.len() && j != i
                    && list.nodes@[j as int].value is Return
                    && list.nodes@[j as int].id == list.nodes@[i as int].id,
                Option::None => forall|j: int| 0 <= j < list.nodes@.len() && j != i
                    ==> !((#[trigger] list.nodes@[j]).value is Return
                        && list.nodes@[j].id == list.nodes@[i as int].id),
            },
    {
        let n = list.nodes.len();
        let id = list.nodes[i].id;
        let mut j: usize = 0;
        while j < n
            invariant
                list.wf(),
                n == list.nodes@.len(),
                i < n,
                j <= n,
                id == list.nodes@[i as int].id,
                forall|q: int| 0 <= q < j && q != i
                    ==> !((#[trigger] list.nodes@[q]).value is Return
                        && list.nodes@[q].id == id),
            decreases n - j,
        {
            if j != i && list.nodes[j].id == id {
                let is_ret = match list.nodes[j].value {
                    EntryValue::Return(_) => true,
                    _ => false,
                };
                if is_ret {
                    return Some(j);
                }
            }
            j = j + 1;
        }
        None
    }

    /// The call's input.
    pub fn unwrap_in(&self) -> (r: &KvInput)
        requires
            self.value is Call,
        ensures
            self.value == EntryValue::Call(*r),
    {
        match &self.value {
            EntryValue::Call(inp) => inp,
            _ => {
                proof {
                    assert(false);
                }
                unreached()
            },
        }
    }

    /// The return's output.
    pub fn unwrap_out(&self) -> (r: &KvOutput)
        requires
            self.value is Return,
        ensures
            self.value == EntryValue::Return(*r),
    {
        match &self.value {
            EntryValue::Return(out) => out,
            _ => {
                proof {
                    assert(false);
                }
                unreached()
            },
        }
    }

    /// Hide the call at `i` and its return at `m`: the operation is
    /// tentatively linearized.
    pub fn lift(list: &mut LinkedEntries, i: usize, m: usize) -> (r: EntryView)
        requires
            old(list).wf(),
            i < old(list).nodes@.len(),
            m < old(list).nodes@.len(),
        ensures
            final(list).wf(),
            final(list).nodes@ == old(list).nodes@,
            final(list).present@ == old(list).present@.update(i as int, false).update(
                m as int,
                false,
            ),
            r.pos == i,
            r.matched == m,
            r.id == old(list).nodes@[i as int].id,
    {
        let id = list.nodes[i].id;
        list.present[i] = false;
        list.present[m] = false;
        EntryView { id, pos: i, matched: m }
    }
}

impl EntryView {
    /// Put the lifted call and its return back in their places: the
    /// tentative linearization is revoked.
    pub fn unlift(self, list: &mut LinkedEntries) -> (r: usize)
        requires
            old(list).wf(),
            self.pos < old(list).nodes@.len(),
            self.matched < old(list).nodes@.len(),
        ensures
            final(list).wf(),
            final(list).nodes@ == old(list).nodes@,
            final(list).present@ == old(list).present@.update(self.pos as int, true).update(
                self.matched as int,
                true,
            ),
            r == self.pos,
    {
        list.present[self.pos] = true;
        list.present[self.matched] = true;
        self.pos
    }
}

} // verus!
