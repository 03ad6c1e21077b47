//! The priority container behind best-first and custom-order search.

use crate::bnb_aware_containers::{may_improve, score_value, BnbAwareContainer};
use crate::heap::{entry_le, heap_entries, heap_from_vec, heap_pop, heap_push};
use crate::order::{refines_bound, NodeOrder};
use crate::subproblem::{dominated, tree_size, Score, Subproblem};
use binary_heap_plus::{BinaryHeap, MaxComparator};
use vstd::prelude::*;

verus! {

/// The state of a priority container.
///
/// The nodes wait in numbered slots. A node's place in the order is its rank
/// and, among nodes of equal rank, the number of its slot. Slots that were
/// emptied are filled again before new ones are added, the one emptied last
/// first.
pub struct PriorityModel<S, R> {
    /// The slots, each with the node that waits in it, if any.
    pub slots: Seq<Option<S>>,
    /// The numbers of the slots that were emptied and not filled since.
    pub free: Seq<usize>,
    /// The order that ranks the nodes.
    pub order: R,
    /// Whether a pop gives up as soon as the node of highest rank is
    /// dominated.
    pub stop_early: bool,
}

/// The number of slots that hold a node.
pub open spec fn occupied<S>(slots: Seq<Option<S>>) -> nat
    decreases slots.len(),
{
    if slots.len() == 0 {
        0
    } else {
        occupied(slots.drop_last()) + if slots.last() is Some {
            1nat
        } else {
            0nat
        }
    }
}

/// The sizes of the trees below the nodes in the slots, added up.
pub open spec fn slots_weight<S: Subproblem>(slots: Seq<Option<S>>) -> nat
    decreases slots.len(),
{
    if slots.len() == 0 {
        0
    } else {
        slots_weight(slots.drop_last()) + match slots.last() {
            Some(n) => tree_size(n),
            None => 0nat,
        }
    }
}

/// The rank of the node in slot `i`.
pub open spec fn rank_at<S, R: NodeOrder<S>>(m: PriorityModel<S, R>, i: int) -> i64 {
    m.order.rank_value(&m.slots[i]->0)
}

/// The slot, among the first `upto`, whose node is first in the order: the
/// one of highest rank, and of several such the one in the highest slot.
pub open spec fn top_slot<S, R: NodeOrder<S>>(m: PriorityModel<S, R>, upto: nat) -> Option<int>
    decreases upto,
{
    if upto == 0 {
        None
    } else {
        let i = upto - 1;
        let below = top_slot(m, i as nat);
        if i < m.slots.len() && m.slots[i] is Some && (below is None || rank_at(m, below->0)
            <= rank_at(m, i)) {
            Some(i)
        } else {
            below
        }
    }
}

/// The state after the node in slot `t` was taken out.
pub open spec fn vacated<S, R>(m: PriorityModel<S, R>, t: int) -> PriorityModel<S, R> {
    PriorityModel { slots: m.slots.update(t, None), free: m.free.push(t as usize), ..m }
}

/// The state after `item` was put in: into the slot emptied last, or into a
/// new slot if none is empty.
pub open spec fn filled<S, R>(m: PriorityModel<S, R>, item: S) -> PriorityModel<S, R> {
    if m.free.len() > 0 && m.free.last() < m.slots.len() && m.slots[m.free.last() as int] is None {
        PriorityModel {
            slots: m.slots.update(m.free.last() as int, Some(item)),
            free: m.free.drop_last(),
            ..m
        }
    } else {
        PriorityModel { slots: m.slots.push(Some(item)), ..m }
    }
}

/// What a pop under the incumbent's score hands out, and the state it
/// leaves.
///
/// The node that is first in the order is taken out. If the incumbent does
/// not dominate it, it is handed out. If it does, the node is dropped; the
/// pop then either gives up, leaving the rest where it is, or goes on with
/// the next node.
pub open spec fn popped<S: Subproblem, R: NodeOrder<S>>(
    m: PriorityModel<S, R>,
    score: Option<Score>,
) -> (Option<S>, PriorityModel<S, R>)
    decreases occupied(m.slots),
    via popped_decreases::<S, R>
{
    match top_slot(m, m.slots.len()) {
        None => (None, m),
        Some(t) => {
            let n = m.slots[t]->0;
            if !dominated(n, score) {
                (Some(n), vacated(m, t))
            } else if m.stop_early {
                (None, vacated(m, t))
            } else {
                popped(vacated(m, t), score)
            }
        },
    }
}

#[via_fn]
proof fn popped_decreases<S: Subproblem, R: NodeOrder<S>>(
    m: PriorityModel<S, R>,
    score: Option<Score>,
) {
    top_slot_is_occupied(m, m.slots.len());
    if let Some(t) = top_slot(m, m.slots.len()) {
        vacating_removes(m.slots, t);
    }
}

/// What `top_slot` finds is an occupied slot.
pub proof fn top_slot_is_occupied<S, R: NodeOrder<S>>(m: PriorityModel<S, R>, upto: nat)
    requires
        upto <= m.slots.len(),
    ensures
        top_slot(m, upto) matches Some(t) ==> 0 <= t < upto && m.slots[t] is Some,
    decreases upto,
{
    if upto > 0 {
        top_slot_is_occupied(m, (upto - 1) as nat);
    }
}

/// No occupied slot is before the one that `top_slot` finds.
pub proof fn top_slot_is_first<S, R: NodeOrder<S>>(m: PriorityModel<S, R>, upto: nat, i: int)
    requires
        0 <= i < upto <= m.slots.len(),
        m.slots[i] is Some,
    ensures
        top_slot(m, upto) matches Some(t) && (rank_at(m, i) < rank_at(m, t) || (rank_at(m, i)
            == rank_at(m, t) && i <= t)),
    decreases upto,
{
    top_slot_is_occupied(m, (upto - 1) as nat);
    if i < upto - 1 {
        top_slot_is_first(m, (upto - 1) as nat, i);
    }
}

/// Emptying an occupied slot takes one node, and its tree, out of the count.
pub proof fn vacating_removes<S: Subproblem>(slots: Seq<Option<S>>, t: int)
    requires
        0 <= t < slots.len(),
        slots[t] is Some,
    ensures
        occupied(slots.update(t, None)) + 1 == occupied(slots),
        slots_weight(slots.update(t, None)) + tree_size(slots[t]->0) == slots_weight(slots),
    decreases slots.len(),
{
    let after = slots.update(t, None);
    if t == slots.len() - 1 {
        assert(after.drop_last() =~= slots.drop_last());
    } else {
        vacating_removes(slots.drop_last(), t);
        assert(after.drop_last() =~= slots.drop_last().update(t, None));
    }
}

/// Filling an empty slot adds the tree of the node that goes in.
pub proof fn filling_adds<S: Subproblem>(slots: Seq<Option<S>>, t: int, item: S)
    requires
        0 <= t < slots.len(),
        slots[t] is None,
    ensures
        slots_weight(slots.update(t, Some(item))) == slots_weight(slots) + tree_size(item),
    decreases slots.len(),
{
    let after = slots.update(t, Some(item));
    if t == slots.len() - 1 {
        assert(after.drop_last() =~= slots.drop_last());
    } else {
        filling_adds(slots.drop_last(), t, item);
        assert(after.drop_last() =~= slots.drop_last().update(t, Some(item)));
    }
}

/// Whether `n` waits in one of the slots.
pub open spec fn waits_in<S>(slots: Seq<Option<S>>, n: S) -> bool {
    exists|i: int| 0 <= i < slots.len() && slots[i] == Some(n)
}

/// What `popped` does to a state, whatever the order and the score.
pub proof fn popped_law<S: Subproblem, R: NodeOrder<S>>(
    m: PriorityModel<S, R>,
    score: Option<Score>,
)
    ensures
        popped(m, score).1.order == m.order,
        popped(m, score).1.stop_early == m.stop_early,
        slots_weight(popped(m, score).1.slots) <= slots_weight(m.slots),
        popped(m, score).0 matches Some(n) ==> waits_in(m.slots, n) && slots_weight(
            popped(m, score).1.slots,
        ) + tree_size(n) <= slots_weight(m.slots),
        forall|x: S| #[trigger]
            waits_in(popped(m, score).1.slots, x) ==> waits_in(m.slots, x),
        !m.stop_early || refines_bound(m.order) ==> forall|x: S| #[trigger]
            waits_in(m.slots, x) ==> {
                ||| popped(m, score).0 == Some(x)
                ||| dominated(x, score)
                ||| popped(m, score).0 is Some && waits_in(popped(m, score).1.slots, x)
            },
    decreases occupied(m.slots),
{
    top_slot_is_occupied(m, m.slots.len());
    match top_slot(m, m.slots.len()) {
        None => {
            assert forall|x: S| #[trigger] waits_in(m.slots, x) implies false by {
                let i = choose|i: int| 0 <= i < m.slots.len() && m.slots[i] == Some(x);
                top_slot_is_first(m, m.slots.len(), i);
            }
        },
        Some(t) => {
            let n = m.slots[t]->0;
            let rest = vacated(m, t);
            vacating_removes(m.slots, t);
            assert(waits_in(m.slots, n));
            assert forall|x: S| #[trigger] waits_in(rest.slots, x) implies waits_in(
                m.slots,
                x,
            ) by {
                let i = choose|i: int| 0 <= i < rest.slots.len() && rest.slots[i] == Some(x);
                assert(m.slots[i] == Some(x));
            }
            assert forall|x: S| #[trigger] waits_in(m.slots, x) implies x == n || waits_in(
                rest.slots,
                x,
            ) by {
                let i = choose|i: int| 0 <= i < m.slots.len() && m.slots[i] == Some(x);
                if i != t {
                    assert(rest.slots[i] == Some(x));
                }
            }
            if dominated(n, score) {
                if !m.stop_early {
                    popped_law(rest, score);
                } else if refines_bound(m.order) {
                    assert forall|x: S| #[trigger] waits_in(m.slots, x) implies dominated(
                        x,
                        score,
                    ) by {
                        let i = choose|i: int| 0 <= i < m.slots.len() && m.slots[i] == Some(x);
                        top_slot_is_first(m, m.slots.len(), i);
                    }
                }
            }
        },
    }
}

/// A priority queue of nodes: the node of highest rank is visited first.
///
/// With the order by bound this is best-first search. Dominated nodes are
/// left out on push and dropped on pop. With `stop_early` a pop ends the
/// search as soon as the node that is first in the order is dominated: in an
/// order that is at least as fine as the order by bound, no node that is left
/// can do better.
///
/// The nodes are kept in slots, and a binary heap keeps one entry for each
/// occupied slot: the node's rank and the slot's number.
pub struct BinaryHeapExt<S, R> {
    heap: BinaryHeap<(i64, usize), MaxComparator>,
    slots: Vec<Option<S>>,
    free: Vec<usize>,
    order: R,
    stop_early: bool,
}

impl<S: Subproblem, R: NodeOrder<S>> BinaryHeapExt<S, R> {
    /// An empty container that hands out its nodes by `order`.
    pub fn new(order: R, stop_early: bool) -> (container: Self)
        ensures
            container.well_formed(),
            container.model() == (PriorityModel {
                slots: Seq::<Option<S>>::empty(),
                free: Seq::<usize>::empty(),
                order,
                stop_early,
            }),
    {
        let entries: Vec<(i64, usize)> = Vec::new();
        proof {
            entries@.to_multiset_ensures();
        }
        let container = BinaryHeapExt {
            heap: heap_from_vec(entries),
            slots: Vec::new(),
            free: Vec::new(),
            order,
            stop_early,
        };
        container
    }

    /// The entry that the heap keeps for slot `i`.
    spec fn entry(&self, i: int) -> (i64, usize) {
        (self.order.rank_value(&self.slots@[i]->0), i as usize)
    }
}

impl<S: Subproblem, R: NodeOrder<S>> BnbAwareContainer<S> for BinaryHeapExt<S, R> {
    type Model = PriorityModel<S, R>;

    closed spec fn well_formed(&self) -> bool {
        let entries = heap_entries(self.heap);
        &&& forall|i: int|
            0 <= i < self.slots@.len() && self.slots@[i] is Some ==> entries.count(
                #[trigger] self.entry(i),
            ) == 1
        &&& forall|e: (i64, usize)| #[trigger]
            entries.count(e) > 0 ==> e.1 < self.slots@.len() && self.slots@[e.1 as int] is Some
                && e == self.entry(e.1 as int)
        &&& forall|k: int|
            0 <= k < self.free@.len() ==> (#[trigger] self.free@[k]) < self.slots@.len()
                && self.slots@[self.free@[k] as int] is None
        &&& forall|k: int, l: int|
            0 <= k < l < self.free@.len() ==> self.free@[k] != self.free@[l]
    }

    closed spec fn model(&self) -> PriorityModel<S, R> {
        PriorityModel {
            slots: self.slots@,
            free: self.free@,
            order: self.order,
            stop_early: self.stop_early,
        }
    }

    open spec fn weight(m: PriorityModel<S, R>) -> nat {
        slots_weight(m.slots)
    }

    open spec fn holds(m: PriorityModel<S, R>, n: S) -> bool {
        waits_in(m.slots, n)
    }

    open spec fn exhaustive(m: PriorityModel<S, R>) -> bool {
        !m.stop_early || refines_bound(m.order)
    }

    open spec fn after_push(
        m: PriorityModel<S, R>,
        item: S,
        score: Option<Score>,
    ) -> PriorityModel<S, R> {
        if dominated(item, score) {
            m
        } else {
            filled(m, item)
        }
    }

    open spec fn next(m: PriorityModel<S, R>, score: Option<Score>) -> Option<S> {
        popped(m, score).0
    }

    open spec fn after_pop(m: PriorityModel<S, R>, score: Option<Score>) -> PriorityModel<S, R> {
        popped(m, score).1
    }

    proof fn push_law(m: PriorityModel<S, R>, item: S, score: Option<Score>) {
        let after = filled(m, item);
        let reused = m.free.len() > 0 && m.free.last() < m.slots.len()
            && m.slots[m.free.last() as int] is None;
        if reused {
            let t = m.free.last() as int;
            filling_adds(m.slots, t, item);
            assert(waits_in(after.slots, item)) by {
                assert(after.slots[t] == Some(item));
            }
            assert forall|n: S| waits_in(m.slots, n) implies waits_in(after.slots, n) by {
                let i = choose|i: int| 0 <= i < m.slots.len() && m.slots[i] == Some(n);
                assert(after.slots[i] == Some(n));
            }
            assert forall|n: S| waits_in(after.slots, n) implies waits_in(m.slots, n) || n
                == item by {
                let i = choose|i: int| 0 <= i < after.slots.len() && after.slots[i] == Some(n);
                if i != t {
                    assert(m.slots[i] == Some(n));
                }
            }
        } else {
            assert(after.slots.drop_last() =~= m.slots);
            assert(waits_in(after.slots, item)) by {
                assert(after.slots[m.slots.len() as int] == Some(item));
            }
            assert forall|n: S| waits_in(m.slots, n) implies waits_in(after.slots, n) by {
                let i = choose|i: int| 0 <= i < m.slots.len() && m.slots[i] == Some(n);
                assert(after.slots[i] == Some(n));
            }
            assert forall|n: S| waits_in(after.slots, n) implies waits_in(m.slots, n) || n
                == item by {
                let i = choose|i: int| 0 <= i < after.slots.len() && after.slots[i] == Some(n);
                if i < m.slots.len() {
                    assert(m.slots[i] == Some(n));
                }
            }
        }
    }

    proof fn pop_law(m: PriorityModel<S, R>, score: Option<Score>) {
        popped_law(m, score);
    }

    fn push_with_incumbent(&mut self, item: S, score: Option<&Score>) {
        if may_improve(&item, score) {
            let rank: i64 = self.order.rank(&item);
            let ghost before = *self;
            let slot: usize = match self.free.pop() {
                Some(emptied) => {
                    self.slots.set(emptied, Some(item));
                    emptied
                },
                None => {
                    self.slots.push(Some(item));
                    self.slots.len() - 1
                },
            };
            heap_push(&mut self.heap, (rank, slot));
            proof {
                // The model took the same slot.
                assert(self.model().slots =~= filled(before.model(), item).slots);
                assert(self.model().free =~= filled(before.model(), item).free);
                // The other slots kept their entries, and none of them was for this slot.
                assert forall|i: int|
                    0 <= i < self.slots@.len() && self.slots@[i] is Some && i != slot implies (
                    #[trigger] self.entry(i)) == before.entry(i) && before.slots@[i] is Some && i
                    < before.slots@.len() by {}
                assert forall|e: (i64, usize)| #[trigger]
                    heap_entries(before.heap).count(e) > 0 implies e.1 != slot by {}
            }
        }
    }

    fn pop_with_incumbent(&mut self, score: Option<&Score>) -> (r: Option<S>) {
        loop
            invariant
                self.well_formed(),
                popped(self.model(), score_value(score)) == popped(
                    old(self).model(),
                    score_value(score),
                ),
            decreases occupied(self.slots@),
        {
            let ghost before = *self;
            proof {
                top_slot_is_occupied(before.model(), before.slots@.len());
            }
            match heap_pop(&mut self.heap) {
                None => {
                    proof {
                        // An occupied slot would have its entry in the heap.
                        if top_slot(before.model(), before.slots@.len()) is Some {
                            let t = top_slot(before.model(), before.slots@.len())->0;
                            assert(heap_entries(before.heap).count(before.entry(t)) == 1);
                        }
                        assert forall|i: int|
                            0 <= i < self.slots@.len() implies #[trigger] self.entry(i)
                            == before.entry(i) by {}
                    }
                    return None;
                },
                Some(top) => {
                    let slot: usize = top.1;
                    let mut taken: Option<S> = None;
                    self.slots.set_and_swap(slot, &mut taken);
                    self.free.push(slot);
                    let node: S = taken.unwrap();
                    proof {
                        // The greatest entry is the entry of the slot that is first in
                        // the order: each of the two is at least the other.
                        assert(top == before.entry(slot as int));
                        assert(before.slots.len() == before.slots@.len());
                        top_slot_is_first(before.model(), before.slots@.len(), slot as int);
                        let t = top_slot(before.model(), before.slots@.len())->0;
                        assert(entry_le(before.entry(t), top));
                        assert(t == slot);
                        vacating_removes(before.slots@, t);
                        assert(self.model().slots =~= vacated(before.model(), t).slots);
                        assert(self.model().free =~= vacated(before.model(), t).free);
                        assert forall|i: int|
                            0 <= i < self.slots@.len() && self.slots@[i] is Some implies (
                            #[trigger] self.entry(i)) == before.entry(i) && i != slot by {}
                    }
                    if may_improve(&node, score) {
                        return Some(node);
                    }
                    if self.stop_early {
                        return None;
                    }
                },
            }
        }
    }
}

} // verus!
