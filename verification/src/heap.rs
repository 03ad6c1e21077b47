//! The binary heap that keeps the priority container's entries in order.
//!
//! An entry is a pair of a rank and the number of the slot in which the node
//! of that rank waits. Pairs are ordered by rank first and by slot second.
//! The heap itself is not verified: this module states what is relied on.

use binary_heap_plus::{BinaryHeap, MaxComparator};
use vstd::multiset::Multiset;
use vstd::prelude::*;

verus! {

#[verifier::external_type_specification]
#[verifier::external_body]
#[verifier::reject_recursive_types(T)]
#[verifier::reject_recursive_types(C)]
pub struct ExBinaryHeap<T, C>(BinaryHeap<T, C>);

#[verifier::external_type_specification]
#[verifier::external_body]
pub struct ExMaxComparator(MaxComparator);

/// The entries that a heap holds, each as often as it was pushed and not yet
/// popped.
pub uninterp spec fn heap_entries(heap: BinaryHeap<(i64, usize), MaxComparator>) -> Multiset<
    (i64, usize),
>;

/// The order of entries: by rank, and among equal ranks by slot.
pub open spec fn entry_le(a: (i64, usize), b: (i64, usize)) -> bool {
    a.0 < b.0 || (a.0 == b.0 && a.1 <= b.1)
}

/// `BinaryHeap::from_vec`: a max-heap that holds the elements of the vector.
#[verifier::external_body]
pub(crate) fn heap_from_vec(entries: Vec<(i64, usize)>) -> (heap: BinaryHeap<
    (i64, usize),
    MaxComparator,
>)
    ensures
        heap_entries(heap) == entries@.to_multiset(),
{
    BinaryHeap::from_vec(entries)
}

/// `BinaryHeap::push`: the heap holds the entry once more, and nothing else
/// changes.
#[verifier::external_body]
pub(crate) fn heap_push(heap: &mut BinaryHeap<(i64, usize), MaxComparator>, entry: (i64, usize))
    ensures
        heap_entries(*final(heap)) == heap_entries(*old(heap)).insert(entry),
{
    heap.push(entry)
}

/// `BinaryHeap::pop`: an empty heap gives `None` and stays as it is; any
/// other gives up one of its entries, and that entry is the greatest: no
/// entry of the heap is above it in the order of pairs.
#[verifier::external_body]
pub(crate) fn heap_pop(heap: &mut BinaryHeap<(i64, usize), MaxComparator>) -> (top: Option<
    (i64, usize),
>)
    ensures
        match top {
            None => heap_entries(*old(heap)).len() == 0 && heap_entries(*final(heap))
                == heap_entries(*old(heap)),
            Some(e) => {
                &&& heap_entries(*old(heap)).count(e) > 0
                &&& heap_entries(*final(heap)) == heap_entries(*old(heap)).remove(e)
                &&& forall|x: (i64, usize)| #[trigger]
                    heap_entries(*old(heap)).count(x) > 0 ==> entry_le(x, e)
            },
        },
{
    heap.pop()
}

} // verus!
