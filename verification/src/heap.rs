//! The bounded top-K queue: a double-ended priority heap from the
//! `min-max-heap` crate, holding `(rank, slot)` pairs ordered
//! lexicographically (the `Ord` of tuples), modeled as a multiset.

use vstd::prelude::*;
use vstd::multiset::Multiset;

verus! {

#[verifier::external_type_specification]
#[verifier::external_body]
#[verifier::reject_recursive_types(T)]
pub struct ExMinMaxHeap<T>(min_max_heap::MinMaxHeap<T>);

/// The elements a heap holds.
pub uninterp spec fn heap_model(h: min_max_heap::MinMaxHeap<(u128, usize)>) -> Multiset<
    (u128, usize),
>;

/// The lexicographic order of the heap's `(rank, slot)` elements.
pub open spec fn tup_le(a: (u128, usize), b: (u128, usize)) -> bool {
    a.0 < b.0 || (a.0 == b.0 && a.1 <= b.1)
}

/// Relies on `MinMaxHeap::new`: an empty heap.
#[verifier::external_body]
pub fn heap_new() -> (r: min_max_heap::MinMaxHeap<(u128, usize)>)
    ensures
        heap_model(r) == Multiset::<(u128, usize)>::empty(),
{
    min_max_heap::MinMaxHeap::new()
}

/// Relies on `MinMaxHeap::len`: the number of elements.
#[verifier::external_body]
pub fn heap_len(h: &min_max_heap::MinMaxHeap<(u128, usize)>) -> (r: usize)
    ensures
        r == heap_model(*h).len(),
{
    h.len()
}

/// Relies on `MinMaxHeap::push`: adds an element.
#[verifier::external_body]
pub fn heap_push(h: &mut min_max_heap::MinMaxHeap<(u128, usize)>, e: (u128, usize))
    ensures
        heap_model(*final(h)) == heap_model(*old(h)).insert(e),
        heap_model(*final(h)).len() == heap_model(*old(h)).len() + 1,
{
    h.push(e)
}

/// Relies on `MinMaxHeap::peek_min`: the least element, if any.
#[verifier::external_body]
pub fn heap_peek_min(h: &min_max_heap::MinMaxHeap<(u128, usize)>) -> (r: Option<(u128, usize)>)
    ensures
        match r {
            None => heap_model(*h).len() == 0,
            Some(m) => heap_model(*h).count(m) > 0 && forall|e: (u128, usize)|
                heap_model(*h).count(e) > 0 ==> tup_le(m, e),
        },
{
    h.peek_min().copied()
}

/// Relies on `MinMaxHeap::replace_min`: pops the least element, then pushes
/// `e`; on an empty heap it only pushes.
#[verifier::external_body]
pub fn heap_replace_min(h: &mut min_max_heap::MinMaxHeap<(u128, usize)>, e: (u128, usize)) -> (r:
    Option<(u128, usize)>)
    ensures
        match r {
            None => heap_model(*old(h)).len() == 0 && heap_model(*final(h)) == heap_model(
                *old(h),
            ).insert(e) && heap_model(*final(h)).len() == 1,
            Some(m) => heap_model(*old(h)).count(m) > 0 && (forall|f: (u128, usize)|
                heap_model(*old(h)).count(f) > 0 ==> tup_le(m, f)) && heap_model(*final(h))
                == heap_model(*old(h)).remove(m).insert(e) && heap_model(*final(h)).len()
                == heap_model(*old(h)).len(),
        },
{
    h.replace_min(e)
}

/// Relies on `MinMaxHeap::pop_max`: removes and returns the greatest
/// element, if any.
#[verifier::external_body]
pub fn heap_pop_max(h: &mut min_max_heap::MinMaxHeap<(u128, usize)>) -> (r: Option<(u128, usize)>)
    ensures
        match r {
            None => heap_model(*old(h)).len() == 0 && heap_model(*final(h)) == heap_model(*old(h)),
            Some(m) => heap_model(*old(h)).count(m) > 0 && (forall|f: (u128, usize)|
                heap_model(*old(h)).count(f) > 0 ==> tup_le(f, m)) && heap_model(*final(h))
                == heap_model(*old(h)).remove(m) && heap_model(*final(h)).len() == heap_model(
                *old(h),
            ).len() - 1,
        },
{
    h.pop_max()
}

} // verus!
