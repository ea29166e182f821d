//! The present values: the available values that the filter lets through.

use vstd::prelude::*;
use crate::entry::{contains_any, contains_value, has_any, permits, Entry};
use crate::order::ascending;

verus! {

/// The available values that `allowed` lets through, in the order and as often
/// as `available` holds them.
pub open spec fn present(available: Seq<i32>, allowed: Seq<Entry>) -> Seq<i32> {
    available.filter(|v: i32| permits(allowed, v))
}

/// One more available value adds itself to the present values where the
/// filter lets it through, and nothing where it does not.
pub proof fn lemma_present_push(available: Seq<i32>, allowed: Seq<Entry>, v: i32)
    ensures
        present(available.push(v), allowed) == if permits(allowed, v) {
            present(available, allowed).push(v)
        } else {
            present(available, allowed)
        },
{
    available.lemma_filter_push(v, |x: i32| permits(allowed, x));
}

/// With no available value there is no present value.
pub proof fn lemma_present_empty(allowed: Seq<Entry>)
    ensures
        present(Seq::<i32>::empty(), allowed) == Seq::<i32>::empty(),
{
    reveal(Seq::filter);
}

/// Values that the filter lets through without exception are all present.
pub proof fn lemma_present_all(available: Seq<i32>, allowed: Seq<Entry>)
    requires
        forall|i: int| 0 <= i < available.len() ==> permits(allowed, #[trigger] available[i]),
    ensures
        present(available, allowed) == available,
    decreases available.len(),
{
    if available.len() == 0 {
        lemma_present_empty(allowed);
        assert(available =~= Seq::<i32>::empty());
    } else {
        let front = available.drop_last();
        lemma_present_all(front, allowed);
        lemma_present_push(front, allowed, available.last());
        assert(available =~= front.push(available.last()));
    }
}

/// A filter that holds [`Entry::Any`] leaves the available values as they are.
pub proof fn lemma_present_any(available: Seq<i32>, allowed: Seq<Entry>)
    requires
        has_any(allowed),
    ensures
        present(available, allowed) == available,
{
    lemma_present_all(available, allowed);
}

/// A value is present if and only if it is available and the filter lets it
/// through.
pub proof fn lemma_present_contains(available: Seq<i32>, allowed: Seq<Entry>, v: i32)
    ensures
        present(available, allowed).contains(v) <==> available.contains(v) && permits(allowed, v),
{
    let pred = |x: i32| permits(allowed, x);
    if available.contains(v) && permits(allowed, v) {
        let i = choose|i: int| 0 <= i < available.len() && available[i] == v;
        available.lemma_filter_contains(pred, i);
    }
    if present(available, allowed).contains(v) {
        available.lemma_filter_contains_rev(pred, v);
    }
}

/// Ascending available values leave ascending present values.
pub proof fn lemma_present_ascending(available: Seq<i32>, allowed: Seq<Entry>)
    requires
        ascending(available),
    ensures
        ascending(present(available, allowed)),
    decreases available.len(),
{
    if available.len() == 0 {
        lemma_present_empty(allowed);
        assert(available =~= Seq::<i32>::empty());
    } else {
        let front = available.drop_last();
        let top = available.last();
        let kept = present(front, allowed);
        lemma_present_ascending(front, allowed);
        lemma_present_push(front, allowed, top);
        assert(available =~= front.push(top));
        assert forall|i: int| 0 <= i < kept.len() implies kept[i] <= top by {
            assert(kept.contains(kept[i]));
            lemma_present_contains(front, allowed, kept[i]);
            let k = choose|k: int| 0 <= k < front.len() && front[k] == kept[i];
            assert(available[k] <= available[available.len() - 1]);
        }
    }
}

/// The present values, computed: a copy of `available` where `allowed` holds
/// [`Entry::Any`], and else the available values that `allowed` names, in
/// their order.
pub fn filter_allowed(available: &[i32], allowed: &[Entry]) -> (kept: Vec<i32>)
    ensures
        kept@ == present(available@, allowed@),
        has_any(allowed@) ==> kept@ == available@,
{
    if contains_any(allowed) {
        proof {
            lemma_present_any(available@, allowed@);
        }
        return vstd::slice::slice_to_vec(available);
    }
    let mut kept: Vec<i32> = Vec::new();
    let mut i: usize = 0;
    proof {
        lemma_present_empty(allowed@);
        assert(available@.take(0) =~= Seq::<i32>::empty());
    }
    while i < available.len()
        invariant
            i <= available.len(),
            !has_any(allowed@),
            kept@ == present(available@.take(i as int), allowed@),
        decreases available.len() - i,
    {
        let v = available[i];
        proof {
            lemma_present_push(available@.take(i as int), allowed@, v);
            assert(available@.take(i + 1) =~= available@.take(i as int).push(v));
        }
        if contains_value(allowed, v) {
            kept.push(v);
        }
        i += 1;
    }
    proof {
        assert(available@.take(i as int) =~= available@);
    }
    kept
}

} // verus!
