//! The present value that stands for one preferred value.

use vstd::prelude::*;
use crate::order::ascending;

verus! {

/// Whether position `j` of `present` holds a value above `v`, and no earlier
/// position does.
pub open spec fn is_first_above(present: Seq<i32>, v: i32, j: int) -> bool {
    &&& 0 <= j < present.len()
    &&& present[j] > v
    &&& forall|k: int| 0 <= k < j ==> present[k] <= v
}

/// The present value that stands for the preferred value `v`: `v` itself
/// where it is present; else the first present value above `v`; else, with no
/// present value above `v`, the last present value.
pub open spec fn nearest(present: Seq<i32>, v: i32) -> i32
    recommends
        present.len() > 0,
{
    if present.contains(v) {
        v
    } else if exists|j: int| is_first_above(present, v, j) {
        present[choose|j: int| is_first_above(present, v, j)]
    } else {
        present.last()
    }
}

/// Whether `x` is the least value of `s` above `v`.
pub open spec fn is_least_above(s: Seq<i32>, v: i32, x: i32) -> bool {
    &&& s.contains(x)
    &&& x > v
    &&& forall|y: i32| s.contains(y) && y > v ==> x <= y
}

/// Whether `x` is the greatest value of `s`.
pub open spec fn is_greatest(s: Seq<i32>, x: i32) -> bool {
    &&& s.contains(x)
    &&& forall|y: i32| s.contains(y) ==> y <= x
}

/// Whether `x` is the value of `s` nearest to `v` by size: the least value of
/// `s` above `v`, or, where `s` has no value above `v`, the greatest value of
/// `s`.
pub open spec fn is_nearest_by_value(s: Seq<i32>, v: i32, x: i32) -> bool {
    if exists|y: i32| s.contains(y) && y > v {
        is_least_above(s, v, x)
    } else {
        is_greatest(s, x)
    }
}

/// At most one position is the first above `v`.
pub proof fn lemma_first_above_unique(present: Seq<i32>, v: i32, j: int, k: int)
    requires
        is_first_above(present, v, j),
        is_first_above(present, v, k),
    ensures
        j == k,
{
    if j < k {
        assert(present[j] <= v);
    }
    if k < j {
        assert(present[k] <= v);
    }
}

/// Where some value from position `from` on is above `v`, one position is the
/// first above `v`, given that none before `from` is.
proof fn lemma_first_above_from(present: Seq<i32>, v: i32, from: int, k: int)
    requires
        0 <= from <= k < present.len(),
        present[k] > v,
        forall|i: int| 0 <= i < from ==> present[i] <= v,
    ensures
        exists|j: int| is_first_above(present, v, j),
    decreases k - from,
{
    if present[from] > v {
        assert(is_first_above(present, v, from));
    } else {
        lemma_first_above_from(present, v, from + 1, k);
    }
}

/// Some position is the first above `v` if and only if some value is above
/// `v`.
pub proof fn lemma_first_above_exists(present: Seq<i32>, v: i32)
    ensures
        (exists|j: int| is_first_above(present, v, j)) <==> (exists|k: int|
            0 <= k < present.len() && present[k] > v),
{
    if exists|k: int| 0 <= k < present.len() && present[k] > v {
        let k = choose|k: int| 0 <= k < present.len() && present[k] > v;
        lemma_first_above_from(present, v, 0, k);
    }
    if exists|j: int| is_first_above(present, v, j) {
        let j = choose|j: int| is_first_above(present, v, j);
        assert(0 <= j < present.len() && present[j] > v);
    }
}

/// The value that stands for `v` is a present value.
pub proof fn lemma_nearest_present(present: Seq<i32>, v: i32)
    requires
        present.len() > 0,
    ensures
        present.contains(nearest(present, v)),
{
    if present.contains(v) {
    } else if exists|j: int| is_first_above(present, v, j) {
        let j = choose|j: int| is_first_above(present, v, j);
        assert(present[j] == nearest(present, v));
    } else {
        assert(present[present.len() - 1] == nearest(present, v));
    }
}

/// Among ascending present values, a preferred value that is not present is
/// stood for by the least present value above it, or, where no present value
/// is above it, by the greatest present value.
pub proof fn lemma_nearest_ascending(present: Seq<i32>, v: i32)
    requires
        present.len() > 0,
        ascending(present),
        !present.contains(v),
    ensures
        is_nearest_by_value(present, v, nearest(present, v)),
{
    let x = nearest(present, v);
    lemma_nearest_present(present, v);
    lemma_first_above_exists(present, v);
    if exists|y: i32| present.contains(y) && y > v {
        let y = choose|y: i32| present.contains(y) && y > v;
        let k = choose|k: int| 0 <= k < present.len() && present[k] == y;
        assert(0 <= k < present.len() && present[k] > v);
        let j = choose|j: int| is_first_above(present, v, j);
        assert(x == present[j]);
        assert forall|z: i32| present.contains(z) && z > v implies x <= z by {
            let m = choose|m: int| 0 <= m < present.len() && present[m] == z;
            if m < j {
                assert(present[m] <= v);
            }
        }
    } else {
        assert(!(exists|j: int| is_first_above(present, v, j))) by {
            if exists|j: int| is_first_above(present, v, j) {
                let j = choose|j: int| is_first_above(present, v, j);
                assert(present.contains(present[j]) && present[j] > v);
            }
        }
        assert(x == present.last());
        assert forall|z: i32| present.contains(z) implies z <= x by {
            let m = choose|m: int| 0 <= m < present.len() && present[m] == z;
            assert(present[m] <= present[present.len() - 1]);
        }
    }
}

/// The present value that stands for the preferred value `v`, found by one
/// pass over `present` for `v` itself and one for the first value above it.
pub fn find_nearest(present: &[i32], v: i32) -> (found: i32)
    requires
        present@.len() > 0,
    ensures
        found == nearest(present@, v),
{
    let mut i: usize = 0;
    while i < present.len()
        invariant
            i <= present.len(),
            forall|k: int| 0 <= k < i ==> present@[k] != v,
        decreases present.len() - i,
    {
        if present[i] == v {
            return v;
        }
        i += 1;
    }
    let mut j: usize = 0;
    while j < present.len()
        invariant
            j <= present.len(),
            present@.len() > 0,
            !present@.contains(v),
            forall|k: int| 0 <= k < j ==> present@[k] <= v,
        decreases present.len() - j,
    {
        if present[j] > v {
            proof {
                assert(is_first_above(present@, v, j as int));
                lemma_first_above_unique(
                    present@,
                    v,
                    j as int,
                    choose|k: int| is_first_above(present@, v, k),
                );
            }
            return present[j];
        }
        j += 1;
    }
    proof {
        assert forall|k: int| !is_first_above(present@, v, k) by {
            if 0 <= k < present@.len() {
                assert(present@[k] <= v);
            }
        }
    }
    present[present.len() - 1]
}

} // verus!
