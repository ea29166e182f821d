//! Ascending sequences, and the one ascending sequence of a finite set.

use vstd::prelude::*;
use vstd::seq_lib::to_multiset_contains;

verus! {

/// Whether the values of `s` never fall from one position to the next.
pub open spec fn ascending(s: Seq<i32>) -> bool {
    forall|i: int, j: int| 0 <= i <= j < s.len() ==> s[i] <= s[j]
}

/// Whether the values of `s` rise from each position to the next, so that
/// none occurs twice.
pub open spec fn strictly_ascending(s: Seq<i32>) -> bool {
    forall|i: int, j: int| 0 <= i < j < s.len() ==> s[i] < s[j]
}

/// The members of the finite set `s`, each once, in ascending order.
pub open spec fn sorted(s: Set<i32>) -> Seq<i32>
    recommends
        s.finite(),
{
    s.to_sorted_seq(|a: i32, b: i32| a <= b)
}

/// Two strictly ascending sequences with the same members are the same
/// sequence.
pub proof fn lemma_strictly_ascending_unique(a: Seq<i32>, b: Seq<i32>)
    requires
        strictly_ascending(a),
        strictly_ascending(b),
        a.to_set() == b.to_set(),
    ensures
        a == b,
    decreases a.len(),
{
    if a.len() == 0 {
        if b.len() > 0 {
            assert(b.contains(b[0]));
            assert(a.to_set().contains(b[0]));
        }
        assert(a =~= b);
    } else {
        let top = a.last();
        assert(a.contains(a[a.len() - 1]));
        assert(b.to_set().contains(top));
        let at = choose|i: int| 0 <= i < b.len() && b[i] == top;
        assert(b.contains(b[b.len() - 1]));
        assert(a.to_set().contains(b.last()));
        let back = choose|i: int| 0 <= i < a.len() && a[i] == b.last();
        assert(at == b.len() - 1) by {
            if at < b.len() - 1 {
                assert(b[at] < b[b.len() - 1]);
                if back < a.len() - 1 {
                    assert(a[back] < a[a.len() - 1]);
                }
            }
        }
        let a0 = a.drop_last();
        let b0 = b.drop_last();
        assert forall|x: i32| a0.to_set().contains(x) == b0.to_set().contains(x) by {
            if a0.contains(x) {
                let i = choose|i: int| 0 <= i < a0.len() && a0[i] == x;
                assert(a[i] == x && a[i] < a[a.len() - 1]);
                assert(a.contains(x));
                assert(b.to_set().contains(x));
                let j = choose|j: int| 0 <= j < b.len() && b[j] == x;
                assert(b0[j] == x);
            }
            if b0.contains(x) {
                let j = choose|j: int| 0 <= j < b0.len() && b0[j] == x;
                assert(b[j] == x && b[j] < b[b.len() - 1]);
                assert(b.contains(x));
                assert(a.to_set().contains(x));
                let i = choose|i: int| 0 <= i < a.len() && a[i] == x;
                assert(a0[i] == x);
            }
        }
        assert(a0.to_set() =~= b0.to_set());
        lemma_strictly_ascending_unique(a0, b0);
        assert(a =~= a0.push(top));
        assert(b =~= b0.push(top));
    }
}

/// A finite set, laid out as a sequence, holds no member twice.
proof fn lemma_to_seq_no_duplicates(s: Set<i32>)
    requires
        s.finite(),
    ensures
        s.to_seq().no_duplicates(),
    decreases s.len(),
{
    if s.len() != 0 {
        let x = s.choose();
        let rest = s.remove(x).to_seq();
        lemma_to_seq_no_duplicates(s.remove(x));
        s.remove(x).lemma_to_seq_to_set_id();
        let q = s.to_seq();
        assert(q =~= Seq::<i32>::empty().push(x) + rest);
        assert forall|i: int, j: int| 0 <= i < q.len() && 0 <= j < q.len() && i != j implies q[i]
            != q[j] by {
            if 0 < i && 0 < j {
                assert(rest[i - 1] != rest[j - 1]);
            } else {
                let k = if i == 0 {
                    j
                } else {
                    i
                };
                assert(rest.contains(rest[k - 1]));
                assert(rest.to_set().contains(rest[k - 1]));
            }
        }
    }
}

/// The ascending order of a finite set holds exactly the members of the set
/// and is strictly ascending.
pub proof fn lemma_sorted(s: Set<i32>)
    requires
        s.finite(),
    ensures
        strictly_ascending(sorted(s)),
        sorted(s).to_set() == s,
{
    let leq = |a: i32, b: i32| a <= b;
    let laid = s.to_seq();
    let q = sorted(s);
    assert(vstd::relations::total_ordering(leq));
    laid.lemma_sort_by_ensures(leq);
    s.lemma_to_seq_to_set_id();
    lemma_to_seq_no_duplicates(s);
    laid.lemma_multiset_has_no_duplicates();
    q.lemma_multiset_has_no_duplicates_conv();
    assert forall|i: int, j: int| 0 <= i < j < q.len() implies q[i] < q[j] by {
        assert(leq(q[i], q[j]));
        assert(q[i] != q[j]);
    }
    assert forall|x: i32| q.to_set().contains(x) == s.contains(x) by {
        to_multiset_contains(q, x);
        to_multiset_contains(laid, x);
        assert(laid.to_set().contains(x) == laid.contains(x));
    }
    assert(q.to_set() =~= s);
}

/// A strictly ascending sequence is the ascending order of its members.
pub proof fn lemma_sorted_unique(q: Seq<i32>)
    requires
        strictly_ascending(q),
    ensures
        q == sorted(q.to_set()),
{
    vstd::seq_lib::seq_to_set_is_finite(q);
    lemma_sorted(q.to_set());
    lemma_strictly_ascending_unique(q, sorted(q.to_set()));
}

/// A value put into a strictly ascending sequence behind the smaller values
/// and before the greater ones leaves it strictly ascending, with one member
/// more.
proof fn lemma_insert_ascending(before: Seq<i32>, at: int, v: i32)
    requires
        strictly_ascending(before),
        0 <= at <= before.len(),
        forall|k: int| 0 <= k < at ==> before[k] < v,
        at < before.len() ==> v < before[at],
    ensures
        strictly_ascending(before.insert(at, v)),
        before.insert(at, v).to_set() == before.to_set().insert(v),
{
    let after = before.insert(at, v);
    before.insert_ensures(at, v);
    assert forall|a: int, b: int| 0 <= a < b < after.len() implies after[a] < after[b] by {
        let x = if a < at {
            before[a]
        } else if a == at {
            v
        } else {
            before[a - 1]
        };
        let y = if b < at {
            before[b]
        } else if b == at {
            v
        } else {
            before[b - 1]
        };
        assert(after[a] == x);
        assert(after[b] == y);
        if a <= at < b {
            assert(before[at] <= before[b - 1]);
        }
    }
    assert forall|x: i32| after.to_set().contains(x) == before.to_set().insert(v).contains(x) by {
        if after.contains(x) {
            let k = choose|k: int| 0 <= k < after.len() && after[k] == x;
            if k < at {
                assert(before[k] == x);
            } else if k > at {
                assert(after[k] == before[k - 1]);
                assert(before.contains(before[k - 1]));
            }
        }
        if before.contains(x) {
            let k = choose|k: int| 0 <= k < before.len() && before[k] == x;
            if k < at {
                assert(after[k] == x);
            } else {
                assert(after[k + 1] == x);
            }
        }
        if x == v {
            assert(after[at] == v);
        }
    }
    assert(after.to_set() =~= before.to_set().insert(v));
}

/// A finite set of values, held as a strictly ascending vector.
pub struct AscendingSet {
    values: Vec<i32>,
}

impl View for AscendingSet {
    type V = Set<i32>;

    /// The members of the set.
    closed spec fn view(&self) -> Set<i32> {
        self.values@.to_set()
    }
}

impl AscendingSet {
    #[verifier::type_invariant]
    spec fn rises(self) -> bool {
        strictly_ascending(self.values@)
    }

    /// The empty set.
    pub fn new() -> (set: Self)
        ensures
            set@ == Set::<i32>::empty(),
    {
        let set = AscendingSet { values: Vec::new() };
        assert(set.values@.to_set() =~= Set::<i32>::empty());
        set
    }

    /// Makes `v` a member of the set, if it is none yet.
    pub fn insert(&mut self, v: i32)
        ensures
            final(self)@ == old(self)@.insert(v),
    {
        proof {
            use_type_invariant(&*self);
        }
        let mut values: Vec<i32> = Vec::new();
        std::mem::swap(&mut values, &mut self.values);
        let ghost before = values@;
        let mut i: usize = 0;
        while i < values.len() && values[i] < v
            invariant
                i <= values.len(),
                values@ == before,
                forall|k: int| 0 <= k < i ==> values@[k] < v,
            decreases values.len() - i,
        {
            i += 1;
        }
        if i < values.len() && values[i] == v {
            proof {
                assert(before.contains(before[i as int]));
                assert(before.to_set() =~= before.to_set().insert(v));
            }
        } else {
            values.insert(i, v);
            proof {
                lemma_insert_ascending(before, i as int, v);
            }
        }
        self.values = values;
    }

    /// The members of the set in ascending order.
    pub fn into_vec(self) -> (values: Vec<i32>)
        ensures
            values@ == sorted(self@),
    {
        proof {
            use_type_invariant(&self);
            lemma_sorted_unique(self.values@);
        }
        self.values
    }
}

} // verus!
