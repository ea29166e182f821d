//! The selection: the present values that serve the preferences.

use vstd::prelude::*;
use crate::entry::{contains_any, has_any, has_value, permits, Entry};
use crate::nearest::{
    find_nearest, is_nearest_by_value, lemma_nearest_ascending, lemma_nearest_present, nearest,
};
use crate::order::{
    ascending, lemma_sorted, lemma_sorted_unique, sorted, strictly_ascending, AscendingSet,
};
use crate::present::{
    filter_allowed, lemma_present_all, lemma_present_ascending, lemma_present_contains, present,
};

verus! {

/// The present values that stand for the values that `preferred` names: for
/// each of them its nearest present value.
pub open spec fn picks(present: Seq<i32>, preferred: Seq<Entry>) -> Set<i32> {
    Set::new(
        |x: i32| exists|v: i32| #[trigger] has_value(preferred, v) && nearest(present, v) == x,
    )
}

/// What [`attempt`] returns. With no present value, or with a preference for
/// [`Entry::Any`], it is the present values as they stand. Else it is the
/// picks, each once, in ascending order.
pub open spec fn selection(
    available: Seq<i32>,
    allowed: Seq<Entry>,
    preferred: Seq<Entry>,
) -> Seq<i32> {
    let kept = present(available, allowed);
    if kept.len() == 0 || has_any(preferred) {
        kept
    } else {
        sorted(picks(kept, preferred))
    }
}

/// No preference, no pick.
pub proof fn lemma_picks_empty(present: Seq<i32>)
    ensures
        picks(present, Seq::<Entry>::empty()) == Set::<i32>::empty(),
{
    assert(picks(present, Seq::<Entry>::empty()) =~= Set::<i32>::empty());
}

/// One more preference for a value adds the pick for that value.
pub proof fn lemma_picks_push(present: Seq<i32>, preferred: Seq<Entry>, v: i32)
    ensures
        picks(present, preferred.push(Entry::Value(v))) == picks(present, preferred).insert(
            nearest(present, v),
        ),
{
    let longer = preferred.push(Entry::Value(v));
    assert forall|w: i32| has_value(longer, w) <==> has_value(preferred, w) || w == v by {
        if has_value(preferred, w) {
            let i = choose|i: int| 0 <= i < preferred.len() && preferred[i] == Entry::Value(w);
            assert(longer[i] == Entry::Value(w));
        }
        if w == v {
            assert(longer[preferred.len() as int] == Entry::Value(w));
        }
        if has_value(longer, w) {
            let i = choose|i: int| 0 <= i < longer.len() && longer[i] == Entry::Value(w);
            if i < preferred.len() {
                assert(preferred[i] == Entry::Value(w));
            }
        }
    }
    assert forall|x: i32|
        picks(present, longer).contains(x) == picks(present, preferred).insert(
            nearest(present, v),
        ).contains(x) by {
        if picks(present, longer).contains(x) {
            let w = choose|w: i32| #[trigger] has_value(longer, w) && nearest(present, w) == x;
            assert(has_value(preferred, w) || w == v);
        }
        if picks(present, preferred).contains(x) {
            let w = choose|w: i32| #[trigger] has_value(preferred, w) && nearest(present, w) == x;
            assert(has_value(longer, w));
        }
        if x == nearest(present, v) {
            assert(has_value(longer, v));
        }
    }
    assert(picks(present, longer) =~= picks(present, preferred).insert(nearest(present, v)));
}

/// With a present value to go by, every pick is a present value, and the
/// picks are finitely many.
pub proof fn lemma_picks_present(present: Seq<i32>, preferred: Seq<Entry>)
    requires
        present.len() > 0,
    ensures
        picks(present, preferred).subset_of(present.to_set()),
        picks(present, preferred).finite(),
{
    assert forall|x: i32| picks(present, preferred).contains(x) implies present.to_set().contains(
        x,
    ) by {
        let v = choose|v: i32| #[trigger] has_value(preferred, v) && nearest(present, v) == x;
        lemma_nearest_present(present, v);
    }
    vstd::seq_lib::seq_to_set_is_finite(present);
    vstd::set_lib::lemma_set_subset_finite(present.to_set(), picks(present, preferred));
}

/// Where the picks are selected, the selection is strictly ascending and
/// holds exactly the picks.
pub proof fn lemma_selection_of_picks(
    available: Seq<i32>,
    allowed: Seq<Entry>,
    preferred: Seq<Entry>,
)
    requires
        present(available, allowed).len() > 0,
        !has_any(preferred),
    ensures
        strictly_ascending(selection(available, allowed, preferred)),
        selection(available, allowed, preferred).to_set() == picks(
            present(available, allowed),
            preferred,
        ),
{
    lemma_picks_present(present(available, allowed), preferred);
    lemma_sorted(picks(present(available, allowed), preferred));
}

/// The selection is settled by its members: a strictly ascending sequence
/// that holds exactly the picks is the selection.
pub proof fn lemma_selection_unique(
    result: Seq<i32>,
    available: Seq<i32>,
    allowed: Seq<Entry>,
    preferred: Seq<Entry>,
)
    requires
        present(available, allowed).len() > 0,
        !has_any(preferred),
        strictly_ascending(result),
        result.to_set() == picks(present(available, allowed), preferred),
    ensures
        result == selection(available, allowed, preferred),
{
    lemma_sorted_unique(result);
}

/// Every selected value is a present value: it is available, and the filter
/// lets it through.
pub proof fn lemma_selection_present(
    available: Seq<i32>,
    allowed: Seq<Entry>,
    preferred: Seq<Entry>,
    x: i32,
)
    requires
        selection(available, allowed, preferred).contains(x),
    ensures
        present(available, allowed).contains(x),
        available.contains(x),
        permits(allowed, x),
{
    let p = present(available, allowed);
    if p.len() > 0 && !has_any(preferred) {
        lemma_selection_of_picks(available, allowed, preferred);
        lemma_picks_present(p, preferred);
        assert(selection(available, allowed, preferred).to_set().contains(x));
        assert(p.to_set().contains(x));
    }
    lemma_present_contains(available, allowed, x);
}

/// Where the filter lets no available value through, nothing is selected,
/// whatever is preferred.
pub proof fn lemma_selection_none_permitted(
    available: Seq<i32>,
    allowed: Seq<Entry>,
    preferred: Seq<Entry>,
)
    requires
        forall|i: int| 0 <= i < available.len() ==> !permits(allowed, #[trigger] available[i]),
    ensures
        selection(available, allowed, preferred).len() == 0,
{
    let p = present(available, allowed);
    if p.len() > 0 {
        assert(p.contains(p[0]));
        lemma_present_contains(available, allowed, p[0]);
        let i = choose|i: int| 0 <= i < available.len() && available[i] == p[0];
        assert(!permits(allowed, available[i]));
    }
}

/// With a present value to go by, the nearest present value of every
/// preferred value is selected.
pub proof fn lemma_selection_nearest(
    available: Seq<i32>,
    allowed: Seq<Entry>,
    preferred: Seq<Entry>,
    v: i32,
)
    requires
        present(available, allowed).len() > 0,
        has_value(preferred, v),
    ensures
        selection(available, allowed, preferred).contains(nearest(present(available, allowed), v)),
{
    let p = present(available, allowed);
    if has_any(preferred) {
        lemma_nearest_present(p, v);
    } else {
        lemma_selection_of_picks(available, allowed, preferred);
        assert(picks(p, preferred).contains(nearest(p, v)));
        assert(selection(available, allowed, preferred).to_set().contains(nearest(p, v)));
    }
}

/// A preferred value that is present is selected.
pub proof fn lemma_selection_exact(
    available: Seq<i32>,
    allowed: Seq<Entry>,
    preferred: Seq<Entry>,
    v: i32,
)
    requires
        has_value(preferred, v),
        present(available, allowed).contains(v),
    ensures
        selection(available, allowed, preferred).contains(v),
{
    lemma_selection_nearest(available, allowed, preferred, v);
}

/// Among ascending available values, a preferred value that is not present
/// has its place taken in the selection by the least present value above it,
/// or, where no present value is above it, by the greatest present value.
pub proof fn lemma_selection_fallback(
    available: Seq<i32>,
    allowed: Seq<Entry>,
    preferred: Seq<Entry>,
    v: i32,
)
    requires
        ascending(available),
        has_value(preferred, v),
        present(available, allowed).len() > 0,
        !present(available, allowed).contains(v),
    ensures
        selection(available, allowed, preferred).contains(nearest(present(available, allowed), v)),
        is_nearest_by_value(
            present(available, allowed),
            v,
            nearest(present(available, allowed), v),
        ),
{
    lemma_selection_nearest(available, allowed, preferred, v);
    lemma_present_ascending(available, allowed);
    lemma_nearest_ascending(present(available, allowed), v);
}

/// Among ascending values, the nearest value within a part of them that
/// holds the nearest value within the whole is that same value.
proof fn lemma_nearest_within(whole: Seq<i32>, part: Seq<i32>, v: i32)
    requires
        ascending(whole),
        ascending(part),
        forall|x: i32| part.contains(x) ==> whole.contains(x),
        part.contains(nearest(whole, v)),
    ensures
        nearest(part, v) == nearest(whole, v),
{
    let x = nearest(whole, v);
    if !whole.contains(v) {
        lemma_nearest_ascending(whole, v);
        lemma_nearest_ascending(part, v);
        lemma_nearest_present(part, v);
        let y = nearest(part, v);
        if exists|z: i32| whole.contains(z) && z > v {
            assert(part.contains(x) && x > v);
            assert(whole.contains(y) && y > v);
        } else {
            assert(!(exists|z: i32| part.contains(z) && z > v)) by {
                if exists|z: i32| part.contains(z) && z > v {
                    let z = choose|z: i32| part.contains(z) && z > v;
                    assert(whole.contains(z) && z > v);
                }
            }
            assert(whole.contains(y));
        }
    }
}

/// The filter lets all that was selected through: offered as the available
/// values, the selection is present whole.
pub proof fn lemma_selection_passes(
    available: Seq<i32>,
    allowed: Seq<Entry>,
    preferred: Seq<Entry>,
)
    ensures
        present(selection(available, allowed, preferred), allowed) == selection(
            available,
            allowed,
            preferred,
        ),
{
    let first = selection(available, allowed, preferred);
    assert forall|i: int| 0 <= i < first.len() implies permits(allowed, #[trigger] first[i]) by {
        assert(first.contains(first[i]));
        lemma_selection_present(available, allowed, preferred, first[i]);
    }
    lemma_present_all(first, allowed);
}

/// To select again among what was selected, with the same filter and the
/// same preferences, changes nothing, where the present values are ascending
/// or [`Entry::Any`] is preferred. Ascending available values are enough for
/// that: see [`lemma_present_ascending`].
pub proof fn lemma_selection_idempotent(
    available: Seq<i32>,
    allowed: Seq<Entry>,
    preferred: Seq<Entry>,
)
    requires
        has_any(preferred) || ascending(present(available, allowed)),
    ensures
        selection(selection(available, allowed, preferred), allowed, preferred) == selection(
            available,
            allowed,
            preferred,
        ),
{
    let p = present(available, allowed);
    let first = selection(available, allowed, preferred);
    lemma_selection_passes(available, allowed, preferred);
    if first.len() > 0 && !has_any(preferred) {
        lemma_selection_of_picks(available, allowed, preferred);
        assert forall|x: i32| picks(first, preferred).contains(x) == picks(p, preferred).contains(
            x,
        ) by {
            assert forall|v: i32| has_value(preferred, v) implies nearest(first, v) == nearest(
                p,
                v,
            ) by {
                assert forall|z: i32| first.contains(z) implies p.contains(z) by {
                    lemma_selection_present(available, allowed, preferred, z);
                }
                lemma_selection_nearest(available, allowed, preferred, v);
                lemma_nearest_within(p, first, v);
            }
            if picks(first, preferred).contains(x) {
                let v = choose|v: i32| #[trigger]
                    has_value(preferred, v) && nearest(first, v) == x;
                assert(has_value(preferred, v) && nearest(p, v) == x);
            }
            if picks(p, preferred).contains(x) {
                let v = choose|v: i32| #[trigger] has_value(preferred, v) && nearest(p, v) == x;
                assert(has_value(preferred, v) && nearest(first, v) == x);
            }
        }
        assert(picks(first, preferred) =~= picks(p, preferred));
    }
}

/// Without a preference nothing is selected, present values or not.
pub proof fn lemma_selection_no_preference(available: Seq<i32>, allowed: Seq<Entry>)
    ensures
        selection(available, allowed, Seq::<Entry>::empty()).len() == 0,
{
    let p = present(available, allowed);
    let none = Seq::<Entry>::empty();
    if p.len() > 0 {
        lemma_picks_empty(p);
        lemma_selection_of_picks(available, allowed, none);
        let chosen = selection(available, allowed, none);
        if chosen.len() > 0 {
            assert(chosen.contains(chosen[0]));
            assert(chosen.to_set().contains(chosen[0]));
        }
    }
}

/// Selects among the `available` values those that `allowed` lets through and
/// that serve `preferred` best.
///
/// With no present value, or with [`Entry::Any`] among the preferences, the
/// present values are returned as [`filter_allowed`] gives them. Else each
/// preferred value is stood for by its nearest present value, and these are
/// returned, each once, in ascending order; so no preference at all selects
/// nothing.
///
/// The nearest present value is found by position: it is the nearest by size
/// where `available` is ascending.
///
/// # Examples
///
/// ```
/// use selector::{attempt, Entry};
///
/// let available = [240, 720];
/// let allowed = [Entry::Value(360), Entry::Value(720)];
/// let preferred = [Entry::Value(1080)];
///
/// assert_eq!([720], attempt(&available, &allowed, &preferred).as_slice());
/// ```
///
/// With [`Entry::Any`]:
///
/// ```
/// use selector::{attempt, Entry};
///
/// let available = [240, 360, 720];
/// let allowed = [Entry::Value(240), Entry::Value(360), Entry::Value(720)];
/// let preferred = [Entry::Any, Entry::Value(720)];
///
/// assert_eq!([240, 360, 720], attempt(&available, &allowed, &preferred).as_slice());
/// ```
pub fn attempt(available: &[i32], allowed: &[Entry], preferred: &[Entry]) -> (result: Vec<i32>)
    ensures
        result@ == selection(available@, allowed@, preferred@),
        (forall|i: int| 0 <= i < available@.len() ==> !permits(allowed@, #[trigger] available@[i]))
            ==> result@.len() == 0,
        has_any(preferred@) ==> result@ == present(available@, allowed@),
        preferred@.len() == 0 ==> result@.len() == 0,
        forall|v: i32|
            #[trigger] has_value(preferred@, v) && present(available@, allowed@).contains(v)
                ==> result@.contains(v),
        forall|v: i32|
            #[trigger] has_value(preferred@, v) && present(available@, allowed@).len() > 0
                ==> result@.contains(nearest(present(available@, allowed@), v)),
        ascending(available@) ==> forall|v: i32|
            #[trigger] has_value(preferred@, v) && present(available@, allowed@).len() > 0
                && !present(available@, allowed@).contains(v) ==> exists|x: i32|
                result@.contains(x) && is_nearest_by_value(present(available@, allowed@), v, x),
        present(available@, allowed@).len() > 0 && !has_any(preferred@) ==> strictly_ascending(
            result@,
        ),
        forall|i: int|
            0 <= i < result@.len() ==> available@.contains(#[trigger] result@[i]) && permits(
                allowed@,
                result@[i],
            ),
{
    proof {
        let p = present(available@, allowed@);
        let chosen = selection(available@, allowed@, preferred@);
        if forall|i: int| 0 <= i < available@.len() ==> !permits(allowed@, #[trigger] available@[i]) {
            lemma_selection_none_permitted(available@, allowed@, preferred@);
        }
        if preferred@.len() == 0 {
            assert(preferred@ =~= Seq::<Entry>::empty());
            lemma_selection_no_preference(available@, allowed@);
        }
        assert forall|v: i32| #[trigger] has_value(preferred@, v) && p.len() > 0 implies {
            &&& chosen.contains(nearest(p, v))
            &&& p.contains(v) ==> chosen.contains(v)
            &&& ascending(available@) && !p.contains(v) ==> is_nearest_by_value(p, v, nearest(p, v))
        } by {
            lemma_selection_nearest(available@, allowed@, preferred@, v);
            if ascending(available@) && !p.contains(v) {
                lemma_selection_fallback(available@, allowed@, preferred@, v);
            }
        }
        if p.len() > 0 && !has_any(preferred@) {
            lemma_selection_of_picks(available@, allowed@, preferred@);
        }
        assert forall|i: int| 0 <= i < chosen.len() implies available@.contains(
            #[trigger] chosen[i],
        ) && permits(allowed@, chosen[i]) by {
            assert(chosen.contains(chosen[i]));
            lemma_selection_present(available@, allowed@, preferred@, chosen[i]);
        }
    }
    let kept = filter_allowed(available, allowed);
    if kept.len() == 0 || contains_any(preferred) {
        return kept;
    }
    let mut chosen = AscendingSet::new();
    let mut i: usize = 0;
    proof {
        lemma_picks_empty(kept@);
        assert(preferred@.take(0) =~= Seq::<Entry>::empty());
    }
    while i < preferred.len()
        invariant
            i <= preferred.len(),
            kept@.len() > 0,
            !has_any(preferred@),
            chosen@ == picks(kept@, preferred@.take(i as int)),
        decreases preferred.len() - i,
    {
        match preferred[i] {
            Entry::Value(v) => {
                chosen.insert(find_nearest(kept.as_slice(), v));
                proof {
                    lemma_picks_push(kept@, preferred@.take(i as int), v);
                    assert(preferred@.take(i + 1) =~= preferred@.take(i as int).push(
                        Entry::Value(v),
                    ));
                }
            },
            Entry::Any => {
                proof {
                    assert(preferred@.contains(preferred@[i as int]));
                }
                vstd::pervasive::unreached::<()>()
            },
        }
        i += 1;
    }
    proof {
        assert(preferred@.take(i as int) =~= preferred@);
    }
    chosen.into_vec()
}

} // verus!
