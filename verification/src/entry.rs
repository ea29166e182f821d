//! The entries of a filter or of a list of preferences.

use vstd::prelude::*;

verus! {

/// One entry of a filter or of a list of preferences.
#[derive(Clone, Copy, Debug, PartialEq, Eq, Structural)]
pub enum Entry {
    /// Exactly this value.
    Value(i32),
    /// Every value.
    Any,
}

/// Whether `entries` holds [`Entry::Any`].
pub open spec fn has_any(entries: Seq<Entry>) -> bool {
    entries.contains(Entry::Any)
}

/// Whether `entries` holds [`Entry::Value`] of `v`.
pub open spec fn has_value(entries: Seq<Entry>, v: i32) -> bool {
    entries.contains(Entry::Value(v))
}

/// Whether the filter `allowed` lets `v` through: it names `v`, or it holds
/// [`Entry::Any`].
pub open spec fn permits(allowed: Seq<Entry>, v: i32) -> bool {
    has_any(allowed) || has_value(allowed, v)
}

/// Whether `entries` holds [`Entry::Any`].
pub fn contains_any(entries: &[Entry]) -> (found: bool)
    ensures
        found == has_any(entries@),
{
    let mut i: usize = 0;
    while i < entries.len()
        invariant
            i <= entries.len(),
            forall|k: int| 0 <= k < i ==> entries@[k] != Entry::Any,
        decreases entries.len() - i,
    {
        if entries[i] == Entry::Any {
            return true;
        }
        i += 1;
    }
    false
}

/// Whether `entries` holds [`Entry::Value`] of `v`.
pub fn contains_value(entries: &[Entry], v: i32) -> (found: bool)
    ensures
        found == has_value(entries@, v),
{
    let mut i: usize = 0;
    while i < entries.len()
        invariant
            i <= entries.len(),
            forall|k: int| 0 <= k < i ==> entries@[k] != Entry::Value(v),
        decreases entries.len() - i,
    {
        if entries[i] == Entry::Value(v) {
            return true;
        }
        i += 1;
    }
    false
}

} // verus!
