//! The sorted sets of `sorted_vec` that order price keys: what the
//! library relies on of `SortedSet::with_capacity`, `replace`, `pop` and
//! `len`, for a set of keys in ascending order and one in descending order
//! (a set of `Reverse` keys).
use vstd::prelude::*;
use sorted_vec::SortedSet;
use std::cmp::Reverse;
use crate::decimal::key_lt;

verus! {

/// `sorted_vec::SortedSet`, opaque: what the library knows of a set is
/// what the functions below state of the keys it holds.
#[verifier::external_type_specification]
#[verifier::external_body]
#[verifier::reject_recursive_types(T)]
pub struct ExSortedSet<T: Ord>(SortedSet<T>);

/// `std::cmp::Reverse`, the wrapper that reverses the order of the keys
/// of the bid set; opaque, only built and taken apart by the functions
/// below.
#[verifier::external_type_specification]
#[verifier::external_body]
#[verifier::reject_recursive_types(T)]
pub struct ExReverse<T>(Reverse<T>);

/// The keys an ascending set holds, in the order the set keeps them.
pub uninterp spec fn ascending_keys(set: SortedSet<(i128, u128)>) -> Seq<(i128, u128)>;

/// The keys a set of reversed keys holds, unwrapped, in the order the set
/// keeps them.
pub uninterp spec fn descending_keys(set: SortedSet<Reverse<(i128, u128)>>) -> Seq<(i128, u128)>;

/// `a` comes strictly before `b` in ascending, or in descending, key order.
pub open spec fn in_order(a: (i128, u128), b: (i128, u128), descending: bool) -> bool {
    if descending {
        key_lt(b, a)
    } else {
        key_lt(a, b)
    }
}

/// Every key comes strictly before every later key.
pub open spec fn strictly_ordered(s: Seq<(i128, u128)>, descending: bool) -> bool {
    forall|i: int, j: int| 0 <= i < j < s.len() ==> in_order(#[trigger] s[i], #[trigger] s[j], descending)
}

/// What `replace` of `key` does to a set whose keys were `before`: an
/// equal key stays where it is and is handed back; a new key goes in at
/// the returned index; the set stays strictly ordered.
pub open spec fn replaced(
    before: Seq<(i128, u128)>,
    after: Seq<(i128, u128)>,
    key: (i128, u128),
    index: int,
    previous: Option<(i128, u128)>,
    descending: bool,
) -> bool {
    &&& strictly_ordered(after, descending)
    &&& if before.contains(key) {
        &&& previous == Some(key)
        &&& 0 <= index < before.len()
        &&& before[index] == key
        &&& after == before
    } else {
        &&& previous is None
        &&& 0 <= index <= before.len()
        &&& after == before.insert(index, key)
    }
}

/// What `pop` does: the greatest key in the set's order leaves and is
/// handed back.
pub open spec fn popped(
    before: Seq<(i128, u128)>,
    after: Seq<(i128, u128)>,
    result: Option<(i128, u128)>,
) -> bool {
    if before.len() == 0 {
        after == before && result is None
    } else {
        after == before.drop_last() && result == Some(before.last())
    }
}

/// `SortedSet::with_capacity`: an empty set.
#[verifier::external_body]
pub(crate) fn ascending_with_capacity(capacity: usize) -> (set: SortedSet<(i128, u128)>)
    ensures
        ascending_keys(set) == Seq::<(i128, u128)>::empty(),
{
    SortedSet::with_capacity(capacity)
}

/// `SortedSet::replace` on an ascending set: see `replaced`.
#[verifier::external_body]
pub(crate) fn ascending_replace(set: &mut SortedSet<(i128, u128)>, key: (i128, u128)) -> (r: (
    usize,
    Option<(i128, u128)>,
))
    ensures
        strictly_ordered(ascending_keys(*old(set)), false) ==> replaced(
            ascending_keys(*old(set)),
            ascending_keys(*final(set)),
            key,
            r.0 as int,
            r.1,
            false,
        ),
{
    set.replace(key)
}

/// `SortedSet::pop` on an ascending set: the last key leaves.
#[verifier::external_body]
pub(crate) fn ascending_pop(set: &mut SortedSet<(i128, u128)>) -> (r: Option<(i128, u128)>)
    ensures
        popped(ascending_keys(*old(set)), ascending_keys(*final(set)), r),
{
    set.pop()
}

/// The number of keys in an ascending set.
#[verifier::external_body]
pub(crate) fn ascending_len(set: &SortedSet<(i128, u128)>) -> (r: usize)
    ensures
        r == ascending_keys(*set).len(),
{
    set.len()
}

/// `SortedSet::with_capacity` for reversed keys: an empty set.
#[verifier::external_body]
pub(crate) fn descending_with_capacity(capacity: usize) -> (set: SortedSet<Reverse<(i128, u128)>>)
    ensures
        descending_keys(set) == Seq::<(i128, u128)>::empty(),
{
    SortedSet::with_capacity(capacity)
}

/// `SortedSet::replace` of `Reverse(key)`: see `replaced`, in descending
/// order.
#[verifier::external_body]
pub(crate) fn descending_replace(set: &mut SortedSet<Reverse<(i128, u128)>>, key: (i128, u128)) -> (r: (
    usize,
    Option<(i128, u128)>,
))
    ensures
        strictly_ordered(descending_keys(*old(set)), true) ==> replaced(
            descending_keys(*old(set)),
            descending_keys(*final(set)),
            key,
            r.0 as int,
            r.1,
            true,
        ),
{
    let (index, previous) = set.replace(Reverse(key));
    match previous {
        Some(Reverse(k)) => (index, Some(k)),
        None => (index, None),
    }
}

/// `SortedSet::pop` on a set of reversed keys: the last key leaves.
#[verifier::external_body]
pub(crate) fn descending_pop(set: &mut SortedSet<Reverse<(i128, u128)>>) -> (r: Option<(i128, u128)>)
    ensures
        popped(descending_keys(*old(set)), descending_keys(*final(set)), r),
{
    match set.pop() {
        Some(Reverse(k)) => Some(k),
        None => None,
    }
}

/// The number of keys in a set of reversed keys.
#[verifier::external_body]
pub(crate) fn descending_len(set: &SortedSet<Reverse<(i128, u128)>>) -> (r: usize)
    ensures
        r == descending_keys(*set).len(),
{
    set.len()
}

} // verus!
