//! Where a key falls in a strictly ordered sequence of price keys.
use vstd::prelude::*;
use crate::sorted::{in_order, strictly_ordered};

verus! {

/// How many keys of `keys` come strictly before `k` in the given order.
pub open spec fn count_before(keys: Seq<(i128, u128)>, k: (i128, u128), descending: bool) -> nat
    decreases keys.len(),
{
    if keys.len() == 0 {
        0
    } else {
        count_before(keys.drop_last(), k, descending) + if in_order(keys.last(), k, descending) {
            1nat
        } else {
            0nat
        }
    }
}

pub proof fn lemma_in_order_transitive(a: (i128, u128), b: (i128, u128), c: (i128, u128), descending: bool)
    requires
        in_order(a, b, descending),
        in_order(b, c, descending),
    ensures
        in_order(a, c, descending),
{
}

pub proof fn lemma_in_order_asymmetric(a: (i128, u128), b: (i128, u128), descending: bool)
    requires
        in_order(a, b, descending),
    ensures
        !in_order(b, a, descending),
        a != b,
{
}

/// Exactly one of: `a` before `b`, `b` before `a`, or `a == b`.
pub proof fn lemma_in_order_total(a: (i128, u128), b: (i128, u128), descending: bool)
    ensures
        in_order(a, b, descending) || in_order(b, a, descending) || a == b,
{
}

/// In a strictly ordered sequence, the keys before `k` form a prefix, of
/// length `count_before`.
pub proof fn lemma_count_before_split(keys: Seq<(i128, u128)>, k: (i128, u128), descending: bool)
    requires
        strictly_ordered(keys, descending),
    ensures
        count_before(keys, k, descending) <= keys.len(),
        forall|i: int|
            0 <= i < count_before(keys, k, descending) ==> in_order(#[trigger] keys[i], k, descending),
        forall|i: int|
            count_before(keys, k, descending) <= i < keys.len() ==> !in_order(
                #[trigger] keys[i],
                k,
                descending,
            ),
    decreases keys.len(),
{
    if keys.len() > 0 {
        let init = keys.drop_last();
        assert(strictly_ordered(init, descending)) by {
            assert forall|i: int, j: int| 0 <= i < j < init.len() implies in_order(
                #[trigger] init[i],
                #[trigger] init[j],
                descending,
            ) by {
                assert(init[i] == keys[i] && init[j] == keys[j]);
            }
        }
        lemma_count_before_split(init, k, descending);
        let c = count_before(init, k, descending);
        let n = keys.len() - 1;
        if in_order(keys.last(), k, descending) {
            assert forall|i: int| 0 <= i < n implies in_order(#[trigger] init[i], k, descending) by {
                assert(init[i] == keys[i]);
                assert(in_order(keys[i], keys[n], descending));
                lemma_in_order_transitive(keys[i], keys[n], k, descending);
            }
            if c < n {
                assert(!in_order(init[c as int], k, descending));
                assert(in_order(init[c as int], k, descending));
            }
            assert forall|i: int|
                0 <= i < count_before(keys, k, descending) implies in_order(
                #[trigger] keys[i],
                k,
                descending,
            ) by {
                if i < n {
                    assert(init[i] == keys[i]);
                }
            }
        } else {
            assert forall|i: int|
                count_before(keys, k, descending) <= i < keys.len() implies !in_order(
                #[trigger] keys[i],
                k,
                descending,
            ) by {
                if i < n {
                    assert(init[i] == keys[i]);
                }
            }
            assert forall|i: int|
                0 <= i < count_before(keys, k, descending) implies in_order(
                #[trigger] keys[i],
                k,
                descending,
            ) by {
                assert(init[i] == keys[i]);
            }
        }
    }
}

/// A split point of a strictly ordered sequence around `k` is
/// `count_before`.
pub proof fn lemma_split_unique(keys: Seq<(i128, u128)>, k: (i128, u128), index: int, descending: bool)
    requires
        strictly_ordered(keys, descending),
        0 <= index <= keys.len(),
        forall|i: int| 0 <= i < index ==> in_order(#[trigger] keys[i], k, descending),
        forall|i: int| index <= i < keys.len() ==> !in_order(#[trigger] keys[i], k, descending),
    ensures
        count_before(keys, k, descending) == index,
{
    lemma_count_before_split(keys, k, descending);
    let c = count_before(keys, k, descending) as int;
    if c < index {
        assert(in_order(keys[c], k, descending));
    } else if c > index {
        assert(in_order(keys[index], k, descending));
    }
}

/// Inserting `k` at `index` keeps a sequence strictly ordered only where
/// `index` is the split point.
pub proof fn lemma_insert_position(keys: Seq<(i128, u128)>, k: (i128, u128), index: int, descending: bool)
    requires
        strictly_ordered(keys, descending),
        0 <= index <= keys.len(),
        strictly_ordered(keys.insert(index, k), descending),
    ensures
        count_before(keys, k, descending) == index,
        !keys.contains(k),
{
    let t = keys.insert(index, k);
    assert forall|i: int| 0 <= i < index implies in_order(#[trigger] keys[i], k, descending) by {
        assert(t[i] == keys[i] && t[index] == k);
    }
    assert forall|i: int| index <= i < keys.len() implies !in_order(#[trigger] keys[i], k, descending) by {
        assert(t[i + 1] == keys[i] && t[index] == k);
        lemma_in_order_asymmetric(k, keys[i], descending);
    }
    lemma_split_unique(keys, k, index, descending);
    if keys.contains(k) {
        let j = choose|j: int| 0 <= j < keys.len() && keys[j] == k;
        if j < index {
            assert(t[j] == k && t[index] == k);
            lemma_in_order_asymmetric(t[j], t[index], descending);
        } else {
            assert(t[j + 1] == k && t[index] == k);
            lemma_in_order_asymmetric(t[index], t[j + 1], descending);
        }
    }
}

/// A key found at `index` of a strictly ordered sequence sits at its
/// split point.
pub proof fn lemma_found_position(keys: Seq<(i128, u128)>, k: (i128, u128), index: int, descending: bool)
    requires
        strictly_ordered(keys, descending),
        0 <= index < keys.len(),
        keys[index] == k,
    ensures
        count_before(keys, k, descending) == index,
{
    assert forall|i: int| index <= i < keys.len() implies !in_order(#[trigger] keys[i], k, descending) by {
        if i > index {
            lemma_in_order_asymmetric(keys[index], keys[i], descending);
        }
    }
    lemma_split_unique(keys, k, index, descending);
}

/// Removing the last key keeps a sequence strictly ordered.
pub proof fn lemma_drop_last_ordered(keys: Seq<(i128, u128)>, descending: bool)
    requires
        strictly_ordered(keys, descending),
        keys.len() > 0,
    ensures
        strictly_ordered(keys.drop_last(), descending),
{
    let t = keys.drop_last();
    assert forall|i: int, j: int| 0 <= i < j < t.len() implies in_order(
        #[trigger] t[i],
        #[trigger] t[j],
        descending,
    ) by {
        assert(t[i] == keys[i] && t[j] == keys[j]);
    }
}

} // verus!
