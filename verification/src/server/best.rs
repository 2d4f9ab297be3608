//! What a side of the served book holds after any run of offers: the
//! best `cap` prices ever offered, each with the level last offered at it.
use vstd::prelude::*;
use crate::sorted::{in_order, strictly_ordered};
use crate::ranking::{count_before, lemma_count_before_split, lemma_in_order_transitive};
use crate::server::types::{
    OrderbookEntry, capped, entry_key, entry_keys, place, lemma_place_shape, lemma_offered_level_kept,
};

verus! {

/// A side keeping at most `cap` levels after each of `levels` was offered
/// in turn to an empty side (`update_asks` ascending, `update_bids`
/// descending).
pub open spec fn offered_side(levels: Seq<OrderbookEntry>, cap: nat, descending: bool) -> Seq<OrderbookEntry>
    decreases levels.len(),
{
    if levels.len() == 0 {
        Seq::empty()
    } else {
        capped(place(offered_side(levels.drop_last(), cap, descending), levels.last(), descending), cap)
    }
}

/// Some level at the price of key `k` was offered.
pub open spec fn was_offered(levels: Seq<OrderbookEntry>, k: (i128, u128)) -> bool {
    exists|i: int| 0 <= i < levels.len() && entry_key(#[trigger] levels[i]) == k
}

/// The level last offered at the price of key `k`.
pub open spec fn latest_offer(levels: Seq<OrderbookEntry>, k: (i128, u128)) -> OrderbookEntry
    decreases levels.len(),
{
    if levels.len() == 0 {
        arbitrary()
    } else if entry_key(levels.last()) == k {
        levels.last()
    } else {
        latest_offer(levels.drop_last(), k)
    }
}

/// The side `t` holds the best offers of `levels`: strictly ordered, at
/// most `cap` levels, each the last offered at its price, and every price
/// offered is kept unless the side is full of better prices.
pub open spec fn holds_best_offers(t: Seq<OrderbookEntry>, levels: Seq<OrderbookEntry>, cap: nat, descending: bool) -> bool {
    &&& strictly_ordered(entry_keys(t), descending)
    &&& t.len() <= cap
    &&& forall|i: int|
        0 <= i < t.len() ==> was_offered(levels, entry_key(#[trigger] t[i])) && t[i] == latest_offer(
            levels,
            entry_key(t[i]),
        )
    &&& forall|k: (i128, u128)|
        #[trigger] was_offered(levels, k) ==> (exists|i: int| 0 <= i < t.len() && entry_key(#[trigger] t[i]) == k)
            || (t.len() == cap && forall|i: int| 0 <= i < t.len() ==> in_order(entry_key(#[trigger] t[i]), k, descending))
}

proof fn lemma_keys_index(s: Seq<OrderbookEntry>, i: int)
    requires
        0 <= i < s.len(),
    ensures
        entry_keys(s)[i] == entry_key(s[i]),
        entry_keys(s).len() == s.len(),
{
}

/// The served book keeps, on each side, the best `cap` prices ever
/// offered, each with the level last offered at it: whatever levels are
/// offered in turn to an empty side, it holds exactly those.
pub proof fn lemma_side_keeps_best_offers(levels: Seq<OrderbookEntry>, cap: nat, descending: bool)
    ensures
        holds_best_offers(offered_side(levels, cap, descending), levels, cap, descending),
    decreases levels.len(),
{
    if levels.len() == 0 {
        assert(holds_best_offers(Seq::empty(), levels, cap, descending));
    } else {
        let prefix = levels.drop_last();
        let e = levels.last();
        let k = entry_key(e);
        lemma_side_keeps_best_offers(prefix, cap, descending);
        let s = offered_side(prefix, cap, descending);
        let keys = entry_keys(s);
        let p = count_before(keys, k, descending) as int;
        let placed = place(s, e, descending);
        let t = capped(placed, cap);
        assert(offered_side(levels, cap, descending) == t);
        lemma_place_shape(s, e, descending);
        lemma_offered_level_kept(s, e, cap, descending);
        lemma_count_before_split(keys, k, descending);
        let found = p < s.len() && entry_key(s[p]) == k;
        let dropped = placed.len() > cap;
        // `t` is `placed` up to its last level where that is dropped.
        assert(dropped ==> !found && s.len() == cap && t == placed.drop_last());
        assert(!dropped ==> t == placed);
        assert(was_offered(levels, k)) by {
            assert(levels[levels.len() - 1] == e);
        }
        assert(latest_offer(levels, k) == e);
        // Every kept level is an offer, the last at its price.
        assert forall|i: int| 0 <= i < t.len() implies was_offered(levels, entry_key(#[trigger] t[i])) && t[i]
            == latest_offer(levels, entry_key(t[i])) by {
            if i != p {
                let j = if found || i < p {
                    i
                } else {
                    i - 1
                };
                assert(t[i] == s[j]);
                lemma_keys_index(s, j);
                assert(keys[j] != k) by {
                    if keys[j] == k {
                        if !found {
                            assert(keys.contains(k));
                        } else {
                            lemma_keys_index(s, p);
                            assert(in_order(keys[j], keys[p], descending) || in_order(keys[p], keys[j], descending));
                        }
                    }
                }
                let kk = entry_key(s[j]);
                assert(was_offered(prefix, kk));
                let w = choose|w: int| 0 <= w < prefix.len() && entry_key(#[trigger] prefix[w]) == kk;
                assert(levels[w] == prefix[w]);
                assert(latest_offer(levels, kk) == latest_offer(prefix, kk));
            }
        }
        // Every price offered is kept, or the side is full of better ones.
        assert forall|kk: (i128, u128)| #[trigger] was_offered(levels, kk) implies (exists|i: int|
            0 <= i < t.len() && entry_key(#[trigger] t[i]) == kk) || (t.len() == cap && forall|i: int|
            0 <= i < t.len() ==> in_order(entry_key(#[trigger] t[i]), kk, descending)) by {
            if kk == k {
                if p < cap {
                    assert(entry_key(t[p]) == kk);
                } else {
                    assert(p == s.len() && s.len() == cap);
                    assert(t =~= s);
                    assert forall|i: int| 0 <= i < t.len() implies in_order(entry_key(#[trigger] t[i]), kk, descending) by {
                        lemma_keys_index(s, i);
                    }
                }
            } else {
                let w = choose|w: int| 0 <= w < levels.len() && entry_key(#[trigger] levels[w]) == kk;
                assert(w < prefix.len());
                assert(prefix[w] == levels[w]);
                assert(was_offered(prefix, kk));
                if exists|j: int| 0 <= j < s.len() && entry_key(#[trigger] s[j]) == kk {
                    let j = choose|j: int| 0 <= j < s.len() && entry_key(#[trigger] s[j]) == kk;
                    let i = if found || j < p {
                        j
                    } else {
                        j + 1
                    };
                    lemma_keys_index(s, j);
                    if found && j == p {
                        lemma_keys_index(s, p);
                    }
                    assert(placed[i] == s[j]);
                    if i < t.len() {
                        assert(entry_key(t[i]) == kk);
                    } else {
                        assert(dropped && i == cap);
                        assert forall|a: int| 0 <= a < t.len() implies in_order(entry_key(#[trigger] t[a]), kk, descending) by {
                            lemma_keys_index(placed, a);
                            lemma_keys_index(placed, i);
                            assert(entry_keys(placed)[a] == entry_key(t[a]));
                        }
                    }
                } else {
                    assert(s.len() == cap);
                    assert forall|a: int| 0 <= a < t.len() implies in_order(entry_key(#[trigger] t[a]), kk, descending) by {
                        if a == p {
                            if found {
                                lemma_keys_index(s, p);
                                assert(in_order(entry_key(s[p]), kk, descending));
                            } else {
                                // `e` is kept, so the dropped last level comes after it.
                                assert(dropped);
                                let last = placed.len() - 1;
                                assert(placed[last] == s[last - 1]);
                                assert(in_order(entry_key(s[last - 1]), kk, descending));
                                lemma_keys_index(placed, a);
                                lemma_keys_index(placed, last);
                                lemma_in_order_transitive(entry_key(placed[a]), entry_key(placed[last]), kk, descending);
                            }
                        } else {
                            let j = if found || a < p {
                                a
                            } else {
                                a - 1
                            };
                            assert(t[a] == s[j]);
                            assert(in_order(entry_key(s[j]), kk, descending));
                        }
                    }
                }
            }
        }
    }
}

} // verus!
