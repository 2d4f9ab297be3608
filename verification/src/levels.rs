//! Price levels of one side of an exchange's book: a map from price to
//! amount, in which prices that are numerically equal are one level.
use vstd::prelude::*;
use std::collections::BTreeMap;
use vstd::std_specs::cmp::OrdSpec;
use vstd::std_specs::btree::{spec_btree_map_iter, increasing_seq};
use vstd::laws_cmp::obeys_cmp;
use vstd::std_specs::iter::IteratorSpec;
use crate::decimal::{Decimal, price_key, key_lt};

verus! {

broadcast use vstd::std_specs::btree::group_btree_axioms, vstd::laws_cmp::group_laws_cmp;

/// A level as stored: the price as first given, and the amount.
pub type Level = (Decimal, Decimal);

/// The levels in ascending key order, as pairs of key and level.
pub open spec fn ascending_pairs(s: Seq<((i128, u128), Level)>) -> bool {
    forall|i: int, j: int| 0 <= i < j < s.len() ==> key_lt(#[trigger] s[i].0, #[trigger] s[j].0)
}

/// `s` lists exactly the levels of `m`.
pub open spec fn lists_map(s: Seq<((i128, u128), Level)>, m: Map<(i128, u128), Level>) -> bool {
    &&& s.len() == m.len()
    &&& forall|i: int| 0 <= i < s.len() ==> m.contains_key(#[trigger] s[i].0) && m[s[i].0] == s[i].1
    &&& forall|k: (i128, u128)| #[trigger] m.contains_key(k) ==> exists|i: int| 0 <= i < s.len() && s[i].0 == k
}

proof fn lemma_cmp_less_is_key_lt(a: (i128, u128), b: (i128, u128))
    ensures
        (a.cmp_spec(&b) is Less) <==> key_lt(a, b),
{
}

/// Price keys obey the laws of a total order, as `BTreeMap` needs.
proof fn lemma_price_keys_totally_ordered()
    ensures
        obeys_cmp::<(i128, u128)>(),
{
}

/// The entries of a map keyed by price keys, in ascending key order.
fn sorted_pairs(map: &BTreeMap<(i128, u128), Level>) -> (r: Vec<((i128, u128), Level)>)
    ensures
        ascending_pairs(r@),
        lists_map(r@, map@),
{
    let mut out: Vec<((i128, u128), Level)> = Vec::new();
    let ghost s = spec_btree_map_iter(map).remaining();
    proof {
        assert(obeys_cmp::<(i128, u128)>());
    }
    for kv in it: map.iter()
        invariant
            it.seq() == s,
            out@.len() == it.index(),
            forall|j: int| 0 <= j < it.index() ==> #[trigger] out@[j] == (*it.seq()[j].0, *it.seq()[j].1),
    {
        out.push((*kv.0, *kv.1));
    }
    proof {
        let ks = s.map_values(|kv: (&(i128, u128), &Level)| *kv.0);
        assert(increasing_seq(ks));
        assert forall|i: int, j: int| 0 <= i < j < out@.len() implies key_lt(
            #[trigger] out@[i].0,
            #[trigger] out@[j].0,
        ) by {
            assert(ks[i] == out@[i].0 && ks[j] == out@[j].0);
            lemma_cmp_less_is_key_lt(out@[i].0, out@[j].0);
        }
        assert forall|k: (i128, u128)| #[trigger] map@.contains_key(k) implies exists|i: int|
            0 <= i < out@.len() && out@[i].0 == k by {
            assert(s.contains((&k, &map@[k])));
            let i = choose|i: int| 0 <= i < s.len() && s[i] == (&k, &map@[k]);
            assert(out@[i].0 == k);
        }
    }
    out
}


/// Every level is stored under the key of its own price.
pub open spec fn keyed_by_price(m: Map<(i128, u128), Level>) -> bool {
    forall|k: (i128, u128)| #[trigger] m.contains_key(k) ==> price_key(m[k].0@) == k
}

/// `m` after `insert(price, amount)`: the amount of the level at that
/// price becomes `amount`; a level already there keeps the price as it
/// was first given.
pub open spec fn inserted(m: Map<(i128, u128), Level>, price: Decimal, amount: Decimal) -> Map<(i128, u128), Level> {
    let k = price_key(price@);
    m.insert(k, (if m.contains_key(k) { m[k].0 } else { price }, amount))
}

/// After `insert(price, amount)`, the level at `price` (and at every price
/// equal to it) has `amount`, and every other level is as it was.
pub proof fn lemma_insert_then_get(m: Map<(i128, u128), Level>, price: Decimal, amount: Decimal, k: (i128, u128))
    ensures
        inserted(m, price, amount).contains_key(price_key(price@)),
        inserted(m, price, amount)[price_key(price@)].1 == amount,
        k != price_key(price@) ==> inserted(m, price, amount).contains_key(k) == m.contains_key(k),
        k != price_key(price@) && m.contains_key(k) ==> inserted(m, price, amount)[k] == m[k],
{
}

/// `m` with every level of `u` inserted.
pub open spec fn merged(m: Map<(i128, u128), Level>, u: Map<(i128, u128), Level>) -> Map<(i128, u128), Level> {
    Map::new(
        |k: (i128, u128)| m.contains_key(k) || u.contains_key(k),
        |k: (i128, u128)|
            if u.contains_key(k) {
                (if m.contains_key(k) { m[k].0 } else { u[k].0 }, u[k].1)
            } else {
                m[k]
            },
    )
}

/// Whether a level's amount is zero.
pub open spec fn empty_level(l: Level) -> bool {
    l.1@.0 == 0
}

/// `m` without its levels of amount zero.
pub open spec fn nonzero_levels(m: Map<(i128, u128), Level>) -> Map<(i128, u128), Level> {
    Map::new(|k: (i128, u128)| m.contains_key(k) && !empty_level(m[k]), |k: (i128, u128)| m[k])
}

/// Removing the empty levels keeps exactly the levels whose amount has a
/// mantissa other than zero, each as it was.
pub proof fn lemma_nonzero_levels_law(m: Map<(i128, u128), Level>)
    ensures
        forall|k: (i128, u128)|
            #[trigger] nonzero_levels(m).contains_key(k) <==> (m.contains_key(k) && m[k].1@.0 != 0),
        forall|k: (i128, u128)| #[trigger] nonzero_levels(m).contains_key(k) ==> nonzero_levels(m)[k] == m[k],
{
}

/// `m` holds a level at exactly the prices of `pairs`: under the key of
/// each such price, a level of that price whose amount is that of the last
/// pair of that price.
pub open spec fn holds_pairs(m: Map<(i128, u128), Level>, pairs: Seq<(Decimal, Decimal)>) -> bool {
    &&& forall|k: (i128, u128)|
        #[trigger] m.contains_key(k) <==> exists|i: int| 0 <= i < pairs.len() && #[trigger] price_key(pairs[i].0@) == k
    &&& forall|i: int|
        0 <= i < pairs.len() && (forall|j: int| i < j < pairs.len() ==> price_key(#[trigger] pairs[j].0@) != price_key(pairs[i].0@))
            ==> {
            &&& m[price_key((#[trigger] pairs[i]).0@)].1 == pairs[i].1
            &&& price_key(m[price_key(pairs[i].0@)].0@) == price_key(pairs[i].0@)
        }
}

/// The levels that pairs give hold a level at exactly their prices, each
/// with the amount of the last pair of that price, zero amounts included.
pub proof fn lemma_pairs_levels_law(pairs: Seq<(Decimal, Decimal)>)
    ensures
        holds_pairs(pairs_levels(pairs), pairs),
    decreases pairs.len(),
{
    if pairs.len() > 0 {
        let prev = pairs.drop_last();
        lemma_pairs_levels_law(prev);
        let n = pairs.len() - 1;
        let m0 = pairs_levels(prev);
        let m = pairs_levels(pairs);
        let kl = price_key(pairs[n].0@);
        assert(m == inserted(m0, pairs.last().0, pairs.last().1));
        assert forall|k: (i128, u128)|
            #[trigger] m.contains_key(k) <==> exists|i: int| 0 <= i < pairs.len() && #[trigger] price_key(pairs[i].0@) == k by {
            if k == kl {
                assert(price_key(pairs[n].0@) == k);
            } else {
                if m0.contains_key(k) {
                    let i = choose|i: int| 0 <= i < prev.len() && #[trigger] price_key(prev[i].0@) == k;
                    assert(price_key(pairs[i].0@) == k);
                }
                if exists|i: int| 0 <= i < pairs.len() && #[trigger] price_key(pairs[i].0@) == k {
                    let i = choose|i: int| 0 <= i < pairs.len() && #[trigger] price_key(pairs[i].0@) == k;
                    assert(i < n);
                    assert(price_key(prev[i].0@) == k);
                }
            }
        }
        assert forall|i: int|
            0 <= i < pairs.len() && (forall|j: int| i < j < pairs.len() ==> price_key(#[trigger] pairs[j].0@) != price_key(pairs[i].0@))
            implies {
            &&& m[price_key((#[trigger] pairs[i]).0@)].1 == pairs[i].1
            &&& price_key(m[price_key(pairs[i].0@)].0@) == price_key(pairs[i].0@)
        } by {
            if i == n {
                if m0.contains_key(kl) {
                    let j = choose|j: int| 0 <= j < prev.len() && #[trigger] price_key(prev[j].0@) == kl;
                    assert(price_key(prev[j].0@) == kl);
                    lemma_last_of_key(prev, j, kl);
                    let last = choose|l: int| j <= l < prev.len() && price_key(#[trigger] prev[l].0@) == kl
                        && (forall|q: int| l < q < prev.len() ==> price_key(#[trigger] prev[q].0@) != kl);
                    assert(price_key(m0[price_key(prev[last].0@)].0@) == kl);
                }
            } else {
                assert(price_key(pairs[n].0@) != price_key(pairs[i].0@));
                assert(prev[i] == pairs[i]);
                assert forall|j: int| i < j < prev.len() implies price_key(#[trigger] prev[j].0@) != price_key(prev[i].0@) by {
                    assert(prev[j] == pairs[j]);
                }
            }
        }
    }
}

/// Where some pair has price key `k`, one of them is the last.
proof fn lemma_last_of_key(pairs: Seq<(Decimal, Decimal)>, j: int, k: (i128, u128))
    requires
        0 <= j < pairs.len(),
        price_key(pairs[j].0@) == k,
    ensures
        exists|l: int| j <= l < pairs.len() && price_key(#[trigger] pairs[l].0@) == k
            && (forall|q: int| l < q < pairs.len() ==> price_key(#[trigger] pairs[q].0@) != k),
    decreases pairs.len() - j,
{
    if exists|q: int| j < q < pairs.len() && price_key(#[trigger] pairs[q].0@) == k {
        let q = choose|q: int| j < q < pairs.len() && price_key(#[trigger] pairs[q].0@) == k;
        lemma_last_of_key(pairs, q, k);
    } else {
        assert(price_key(pairs[j].0@) == k);
    }
}

/// `s` lists the levels of `m` in strictly ascending price order.
pub open spec fn lists_ascending(s: Seq<Level>, m: Map<(i128, u128), Level>) -> bool {
    &&& s.len() == m.len()
    &&& forall|i: int| 0 <= i < s.len() ==> m.contains_key(price_key((#[trigger] s[i]).0@)) && m[price_key(s[i].0@)] == s[i]
    &&& forall|k: (i128, u128)| #[trigger] m.contains_key(k) ==> exists|i: int| 0 <= i < s.len() && price_key(s[i].0@) == k
    &&& forall|i: int, j: int| 0 <= i < j < s.len() ==> key_lt(price_key((#[trigger] s[i]).0@), price_key((#[trigger] s[j]).0@))
}

/// The levels of one side of a book, one per price.
#[derive(Clone, Debug)]
pub struct PriceLevels {
    map: BTreeMap<(i128, u128), Level>,
}

impl View for PriceLevels {
    type V = Map<(i128, u128), Level>;

    closed spec fn view(&self) -> Map<(i128, u128), Level> {
        self.map@
    }
}

impl PriceLevels {
    pub open spec fn wf(&self) -> bool {
        keyed_by_price(self@)
    }

    pub fn new() -> (r: PriceLevels)
        ensures
            r.wf(),
            r@ == Map::<(i128, u128), Level>::empty(),
    {
        PriceLevels { map: BTreeMap::new() }
    }

    /// The number of levels.
    pub fn len(&self) -> (r: usize)
        ensures
            r == self@.len(),
    {
        self.map.len()
    }

    /// The amount at the price numerically equal to `price`, if any.
    pub fn get(&self, price: &Decimal) -> (r: Option<Decimal>)
        ensures
            r is Some <==> self@.contains_key(price_key(price@)),
            r matches Some(a) ==> self@[price_key(price@)].1 == a,
    {
        let k = price.key();
        match self.map.get(&k) {
            Some(level) => Some(level.1),
            None => None,
        }
    }

    /// Sets the amount at `price`; a level already at that price keeps its
    /// price as first given.
    pub fn insert(&mut self, price: Decimal, amount: Decimal)
        requires
            old(self).wf(),
        ensures
            final(self).wf(),
            final(self)@ == inserted(old(self)@, price, amount),
    {
        let k = price.key();
        let kept = match self.map.get(&k) {
            Some(level) => level.0,
            None => price,
        };
        self.map.insert(k, (kept, amount));
    }

    /// The levels from price-amount pairs, later pairs of an equal price
    /// setting the amount.
    pub fn from_pairs(pairs: &Vec<(Decimal, Decimal)>) -> (r: PriceLevels)
        ensures
            r.wf(),
            r@ == pairs_levels(pairs@),
            holds_pairs(r@, pairs@),
    {
        proof {
            lemma_pairs_levels_law(pairs@);
        }
        let mut r = PriceLevels::new();
        let n = pairs.len();
        for i in 0..n
            invariant
                n == pairs.len(),
                r.wf(),
                r@ == pairs_levels(pairs@.take(i as int)),
        {
            let (price, amount) = pairs[i];
            r.insert(price, amount);
            assert(pairs@.take(i + 1).drop_last() =~= pairs@.take(i as int));
        }
        assert(pairs@.take(n as int) =~= pairs@);
        r
    }

    /// Inserts every level of `other`.
    pub fn merge(&mut self, other: &PriceLevels)
        requires
            old(self).wf(),
            other.wf(),
        ensures
            final(self).wf(),
            final(self)@ == merged(old(self)@, other@),
    {
        let ghost m = self@;
        let ghost u = other@;
        let pairs = sorted_pairs(&other.map);
        let ghost mut done = Map::<(i128, u128), Level>::empty();
        let n = pairs.len();
        for i in 0..n
            invariant
                n == pairs.len(),
                ascending_pairs(pairs@),
                lists_map(pairs@, u),
                keyed_by_price(u),
                self.wf(),
                self@ == merged(m, done),
                forall|j: int| 0 <= j < i ==> #[trigger] done.contains_key(pairs@[j].0) && done[pairs@[j].0] == pairs@[j].1,
                forall|k: (i128, u128)| #[trigger] done.contains_key(k) ==> u.contains_key(k) && done[k] == u[k]
                    && exists|j: int| 0 <= j < i && pairs@[j].0 == k,
        {
            let (k, level) = pairs[i];
            proof {
                assert(u.contains_key(k) && u[k] == level);
                assert(price_key(level.0@) == k);
                assert(!done.contains_key(k)) by {
                    if done.contains_key(k) {
                        let j = choose|j: int| 0 <= j < i && pairs@[j].0 == k;
                        assert(key_lt(pairs@[j].0, pairs@[i as int].0));
                    }
                }
            }
            self.insert(level.0, level.1);
            proof {
                let old_done = done;
                done = done.insert(k, level);
                assert(self@ =~= merged(m, done));
                assert forall|kk: (i128, u128)| #[trigger] done.contains_key(kk) implies u.contains_key(kk) && done[kk] == u[kk]
                    && exists|j: int| 0 <= j < i + 1 && pairs@[j].0 == kk by {
                    if kk != k {
                        assert(old_done.contains_key(kk));
                        let j = choose|j: int| 0 <= j < i && pairs@[j].0 == kk;
                        assert(0 <= j < i + 1 && pairs@[j].0 == kk);
                    } else {
                        assert(pairs@[i as int].0 == kk);
                    }
                }
            }
        }
        proof {
            assert forall|k: (i128, u128)| #[trigger] u.contains_key(k) implies done.contains_key(k) by {
                let j = choose|j: int| 0 <= j < pairs@.len() && pairs@[j].0 == k;
                assert(done.contains_key(pairs@[j].0));
            }
            assert(done =~= u);
        }
    }

    /// Removes the levels whose amount is zero.
    pub fn retain_nonzero(&mut self)
        requires
            old(self).wf(),
        ensures
            final(self).wf(),
            final(self)@ == nonzero_levels(old(self)@),
            forall|k: (i128, u128)|
                #[trigger] final(self)@.contains_key(k) <==> (old(self)@.contains_key(k) && old(self)@[k].1@.0 != 0),
            forall|k: (i128, u128)| #[trigger] final(self)@.contains_key(k) ==> final(self)@[k] == old(self)@[k],
    {
        proof {
            lemma_nonzero_levels_law(old(self)@);
        }
        let ghost m = self@;
        let pairs = sorted_pairs(&self.map);
        let n = pairs.len();
        for i in 0..n
            invariant
                n == pairs.len(),
                ascending_pairs(pairs@),
                lists_map(pairs@, m),
                keyed_by_price(m),
                forall|k: (i128, u128)| #[trigger] self@.contains_key(k) ==> m.contains_key(k) && self@[k] == m[k],
                forall|j: int| 0 <= j < i ==> (#[trigger] self@.contains_key(pairs@[j].0) <==> !empty_level(pairs@[j].1)),
                forall|j: int| i <= j < n ==> #[trigger] self@.contains_key(pairs@[j].0),
        {
            let (k, level) = pairs[i];
            if level.1.is_zero() {
                proof {
                    lemma_price_keys_totally_ordered();
                }
                let ghost before = self@;
                self.map.remove(&k);
                proof {
                    assert(self@ == before.remove(k));
                    assert forall|j: int| i < j < n implies #[trigger] self@.contains_key(pairs@[j].0) by {
                        assert(key_lt(pairs@[i as int].0, pairs@[j].0));
                    }
                    assert forall|j: int| 0 <= j < i implies (#[trigger] self@.contains_key(pairs@[j].0) <==> !empty_level(pairs@[j].1)) by {
                        assert(key_lt(pairs@[j].0, pairs@[i as int].0));
                    }
                }
            }
        }
        proof {
            assert forall|k: (i128, u128)| #[trigger] nonzero_levels(m).contains_key(k) <==> self@.contains_key(k) by {
                if m.contains_key(k) {
                    let j = choose|j: int| 0 <= j < pairs@.len() && pairs@[j].0 == k;
                    assert(self@.contains_key(pairs@[j].0) <==> !empty_level(pairs@[j].1));
                }
            }
            assert(self@ =~= nonzero_levels(m));
        }
    }

    /// The levels in strictly ascending price order.
    pub fn to_sorted_vec(&self) -> (r: Vec<Level>)
        requires
            self.wf(),
        ensures
            lists_ascending(r@, self@),
    {
        let pairs = sorted_pairs(&self.map);
        let ghost m = self@;
        let mut out: Vec<Level> = Vec::new();
        let n = pairs.len();
        for i in 0..n
            invariant
                n == pairs.len(),
                out@.len() == i,
                forall|j: int| 0 <= j < i ==> #[trigger] out@[j] == pairs@[j].1,
        {
            out.push(pairs[i].1);
        }
        proof {
            assert forall|i: int| 0 <= i < out@.len() implies m.contains_key(price_key((#[trigger] out@[i]).0@))
                && m[price_key(out@[i].0@)] == out@[i] by {
                assert(m.contains_key(pairs@[i].0));
            }
            assert forall|k: (i128, u128)| #[trigger] m.contains_key(k) implies exists|i: int|
                0 <= i < out@.len() && price_key(out@[i].0@) == k by {
                let i = choose|i: int| 0 <= i < pairs@.len() && pairs@[i].0 == k;
                assert(price_key(out@[i].0@) == k);
            }
            assert forall|i: int, j: int| 0 <= i < j < out@.len() implies key_lt(
                price_key((#[trigger] out@[i]).0@),
                price_key((#[trigger] out@[j]).0@),
            ) by {
                assert(m.contains_key(pairs@[i].0) && m.contains_key(pairs@[j].0));
                assert(key_lt(pairs@[i].0, pairs@[j].0));
            }
        }
        out
    }
}

/// The levels that price-amount pairs give when inserted in order.
pub open spec fn pairs_levels(pairs: Seq<(Decimal, Decimal)>) -> Map<(i128, u128), Level>
    decreases pairs.len(),
{
    if pairs.len() == 0 {
        Map::empty()
    } else {
        inserted(pairs_levels(pairs.drop_last()), pairs.last().0, pairs.last().1)
    }
}

} // verus!
