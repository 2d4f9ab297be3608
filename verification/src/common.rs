//! The book of one exchange as the aggregator keeps it, the updates that
//! change it, and the item it publishes after each update.
use vstd::prelude::*;
use crate::decimal::Decimal;
use crate::levels::{PriceLevels, Level, lists_ascending, merged, nonzero_levels, keyed_by_price, empty_level};

verus! {

/// A change to an exchange's book: the new amount at each listed price,
/// zero removing the level.
#[derive(Debug)]
pub struct OrderbookUpdate {
    pub stream: String,
    pub bids: PriceLevels,
    pub asks: PriceLevels,
}

/// A book as it is published: asks from the lowest price up, bids from
/// the highest price down.
#[derive(Debug)]
pub struct OrderbookQueueItem {
    pub stream: String,
    pub asks: Vec<(Decimal, Decimal)>,
    pub bids: Vec<(Decimal, Decimal)>,
}

/// The book of one exchange.
#[derive(Clone, Debug)]
pub struct Orderbook {
    stream: String,
    bids: PriceLevels,
    asks: PriceLevels,
}

/// No level of `m` has amount zero.
pub open spec fn no_empty_levels(m: Map<(i128, u128), Level>) -> bool {
    forall|k: (i128, u128)| #[trigger] m.contains_key(k) ==> !empty_level(m[k])
}

/// The side `m` after an update whose levels for that side are `u`.
pub open spec fn updated_side(m: Map<(i128, u128), Level>, u: Map<(i128, u128), Level>) -> Map<(i128, u128), Level> {
    nonzero_levels(merged(m, u))
}

/// Applying the same update a second time changes nothing.
pub proof fn lemma_update_idempotent(m: Map<(i128, u128), Level>, u: Map<(i128, u128), Level>)
    ensures
        updated_side(updated_side(m, u), u) == updated_side(m, u),
{
    assert(updated_side(updated_side(m, u), u) =~= updated_side(m, u));
}

/// An update that lists no level leaves a book without empty levels as
/// it was.
pub proof fn lemma_empty_update_keeps_book(m: Map<(i128, u128), Level>)
    requires
        no_empty_levels(m),
    ensures
        updated_side(m, Map::empty()) == m,
{
    assert(updated_side(m, Map::empty()) =~= m);
}

/// After an update, a listed price of nonzero amount has exactly that
/// amount, a listed price of amount zero has no level, and every other
/// level is as it was.
pub proof fn lemma_update_effect(m: Map<(i128, u128), Level>, u: Map<(i128, u128), Level>, k: (i128, u128))
    requires
        no_empty_levels(m),
    ensures
        u.contains_key(k) && !empty_level(u[k]) ==> updated_side(m, u).contains_key(k) && updated_side(m, u)[k].1
            == u[k].1,
        u.contains_key(k) && empty_level(u[k]) ==> !updated_side(m, u).contains_key(k),
        !u.contains_key(k) ==> (updated_side(m, u).contains_key(k) == m.contains_key(k)) && (m.contains_key(k)
            ==> updated_side(m, u)[k] == m[k]),
{
}

/// At price key `k`, `after` is `before` with the levels `u` applied: a
/// listed price whose amount has a mantissa other than zero has a level of
/// exactly that amount, a listed price of amount zero has no level, and an
/// unlisted price keeps its level, or its absence, as it was.
pub open spec fn applies_update_at(
    after: Map<(i128, u128), Level>,
    before: Map<(i128, u128), Level>,
    u: Map<(i128, u128), Level>,
    k: (i128, u128),
) -> bool {
    &&& u.contains_key(k) && u[k].1@.0 != 0 ==> after.contains_key(k) && after[k].1 == u[k].1
    &&& u.contains_key(k) && u[k].1@.0 == 0 ==> !after.contains_key(k)
    &&& !u.contains_key(k) ==> after.contains_key(k) == before.contains_key(k) && (before.contains_key(k) ==> after[k]
        == before[k])
    &&& after.contains_key(k) ==> after[k].1@.0 != 0
}

/// An update sets the amount of each listed price whose amount is not
/// zero, removes the level of each listed price whose amount is zero, and
/// leaves every other level as it was; no level of amount zero remains.
pub proof fn lemma_update_law(m: Map<(i128, u128), Level>, u: Map<(i128, u128), Level>, k: (i128, u128))
    requires
        forall|j: (i128, u128)| #[trigger] m.contains_key(j) ==> m[j].1@.0 != 0,
    ensures
        applies_update_at(updated_side(m, u), m, u, k),
{
}

impl OrderbookUpdate {
    pub open spec fn wf(&self) -> bool {
        self.bids.wf() && self.asks.wf()
    }
}

impl Orderbook {
    pub closed spec fn stream_view(&self) -> Seq<char> {
        self.stream@
    }

    pub closed spec fn bids_view(&self) -> Map<(i128, u128), Level> {
        self.bids@
    }

    pub closed spec fn asks_view(&self) -> Map<(i128, u128), Level> {
        self.asks@
    }

    /// Both sides keep each level under its price's key, and no level has
    /// amount zero.
    pub closed spec fn wf(&self) -> bool {
        &&& self.bids.wf()
        &&& self.asks.wf()
        &&& no_empty_levels(self.bids@)
        &&& no_empty_levels(self.asks@)
    }

    /// What every book keeps: no level of amount zero on either side, each
    /// level under the key of its own price.
    pub proof fn lemma_invariant(&self)
        requires
            self.wf(),
        ensures
            no_empty_levels(self.bids_view()),
            no_empty_levels(self.asks_view()),
            keyed_by_price(self.bids_view()),
            keyed_by_price(self.asks_view()),
    {
    }

    /// An empty book for the stream.
    pub fn new(stream: &str) -> (r: Orderbook)
        ensures
            r.wf(),
            r.stream_view() == stream@,
            r.bids_view() == Map::<(i128, u128), Level>::empty(),
            r.asks_view() == Map::<(i128, u128), Level>::empty(),
    {
        Orderbook { stream: String::from_str(stream), asks: PriceLevels::new(), bids: PriceLevels::new() }
    }

    pub fn stream(&self) -> (r: &String)
        ensures
            r@ == self.stream_view(),
    {
        &self.stream
    }

    pub fn bids(&self) -> (r: &PriceLevels)
        requires
            self.wf(),
        ensures
            r@ == self.bids_view(),
            r.wf(),
    {
        &self.bids
    }

    pub fn asks(&self) -> (r: &PriceLevels)
        requires
            self.wf(),
        ensures
            r@ == self.asks_view(),
            r.wf(),
    {
        &self.asks
    }

    /// Applies an update: each listed price takes its new amount (a level
    /// already there keeps its price as first given), then every level of
    /// amount zero is removed.
    pub fn update_book(&mut self, order_update: &OrderbookUpdate)
        requires
            old(self).wf(),
            order_update.wf(),
        ensures
            final(self).wf(),
            final(self).stream_view() == old(self).stream_view(),
            final(self).bids_view() == updated_side(old(self).bids_view(), order_update.bids@),
            final(self).asks_view() == updated_side(old(self).asks_view(), order_update.asks@),
            forall|k: (i128, u128)|
                #[trigger] applies_update_at(final(self).bids_view(), old(self).bids_view(), order_update.bids@, k),
            forall|k: (i128, u128)|
                #[trigger] applies_update_at(final(self).asks_view(), old(self).asks_view(), order_update.asks@, k),
    {
        proof {
            assert forall|k: (i128, u128)|
                #[trigger] applies_update_at(
                    updated_side(old(self).bids_view(), order_update.bids@),
                    old(self).bids_view(),
                    order_update.bids@,
                    k,
                ) by {
                lemma_update_law(old(self).bids_view(), order_update.bids@, k);
            }
            assert forall|k: (i128, u128)|
                #[trigger] applies_update_at(
                    updated_side(old(self).asks_view(), order_update.asks@),
                    old(self).asks_view(),
                    order_update.asks@,
                    k,
                ) by {
                lemma_update_law(old(self).asks_view(), order_update.asks@, k);
            }
        }
        self.bids.merge(&order_update.bids);
        self.asks.merge(&order_update.asks);
        self.bids.retain_nonzero();
        self.asks.retain_nonzero();
    }

    /// The book as published: asks in ascending price order, bids in
    /// descending price order.
    pub fn to_queue_item(&self) -> (r: OrderbookQueueItem)
        requires
            self.wf(),
        ensures
            r.stream@ == self.stream_view(),
            lists_ascending(r.asks@, self.asks_view()),
            lists_ascending(r.bids@.reverse(), self.bids_view()),
    {
        let asks = self.asks.to_sorted_vec();
        let ascending_bids = self.bids.to_sorted_vec();
        let mut bids: Vec<(Decimal, Decimal)> = Vec::new();
        let n = ascending_bids.len();
        let mut i: usize = n;
        while i > 0
            invariant
                i <= n == ascending_bids.len(),
                bids@ == ascending_bids@.subrange(i as int, n as int).reverse(),
            decreases i,
        {
            i = i - 1;
            bids.push(ascending_bids[i]);
            assert(ascending_bids@.subrange(i as int, n as int).reverse() =~= ascending_bids@.subrange(
                i + 1,
                n as int,
            ).reverse().push(ascending_bids@[i as int]));
        }
        assert(bids@.reverse() =~= ascending_bids@);
        OrderbookQueueItem { stream: self.stream.clone(), asks, bids }
    }
}

} // verus!
