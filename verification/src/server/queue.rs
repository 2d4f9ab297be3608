//! Folding the books that exchanges publish into the served book.
use vstd::prelude::*;
use crate::decimal::Decimal;
use crate::common::OrderbookQueueItem;
use crate::server::types::{
    Orderbook, OrderbookEntry, Summary, asks_after, bids_after, best, spread_fits, spread_model, spread_is_exact,
    place, capped, entry_key, entry_keys, lemma_place_shape, lemma_offered_level_kept,
};
use crate::decimal::price_key;
use crate::sorted::strictly_ordered;
use crate::ranking::lemma_in_order_asymmetric;

verus! {

/// The number of levels per side the served book keeps.
pub const BOOK_DEPTH: usize = 10;

/// The level `(price, amount)` of `exchange`.
pub open spec fn level_of(exchange: String, level: (Decimal, Decimal)) -> OrderbookEntry {
    OrderbookEntry { exchange, price: level.0, amount: level.1 }
}

/// The asks after each of `levels` of `exchange` was offered in turn, or
/// `None` where the spread after one of them overflows.
pub open spec fn apply_asks(
    asks: Seq<OrderbookEntry>,
    bids: Seq<OrderbookEntry>,
    cap: nat,
    exchange: String,
    levels: Seq<(Decimal, Decimal)>,
) -> Option<Seq<OrderbookEntry>>
    decreases levels.len(),
{
    if levels.len() == 0 {
        Some(asks)
    } else {
        match apply_asks(asks, bids, cap, exchange, levels.drop_last()) {
            None => None,
            Some(prev) => {
                let next = asks_after(prev, level_of(exchange, levels.last()), cap);
                if spread_fits(best(bids), best(next)) {
                    Some(next)
                } else {
                    None
                }
            },
        }
    }
}

/// The bids after each of `levels` of `exchange` was offered in turn, or
/// `None` where the spread after one of them overflows.
pub open spec fn apply_bids(
    bids: Seq<OrderbookEntry>,
    asks: Seq<OrderbookEntry>,
    cap: nat,
    exchange: String,
    levels: Seq<(Decimal, Decimal)>,
) -> Option<Seq<OrderbookEntry>>
    decreases levels.len(),
{
    if levels.len() == 0 {
        Some(bids)
    } else {
        match apply_bids(bids, asks, cap, exchange, levels.drop_last()) {
            None => None,
            Some(prev) => {
                let next = bids_after(prev, level_of(exchange, levels.last()), cap);
                if spread_fits(best(next), best(asks)) {
                    Some(next)
                } else {
                    None
                }
            },
        }
    }
}

/// Offering `e` to a strictly ordered side: every level after it is `e`
/// or was there before, and the only level at `e`'s price is `e`.
proof fn lemma_offer_step(s: Seq<OrderbookEntry>, e: OrderbookEntry, cap: nat, descending: bool)
    requires
        strictly_ordered(entry_keys(s), descending),
        s.len() <= cap,
    ensures
        ({
            let t = capped(place(s, e, descending), cap);
            &&& strictly_ordered(entry_keys(t), descending)
            &&& t.len() <= cap
            &&& forall|x: OrderbookEntry| #[trigger] t.contains(x) ==> x == e || s.contains(x)
            &&& forall|x: OrderbookEntry| #[trigger] t.contains(x) && entry_key(x) == entry_key(e) ==> x == e
        }),
{
    lemma_place_shape(s, e, descending);
    lemma_offered_level_kept(s, e, cap, descending);
    let keys = entry_keys(s);
    let p = crate::ranking::count_before(keys, entry_key(e), descending) as int;
    let placed = place(s, e, descending);
    let t = capped(placed, cap);
    let found = p < s.len() && entry_key(s[p]) == entry_key(e);
    assert forall|x: OrderbookEntry| #[trigger] t.contains(x) implies (x == e || s.contains(x)) && (entry_key(x) == entry_key(e)
        ==> x == e) by {
        let i = choose|i: int| 0 <= i < t.len() && t[i] == x;
        assert(placed[i] == x);
        if i != p {
            if found {
                assert(placed[i] == s[i]);
            } else if i < p {
                assert(placed[i] == s[i]);
            } else {
                assert(placed[i] == s[i - 1]);
            }
            assert(entry_keys(placed)[i] == entry_key(x));
            assert(entry_keys(placed)[p] == entry_key(e));
            if i < p {
                lemma_in_order_asymmetric(entry_keys(placed)[i], entry_keys(placed)[p], descending);
            } else {
                lemma_in_order_asymmetric(entry_keys(placed)[p], entry_keys(placed)[i], descending);
            }
        }
    }
}

/// What offering the pairs `levels` of `exchange` in turn does to a side,
/// whatever the spread does: every level of the side after it either was
/// there before or is the entry of `exchange` with the price and the
/// amount of one of the pairs; and a level at the price of a pair is the
/// entry of the last pair of that price, with that pair's amount.
proof fn lemma_offered_pairs(
    s: Seq<OrderbookEntry>,
    t: Seq<OrderbookEntry>,
    cap: nat,
    exchange: String,
    levels: Seq<(Decimal, Decimal)>,
    descending: bool,
)
    requires
        strictly_ordered(entry_keys(s), descending),
        s.len() <= cap,
        t == offered_pairs(s, cap, exchange, levels, descending),
    ensures
        strictly_ordered(entry_keys(t), descending),
        t.len() <= cap,
        forall|x: OrderbookEntry|
            #[trigger] t.contains(x) ==> s.contains(x) || exists|i: int|
                0 <= i < levels.len() && x == (OrderbookEntry { exchange, price: levels[i].0, amount: levels[i].1 }),
        forall|x: OrderbookEntry, i: int|
            #[trigger] t.contains(x) && 0 <= i < levels.len() && entry_key(x) == price_key(#[trigger] levels[i].0@) && (
            forall|j: int| i < j < levels.len() ==> price_key(#[trigger] levels[j].0@) != price_key(levels[i].0@))
                ==> x == (OrderbookEntry { exchange, price: levels[i].0, amount: levels[i].1 }),
    decreases levels.len(),
{
    if levels.len() > 0 {
        let rest = levels.drop_last();
        let n = levels.len() - 1;
        let prev = offered_pairs(s, cap, exchange, rest, descending);
        lemma_offered_pairs(s, prev, cap, exchange, rest, descending);
        let e = OrderbookEntry { exchange, price: levels[n].0, amount: levels[n].1 };
        assert(level_of(exchange, levels.last()) == e);
        lemma_offer_step(prev, e, cap, descending);
        assert forall|x: OrderbookEntry| #[trigger] t.contains(x) implies s.contains(x) || exists|i: int|
            0 <= i < levels.len() && x == (OrderbookEntry { exchange, price: levels[i].0, amount: levels[i].1 }) by {
            if x != e {
                assert(prev.contains(x));
                if !s.contains(x) {
                    let i = choose|i: int|
                        0 <= i < rest.len() && x == (OrderbookEntry { exchange, price: rest[i].0, amount: rest[i].1 });
                    assert(rest[i] == levels[i]);
                }
            }
        }
        assert forall|x: OrderbookEntry, i: int|
            #[trigger] t.contains(x) && 0 <= i < levels.len() && entry_key(x) == price_key(#[trigger] levels[i].0@) && (
            forall|j: int| i < j < levels.len() ==> price_key(#[trigger] levels[j].0@) != price_key(levels[i].0@))
            implies x == (OrderbookEntry { exchange, price: levels[i].0, amount: levels[i].1 }) by {
            if i < n {
                assert(price_key(levels[n].0@) != price_key(levels[i].0@));
                assert(entry_key(e) == price_key(levels[n].0@));
                assert(prev.contains(x));
                assert(rest[i] == levels[i]);
                assert forall|j: int| i < j < rest.len() implies price_key(#[trigger] rest[j].0@) != price_key(rest[i].0@) by {
                    assert(rest[j] == levels[j]);
                }
            }
        }
    }
}

/// The side after each of `levels` of `exchange` was offered in turn,
/// the spread aside.
pub open spec fn offered_pairs(
    s: Seq<OrderbookEntry>,
    cap: nat,
    exchange: String,
    levels: Seq<(Decimal, Decimal)>,
    descending: bool,
) -> Seq<OrderbookEntry>
    decreases levels.len(),
{
    if levels.len() == 0 {
        s
    } else {
        capped(place(offered_pairs(s, cap, exchange, levels.drop_last(), descending), level_of(exchange, levels.last()), descending), cap)
    }
}

/// Where the asks fold succeeds it is the side after offering every pair.
proof fn lemma_apply_asks_offered(
    asks: Seq<OrderbookEntry>,
    bids: Seq<OrderbookEntry>,
    cap: nat,
    exchange: String,
    levels: Seq<(Decimal, Decimal)>,
)
    requires
        apply_asks(asks, bids, cap, exchange, levels) is Some,
    ensures
        apply_asks(asks, bids, cap, exchange, levels) == Some(offered_pairs(asks, cap, exchange, levels, false)),
    decreases levels.len(),
{
    if levels.len() > 0 {
        lemma_apply_asks_offered(asks, bids, cap, exchange, levels.drop_last());
    }
}

/// Where the bids fold succeeds it is the side after offering every pair.
proof fn lemma_apply_bids_offered(
    bids: Seq<OrderbookEntry>,
    asks: Seq<OrderbookEntry>,
    cap: nat,
    exchange: String,
    levels: Seq<(Decimal, Decimal)>,
)
    requires
        apply_bids(bids, asks, cap, exchange, levels) is Some,
    ensures
        apply_bids(bids, asks, cap, exchange, levels) == Some(offered_pairs(bids, cap, exchange, levels, true)),
    decreases levels.len(),
{
    if levels.len() > 0 {
        lemma_apply_bids_offered(bids, asks, cap, exchange, levels.drop_last());
    }
}

/// Folding a published side into the served asks: every ask after it
/// was an ask before or is the entry of the publishing exchange with the
/// price and the amount of one of the published pairs; an ask at the price
/// of a published pair carries the amount of the last pair of that price.
pub proof fn lemma_folded_asks(
    asks: Seq<OrderbookEntry>,
    bids: Seq<OrderbookEntry>,
    cap: nat,
    exchange: String,
    levels: Seq<(Decimal, Decimal)>,
)
    requires
        strictly_ordered(entry_keys(asks), false),
        asks.len() <= cap,
        apply_asks(asks, bids, cap, exchange, levels) is Some,
    ensures
        ({
            let t = apply_asks(asks, bids, cap, exchange, levels)->0;
            &&& forall|x: OrderbookEntry|
                #[trigger] t.contains(x) ==> asks.contains(x) || exists|i: int|
                    0 <= i < levels.len() && x == (OrderbookEntry { exchange, price: levels[i].0, amount: levels[i].1 })
            &&& forall|x: OrderbookEntry, i: int|
                #[trigger] t.contains(x) && 0 <= i < levels.len() && entry_key(x) == price_key(#[trigger] levels[i].0@) && (
                forall|j: int| i < j < levels.len() ==> price_key(#[trigger] levels[j].0@) != price_key(levels[i].0@))
                    ==> x == (OrderbookEntry { exchange, price: levels[i].0, amount: levels[i].1 })
        }),
{
    lemma_apply_asks_offered(asks, bids, cap, exchange, levels);
    lemma_offered_pairs(asks, offered_pairs(asks, cap, exchange, levels, false), cap, exchange, levels, false);
}

/// Folding a published side into the served bids: every bid after it
/// was a bid before or is the entry of the publishing exchange with the
/// price and the amount of one of the published pairs; a bid at the price
/// of a published pair carries the amount of the last pair of that price.
pub proof fn lemma_folded_bids(
    bids: Seq<OrderbookEntry>,
    asks: Seq<OrderbookEntry>,
    cap: nat,
    exchange: String,
    levels: Seq<(Decimal, Decimal)>,
)
    requires
        strictly_ordered(entry_keys(bids), true),
        bids.len() <= cap,
        apply_bids(bids, asks, cap, exchange, levels) is Some,
    ensures
        ({
            let t = apply_bids(bids, asks, cap, exchange, levels)->0;
            &&& forall|x: OrderbookEntry|
                #[trigger] t.contains(x) ==> bids.contains(x) || exists|i: int|
                    0 <= i < levels.len() && x == (OrderbookEntry { exchange, price: levels[i].0, amount: levels[i].1 })
            &&& forall|x: OrderbookEntry, i: int|
                #[trigger] t.contains(x) && 0 <= i < levels.len() && entry_key(x) == price_key(#[trigger] levels[i].0@) && (
                forall|j: int| i < j < levels.len() ==> price_key(#[trigger] levels[j].0@) != price_key(levels[i].0@))
                    ==> x == (OrderbookEntry { exchange, price: levels[i].0, amount: levels[i].1 })
        }),
{
    lemma_apply_bids_offered(bids, asks, cap, exchange, levels);
    lemma_offered_pairs(bids, offered_pairs(bids, cap, exchange, levels, true), cap, exchange, levels, true);
}

/// Once one level of a published book overflows the spread, so does the
/// whole book.
proof fn lemma_apply_asks_fails_on(
    asks: Seq<OrderbookEntry>,
    bids: Seq<OrderbookEntry>,
    cap: nat,
    exchange: String,
    levels: Seq<(Decimal, Decimal)>,
    n: int,
)
    requires
        0 <= n <= levels.len(),
        apply_asks(asks, bids, cap, exchange, levels.take(n)) is None,
    ensures
        apply_asks(asks, bids, cap, exchange, levels) is None,
    decreases levels.len() - n,
{
    if n < levels.len() {
        assert(levels.take(n + 1).drop_last() =~= levels.take(n));
        lemma_apply_asks_fails_on(asks, bids, cap, exchange, levels, n + 1);
    } else {
        assert(levels.take(n) =~= levels);
    }
}

proof fn lemma_apply_bids_fails_on(
    bids: Seq<OrderbookEntry>,
    asks: Seq<OrderbookEntry>,
    cap: nat,
    exchange: String,
    levels: Seq<(Decimal, Decimal)>,
    n: int,
)
    requires
        0 <= n <= levels.len(),
        apply_bids(bids, asks, cap, exchange, levels.take(n)) is None,
    ensures
        apply_bids(bids, asks, cap, exchange, levels) is None,
    decreases levels.len() - n,
{
    if n < levels.len() {
        assert(levels.take(n + 1).drop_last() =~= levels.take(n));
        lemma_apply_bids_fails_on(bids, asks, cap, exchange, levels, n + 1);
    } else {
        assert(levels.take(n) =~= levels);
    }
}

/// Keeps the served book up to date with the books that exchanges publish.
pub struct OrderbookSubscriber {
    orderbook: Orderbook,
}

impl OrderbookSubscriber {
    pub closed spec fn book(&self) -> Orderbook {
        self.orderbook
    }

    pub open spec fn wf(&self) -> bool {
        self.book().wf()
    }

    /// A subscriber with an empty book of depth `BOOK_DEPTH`.
    pub fn new() -> (r: OrderbookSubscriber)
        ensures
            r.wf(),
            r.book().asks_view() == Seq::<OrderbookEntry>::empty(),
            r.book().bids_view() == Seq::<OrderbookEntry>::empty(),
            r.book().capacity() == BOOK_DEPTH,
            r.book().spread_view() == (0int, 0nat),
    {
        OrderbookSubscriber { orderbook: Orderbook::new(BOOK_DEPTH) }
    }

    pub fn orderbook(&self) -> (r: &Orderbook)
        ensures
            *r == self.book(),
    {
        &self.orderbook
    }

    /// Offers every ask and then every bid of a published book to the
    /// served book, each as a level of the publishing exchange, and returns
    /// what clients are then sent. Where the spread after one of these
    /// levels overflows there is no such book: the result is `None`, the
    /// book left valid but otherwise unspecified.
    #[verifier::spinoff_prover]
    pub fn consume(&mut self, item: &OrderbookQueueItem) -> (r: Option<Summary>)
        requires
            old(self).wf(),
        ensures
            final(self).wf(),
            final(self).book().capacity() == old(self).book().capacity(),
            ({
                let asks = apply_asks(
                    old(self).book().asks_view(),
                    old(self).book().bids_view(),
                    old(self).book().capacity(),
                    item.stream,
                    item.asks@,
                );
                let bids = match asks {
                    Some(a) => apply_bids(
                        old(self).book().bids_view(),
                        a,
                        old(self).book().capacity(),
                        item.stream,
                        item.bids@,
                    ),
                    None => None,
                };
                &&& r is Some <==> bids is Some
                &&& r is Some ==> {
                    &&& final(self).book().asks_view() == asks->0
                    &&& final(self).book().bids_view() == bids->0
                }
            }),
            r matches Some(summary) ==> {
                &&& Some(final(self).book().spread_view()) == spread_model(
                    final(self).book().bids_view(),
                    final(self).book().asks_view(),
                )
                &&& spread_is_exact(
                    final(self).book().spread_view(),
                    final(self).book().bids_view(),
                    final(self).book().asks_view(),
                )
                &&& summary.spread@ == final(self).book().spread_view()
                &&& summary.asks@ == final(self).book().asks_view()
                &&& summary.bids@ == final(self).book().bids_view()
            },
            r matches Some(summary) ==> forall|x: OrderbookEntry|
                #[trigger] summary.asks@.contains(x) ==> old(self).book().asks_view().contains(x) || exists|i: int|
                    0 <= i < item.asks@.len() && x == (OrderbookEntry {
                        exchange: item.stream,
                        price: item.asks@[i].0,
                        amount: item.asks@[i].1,
                    }),
            r matches Some(summary) ==> forall|x: OrderbookEntry, i: int|
                #[trigger] summary.asks@.contains(x) && 0 <= i < item.asks@.len() && entry_key(x) == price_key(
                    #[trigger] item.asks@[i].0@,
                ) && (forall|j: int|
                    i < j < item.asks@.len() ==> price_key(#[trigger] item.asks@[j].0@) != price_key(item.asks@[i].0@))
                    ==> x == (OrderbookEntry { exchange: item.stream, price: item.asks@[i].0, amount: item.asks@[i].1 }),
            r matches Some(summary) ==> forall|x: OrderbookEntry|
                #[trigger] summary.bids@.contains(x) ==> old(self).book().bids_view().contains(x) || exists|i: int|
                    0 <= i < item.bids@.len() && x == (OrderbookEntry {
                        exchange: item.stream,
                        price: item.bids@[i].0,
                        amount: item.bids@[i].1,
                    }),
            r matches Some(summary) ==> forall|x: OrderbookEntry, i: int|
                #[trigger] summary.bids@.contains(x) && 0 <= i < item.bids@.len() && entry_key(x) == price_key(
                    #[trigger] item.bids@[i].0@,
                ) && (forall|j: int|
                    i < j < item.bids@.len() ==> price_key(#[trigger] item.bids@[j].0@) != price_key(item.bids@[i].0@))
                    ==> x == (OrderbookEntry { exchange: item.stream, price: item.bids@[i].0, amount: item.bids@[i].1 }),
    {
        let ghost asks0 = self.orderbook.asks_view();
        let ghost bids0 = self.orderbook.bids_view();
        let ghost cap = self.orderbook.capacity();
        let n = item.asks.len();
        for i in 0..n
            invariant
                n == item.asks.len(),
                asks0 == old(self).book().asks_view(),
                bids0 == old(self).book().bids_view(),
                cap == old(self).book().capacity(),
                self.orderbook.wf(),
                self.orderbook.capacity() == cap,
                self.orderbook.bids_view() == bids0,
                apply_asks(asks0, bids0, cap, item.stream, item.asks@.take(i as int)) == Some(
                    self.orderbook.asks_view(),
                ),
        {
            let (price, amount) = item.asks[i];
            let entry = OrderbookEntry { exchange: item.stream.clone(), price, amount };
            assert(item.asks@.take(i + 1).drop_last() =~= item.asks@.take(i as int));
            assert(entry == level_of(item.stream, item.asks@.take(i + 1).last()));
            if self.orderbook.try_update_asks(entry).is_none() {
                proof {
                    lemma_apply_asks_fails_on(asks0, bids0, cap, item.stream, item.asks@, i + 1);
                }
                return None;
            }
        }
        assert(item.asks@.take(n as int) =~= item.asks@);
        let ghost asks1 = self.orderbook.asks_view();
        let m = item.bids.len();
        for i in 0..m
            invariant
                m == item.bids.len(),
                asks0 == old(self).book().asks_view(),
                bids0 == old(self).book().bids_view(),
                cap == old(self).book().capacity(),
                apply_asks(asks0, bids0, cap, item.stream, item.asks@) == Some(asks1),
                self.orderbook.wf(),
                self.orderbook.capacity() == cap,
                self.orderbook.asks_view() == asks1,
                apply_bids(bids0, asks1, cap, item.stream, item.bids@.take(i as int)) == Some(
                    self.orderbook.bids_view(),
                ),
        {
            let (price, amount) = item.bids[i];
            let entry = OrderbookEntry { exchange: item.stream.clone(), price, amount };
            assert(item.bids@.take(i + 1).drop_last() =~= item.bids@.take(i as int));
            assert(entry == level_of(item.stream, item.bids@.take(i + 1).last()));
            if self.orderbook.try_update_bids(entry).is_none() {
                proof {
                    lemma_apply_bids_fails_on(bids0, asks1, cap, item.stream, item.bids@, i + 1);
                }
                return None;
            }
        }
        assert(item.bids@.take(m as int) =~= item.bids@);
        proof {
            self.orderbook.lemma_invariant();
            old(self).book().lemma_invariant();
            lemma_folded_asks(asks0, bids0, cap, item.stream, item.asks@);
            lemma_folded_bids(bids0, asks1, cap, item.stream, item.bids@);
        }
        let summary = self.orderbook.summary();
        proof {
            assert(summary.asks@ == apply_asks(asks0, bids0, cap, item.stream, item.asks@)->0);
            assert(summary.bids@ == apply_bids(bids0, asks1, cap, item.stream, item.bids@)->0);
        }
        Some(summary)
    }
}

} // verus!
