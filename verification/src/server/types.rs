//! The book served to clients: the best `max_cap` ask levels (lowest
//! prices first) and bid levels (highest prices first) over all
//! exchanges, one level per price, and the spread between the best ask
//! and the best bid.
use vstd::prelude::*;
use sorted_vec::SortedSet;
use std::cmp::Reverse;
use crate::decimal::{Decimal, price_key, difference, key_lt, difference_fits, exact_difference, same_value};
use vstd::std_specs::cmp::{PartialEqSpecImpl, PartialOrdSpecImpl};
use std::cmp::Ordering;
use crate::sorted::{
    ascending_keys, descending_keys, in_order, strictly_ordered, ascending_with_capacity,
    ascending_replace, ascending_pop, ascending_len, descending_with_capacity, descending_replace,
    descending_pop, descending_len,
};
use crate::server::best::{offered_side, holds_best_offers, lemma_side_keeps_best_offers};
use crate::ranking::{
    count_before, lemma_count_before_split, lemma_found_position, lemma_insert_position,
    lemma_drop_last_ordered, lemma_in_order_asymmetric, lemma_in_order_transitive, lemma_in_order_total,
};

verus! {

/// One price level as one exchange quotes it.
#[derive(Clone, Debug)]
pub struct OrderbookEntry {
    pub exchange: String,
    pub price: Decimal,
    pub amount: Decimal,
}

impl OrderbookEntry {
    /// A copy of this level.
    pub fn duplicate(&self) -> (r: OrderbookEntry)
        ensures
            r == *self,
    {
        OrderbookEntry { exchange: self.exchange.clone(), price: self.price, amount: self.amount }
    }
}

/// Levels are equal where their prices are.
impl PartialEq for OrderbookEntry {
    fn eq(&self, other: &OrderbookEntry) -> (r: bool) {
        let a = self.price.key();
        let b = other.price.key();
        a.0 == b.0 && a.1 == b.1
    }
}

impl PartialEqSpecImpl for OrderbookEntry {
    open spec fn obeys_eq_spec() -> bool {
        true
    }

    open spec fn eq_spec(&self, other: &OrderbookEntry) -> bool {
        entry_key(*self) == entry_key(*other)
    }
}

/// Levels are ordered as their prices are.
impl PartialOrd for OrderbookEntry {
    fn partial_cmp(&self, other: &OrderbookEntry) -> (r: Option<Ordering>) {
        let a = self.price.key();
        let b = other.price.key();
        if a.0 < b.0 || (a.0 == b.0 && a.1 < b.1) {
            Some(Ordering::Less)
        } else if a.0 == b.0 && a.1 == b.1 {
            Some(Ordering::Equal)
        } else {
            Some(Ordering::Greater)
        }
    }
}

impl PartialOrdSpecImpl for OrderbookEntry {
    open spec fn obeys_partial_cmp_spec() -> bool {
        true
    }

    open spec fn partial_cmp_spec(&self, other: &OrderbookEntry) -> Option<Ordering> {
        if key_lt(entry_key(*self), entry_key(*other)) {
            Some(Ordering::Less)
        } else if entry_key(*self) == entry_key(*other) {
            Some(Ordering::Equal)
        } else {
            Some(Ordering::Greater)
        }
    }
}

/// The key by which a level is ordered: that of its price.
pub open spec fn entry_key(e: OrderbookEntry) -> (i128, u128) {
    price_key(e.price@)
}

pub open spec fn entry_keys(s: Seq<OrderbookEntry>) -> Seq<(i128, u128)> {
    s.map_values(|e: OrderbookEntry| entry_key(e))
}

/// The levels `s` with `e` put in its place: over the level of the same
/// price, or inserted where the order puts it.
pub open spec fn place(s: Seq<OrderbookEntry>, e: OrderbookEntry, descending: bool) -> Seq<OrderbookEntry> {
    let p = count_before(entry_keys(s), entry_key(e), descending) as int;
    if p < s.len() && entry_key(s[p]) == entry_key(e) {
        s.update(p, e)
    } else {
        s.insert(p, e)
    }
}

/// The levels `s` without the worst one where there are more than `cap`.
pub open spec fn capped(s: Seq<OrderbookEntry>, cap: nat) -> Seq<OrderbookEntry> {
    if s.len() > cap {
        s.drop_last()
    } else {
        s
    }
}

/// The price of the best level, if any.
pub open spec fn best(s: Seq<OrderbookEntry>) -> Option<(int, nat)> {
    if s.len() == 0 {
        None
    } else {
        Some(s[0].price@)
    }
}

/// The spread for a best bid and a best ask: their difference where both
/// exist, the one price where only one does, zero where neither does;
/// `None` where the difference overflows.
pub open spec fn spread_of(best_bid: Option<(int, nat)>, best_ask: Option<(int, nat)>) -> Option<(int, nat)> {
    match (best_bid, best_ask) {
        (None, None) => Some((0int, 0nat)),
        (None, Some(a)) => Some(a),
        (Some(b), None) => Some(b),
        (Some(b), Some(a)) => difference(a, b),
    }
}

pub open spec fn spread_model(bids: Seq<OrderbookEntry>, asks: Seq<OrderbookEntry>) -> Option<(int, nat)> {
    spread_of(best(bids), best(asks))
}

/// Whether the spread for these best prices exists: it does where the
/// exact difference fits a mantissa, and wherever `rust_decimal` gives one.
pub open spec fn spread_fits(best_bid: Option<(int, nat)>, best_ask: Option<(int, nat)>) -> bool {
    ||| spread_of(best_bid, best_ask) is Some
    ||| (match (best_bid, best_ask) {
        (Some(b), Some(a)) => difference_fits(a, b),
        _ => false,
    })
}

/// The exact spread, best ask minus best bid, where both exist and it fits
/// a mantissa.
pub open spec fn exact_spread(bids: Seq<OrderbookEntry>, asks: Seq<OrderbookEntry>) -> Option<(int, nat)> {
    match (best(bids), best(asks)) {
        (Some(b), Some(a)) => if difference_fits(a, b) {
            Some(exact_difference(a, b))
        } else {
            None
        },
        _ => None,
    }
}

/// The spread `spread` has the value of the exact spread wherever that
/// fits.
pub open spec fn spread_is_exact(spread: (int, nat), bids: Seq<OrderbookEntry>, asks: Seq<OrderbookEntry>) -> bool {
    exact_spread(bids, asks) matches Some(x) ==> same_value(spread, x)
}

/// The asks after `update_asks(e)`.
pub open spec fn asks_after(asks: Seq<OrderbookEntry>, e: OrderbookEntry, cap: nat) -> Seq<OrderbookEntry> {
    capped(place(asks, e, false), cap)
}

/// The bids after `update_bids(e)`.
pub open spec fn bids_after(bids: Seq<OrderbookEntry>, e: OrderbookEntry, cap: nat) -> Seq<OrderbookEntry> {
    capped(place(bids, e, true), cap)
}

pub open spec fn decimal_option_view(o: Option<Decimal>) -> Option<(int, nat)> {
    match o {
        Some(d) => Some(d@),
        None => None,
    }
}

/// The levels a client is sent: the spread and the best levels of each
/// side, best first.
pub struct Summary {
    pub spread: Decimal,
    pub asks: Vec<OrderbookEntry>,
    pub bids: Vec<OrderbookEntry>,
}

/// The best levels of each side, at most `max_cap` each.
pub struct Orderbook {
    spread: Decimal,
    asks: SortedSet<(i128, u128)>,
    ask_levels: Vec<OrderbookEntry>,
    bids: SortedSet<Reverse<(i128, u128)>>,
    bid_levels: Vec<OrderbookEntry>,
    max_cap: usize,
    ask_offers: Ghost<Seq<OrderbookEntry>>,
    bid_offers: Ghost<Seq<OrderbookEntry>>,
}

fn key_in_order(a: (i128, u128), b: (i128, u128), descending: bool) -> (r: bool)
    ensures
        r == in_order(a, b, descending),
{
    if descending {
        b.0 < a.0 || (b.0 == a.0 && b.1 < a.1)
    } else {
        a.0 < b.0 || (a.0 == b.0 && a.1 < b.1)
    }
}

/// Whether a spread exists for these best prices (their difference does
/// not overflow).
fn spread_exists(best_bid: &Option<Decimal>, best_ask: &Option<Decimal>) -> (r: bool)
    ensures
        r == spread_of(decimal_option_view(*best_bid), decimal_option_view(*best_ask)) is Some,
        r == spread_fits(decimal_option_view(*best_bid), decimal_option_view(*best_ask)),
{
    match (best_bid, best_ask) {
        (Some(b), Some(a)) => a.checked_sub(b).is_some(),
        _ => true,
    }
}

fn copy_levels(levels: &Vec<OrderbookEntry>) -> (r: Vec<OrderbookEntry>)
    ensures
        r@ == levels@,
{
    let mut r: Vec<OrderbookEntry> = Vec::new();
    let n = levels.len();
    for i in 0..n
        invariant
            n == levels.len(),
            r@ == levels@.take(i as int),
    {
        r.push(levels[i].duplicate());
        assert(levels@.take(i + 1) =~= levels@.take(i as int).push(levels@[i as int]));
    }
    assert(levels@.take(n as int) =~= levels@);
    r
}

proof fn lemma_entry_keys_index(s: Seq<OrderbookEntry>, i: int)
    requires
        0 <= i < s.len(),
    ensures
        entry_keys(s)[i] == entry_key(s[i]),
        entry_keys(s).len() == s.len(),
{
}

/// Where a level lands after `place`, and which level is then best.
proof fn lemma_best_after(s: Seq<OrderbookEntry>, e: OrderbookEntry, cap: nat, descending: bool)
    requires
        strictly_ordered(entry_keys(s), descending),
        s.len() <= cap,
    ensures
        best(capped(place(s, e, descending), cap)) == if cap == 0 {
            None
        } else if s.len() == 0 || !in_order(entry_key(s[0]), entry_key(e), descending) {
            Some(e.price@)
        } else {
            Some(s[0].price@)
        },
{
    let keys = entry_keys(s);
    let k = entry_key(e);
    lemma_count_before_split(keys, k, descending);
    let p = count_before(keys, k, descending) as int;
    let t = place(s, e, descending);
    if s.len() > 0 {
        lemma_entry_keys_index(s, 0);
    }
    if s.len() > 0 && in_order(entry_key(s[0]), k, descending) {
        assert(p >= 1);
        assert(t[0] == s[0]);
        assert(t.len() >= 1);
    } else {
        assert(p == 0);
        assert(t[0] == e);
    }
}

/// The shape of `place(s, e)`: where `e` goes, what becomes of the other
/// levels, and that the side stays strictly ordered.
pub proof fn lemma_place_shape(s: Seq<OrderbookEntry>, e: OrderbookEntry, descending: bool)
    requires
        strictly_ordered(entry_keys(s), descending),
    ensures
        ({
            let keys = entry_keys(s);
            let k = entry_key(e);
            let p = count_before(keys, k, descending) as int;
            let t = place(s, e, descending);
            let found = p < s.len() && entry_key(s[p]) == k;
            &&& 0 <= p <= s.len()
            &&& found <==> keys.contains(k)
            &&& t[p] == e
            &&& forall|i: int| 0 <= i < p ==> in_order(#[trigger] keys[i], k, descending)
            &&& forall|i: int| p <= i < s.len() && keys[i] != k ==> in_order(k, #[trigger] keys[i], descending)
            &&& found ==> t.len() == s.len() && forall|i: int| 0 <= i < s.len() && i != p ==> #[trigger] t[i] == s[i]
            &&& !found ==> {
                &&& t.len() == s.len() + 1
                &&& forall|i: int| 0 <= i < p ==> #[trigger] t[i] == s[i]
                &&& forall|i: int| p < i < t.len() ==> #[trigger] t[i] == s[i - 1]
            }
            &&& strictly_ordered(entry_keys(t), descending)
        }),
{
    let keys = entry_keys(s);
    let k = entry_key(e);
    lemma_count_before_split(keys, k, descending);
    let p = count_before(keys, k, descending) as int;
    let placed = place(s, e, descending);
    assert forall|i: int| p <= i < s.len() && keys[i] != k implies in_order(k, #[trigger] keys[i], descending) by {
        lemma_total_after(keys, k, i, descending);
    }
    if p < s.len() && entry_key(s[p]) == k {
        lemma_entry_keys_index(s, p);
        assert(entry_keys(placed) =~= keys);
        assert(keys[p] == k);
    } else {
        assert forall|i: int| 0 <= i < s.len() implies keys[i] != k by {
            lemma_entry_keys_index(s, i);
            if i < p {
                lemma_in_order_asymmetric(keys[i], k, descending);
            } else if i > p {
                assert(!in_order(keys[i], k, descending));
                assert(in_order(keys[p], keys[i], descending));
                if keys[i] == k {
                    assert(!in_order(keys[p], k, descending));
                }
            }
        }
        if p < s.len() {
            lemma_entry_keys_index(s, p);
        }
        assert(entry_keys(placed) =~= keys.insert(p, k));
        assert forall|i: int, j: int| 0 <= i < j < entry_keys(placed).len() implies in_order(
            #[trigger] entry_keys(placed)[i],
            #[trigger] entry_keys(placed)[j],
            descending,
        ) by {
            let ks = entry_keys(placed);
            if j < p {
                assert(ks[i] == keys[i] && ks[j] == keys[j]);
            } else if j == p {
                assert(ks[i] == keys[i]);
            } else if i < p {
                assert(ks[i] == keys[i] && ks[j] == keys[j - 1]);
                lemma_total_after(keys, k, j - 1, descending);
                lemma_in_order_transitive(ks[i], k, ks[j], descending);
            } else if i == p {
                lemma_total_after(keys, k, j - 1, descending);
            } else {
                assert(ks[i] == keys[i - 1] && ks[j] == keys[j - 1]);
            }
        }
    }
}

/// A level offered to a side holding at most `cap` levels takes the
/// place its price ranks at, over any level of the same price, unless it
/// ranks below all `cap` kept levels; the side stays strictly ordered and
/// within `cap` levels.
pub proof fn lemma_offered_level_kept(s: Seq<OrderbookEntry>, e: OrderbookEntry, cap: nat, descending: bool)
    requires
        strictly_ordered(entry_keys(s), descending),
        s.len() <= cap,
    ensures
        ({
            let t = capped(place(s, e, descending), cap);
            let p = count_before(entry_keys(s), entry_key(e), descending) as int;
            &&& p < cap ==> t[p] == e
            &&& t.len() <= cap
            &&& strictly_ordered(entry_keys(t), descending)
        }),
{
    lemma_place_shape(s, e, descending);
    let placed = place(s, e, descending);
    if placed.len() > cap {
        lemma_drop_last_ordered(entry_keys(placed), descending);
        assert(entry_keys(placed.drop_last()) =~= entry_keys(placed).drop_last());
    }
}

/// A key at or after the split point comes after `k`, where `k` is not
/// in the sequence.
proof fn lemma_total_after(keys: Seq<(i128, u128)>, k: (i128, u128), i: int, descending: bool)
    requires
        strictly_ordered(keys, descending),
        count_before(keys, k, descending) <= i < keys.len(),
        keys[i] != k,
    ensures
        in_order(k, keys[i], descending),
{
    lemma_count_before_split(keys, k, descending);
    lemma_in_order_total(keys[i], k, descending);
}

impl Orderbook {
    /// The ask levels, lowest price first.
    pub closed spec fn asks_view(&self) -> Seq<OrderbookEntry> {
        self.ask_levels@
    }

    /// The bid levels, highest price first.
    pub closed spec fn bids_view(&self) -> Seq<OrderbookEntry> {
        self.bid_levels@
    }

    pub closed spec fn spread_view(&self) -> (int, nat) {
        self.spread@
    }

    /// The levels passed to `update_asks` so far, in turn.
    pub closed spec fn ask_offers_view(&self) -> Seq<OrderbookEntry> {
        self.ask_offers@
    }

    /// The levels passed to `update_bids` so far, in turn.
    pub closed spec fn bid_offers_view(&self) -> Seq<OrderbookEntry> {
        self.bid_offers@
    }

    /// The number of levels each side keeps at most.
    pub closed spec fn capacity(&self) -> nat {
        self.max_cap as nat
    }

    /// The book's invariant: each side strictly ordered by price and no
    /// longer than the capacity, the sorted sets holding exactly the keys
    /// of the levels, and the spread that of the best levels.
    pub closed spec fn wf(&self) -> bool {
        &&& ascending_keys(self.asks) == entry_keys(self.ask_levels@)
        &&& descending_keys(self.bids) == entry_keys(self.bid_levels@)
        &&& strictly_ordered(entry_keys(self.ask_levels@), false)
        &&& strictly_ordered(entry_keys(self.bid_levels@), true)
        &&& self.ask_levels@.len() <= self.max_cap
        &&& self.bid_levels@.len() <= self.max_cap
        &&& spread_model(self.bid_levels@, self.ask_levels@) == Some(self.spread@)
        &&& spread_is_exact(self.spread@, self.bid_levels@, self.ask_levels@)
        &&& self.ask_levels@ == offered_side(self.ask_offers@, self.max_cap as nat, false)
        &&& self.bid_levels@ == offered_side(self.bid_offers@, self.max_cap as nat, true)
    }

    /// What every operation keeps of a book: asks strictly ascending and
    /// bids strictly descending by price (one level per price), at most
    /// `capacity` levels on each side, and the spread equal to the best ask
    /// minus the best bid (or the one best price, or zero): exactly that
    /// difference wherever it fits a mantissa.
    pub proof fn lemma_invariant(&self)
        requires
            self.wf(),
        ensures
            strictly_ordered(entry_keys(self.asks_view()), false),
            strictly_ordered(entry_keys(self.bids_view()), true),
            self.asks_view().len() <= self.capacity(),
            self.bids_view().len() <= self.capacity(),
            spread_model(self.bids_view(), self.asks_view()) == Some(self.spread_view()),
            spread_is_exact(self.spread_view(), self.bids_view(), self.asks_view()),
    {
    }

    /// A book made by `new(cap)` and then changed only by `update_asks` and
    /// `update_bids` holds, as asks, the `cap` lowest distinct prices ever
    /// passed to `update_asks` (all of them where there are fewer), each
    /// with the level of its latest `update_asks`, in strictly ascending
    /// order; and, as bids, likewise the `cap` highest prices passed to
    /// `update_bids`, in strictly descending order.
    pub proof fn lemma_holds_best_offers(&self)
        requires
            self.wf(),
        ensures
            holds_best_offers(self.asks_view(), self.ask_offers_view(), self.capacity(), false),
            holds_best_offers(self.bids_view(), self.bid_offers_view(), self.capacity(), true),
    {
        lemma_side_keeps_best_offers(self.ask_offers@, self.max_cap as nat, false);
        lemma_side_keeps_best_offers(self.bid_offers@, self.max_cap as nat, true);
    }

    /// An empty book keeping at most `capacity` levels per side.
    pub fn new(capacity: usize) -> (r: Orderbook)
        ensures
            r.wf(),
            r.asks_view() == Seq::<OrderbookEntry>::empty(),
            r.bids_view() == Seq::<OrderbookEntry>::empty(),
            r.capacity() == capacity,
            r.spread_view() == (0int, 0nat),
            r.ask_offers_view() == Seq::<OrderbookEntry>::empty(),
            r.bid_offers_view() == Seq::<OrderbookEntry>::empty(),
    {
        let r = Orderbook {
            spread: Decimal::zero(),
            asks: ascending_with_capacity(capacity),
            ask_levels: Vec::new(),
            bids: descending_with_capacity(capacity),
            bid_levels: Vec::new(),
            max_cap: capacity,
            ask_offers: Ghost(Seq::empty()),
            bid_offers: Ghost(Seq::empty()),
        };
        assert(entry_keys(r.ask_levels@) =~= Seq::<(i128, u128)>::empty());
        assert(entry_keys(r.bid_levels@) =~= Seq::<(i128, u128)>::empty());
        r
    }

    pub fn spread(&self) -> (r: Decimal)
        ensures
            r@ == self.spread_view(),
    {
        self.spread
    }

    pub fn asks(&self) -> (r: &Vec<OrderbookEntry>)
        ensures
            r@ == self.asks_view(),
    {
        &self.ask_levels
    }

    pub fn bids(&self) -> (r: &Vec<OrderbookEntry>)
        ensures
            r@ == self.bids_view(),
    {
        &self.bid_levels
    }

    pub fn max_cap(&self) -> (r: usize)
        ensures
            r == self.capacity(),
    {
        self.max_cap
    }

    /// Sets the spread from the best levels.
    fn calculate_spread(&mut self)
        requires
            spread_fits(best(old(self).bid_levels@), best(old(self).ask_levels@)),
        ensures
            spread_model(old(self).bid_levels@, old(self).ask_levels@) == Some(final(self).spread@),
            spread_is_exact(final(self).spread@, old(self).bid_levels@, old(self).ask_levels@),
            final(self).asks == old(self).asks,
            final(self).bids == old(self).bids,
            final(self).ask_levels == old(self).ask_levels,
            final(self).bid_levels == old(self).bid_levels,
            final(self).max_cap == old(self).max_cap,
            final(self).ask_offers == old(self).ask_offers,
            final(self).bid_offers == old(self).bid_offers,
    {
        let spread = if self.bid_levels.len() == 0 && self.ask_levels.len() == 0 {
            Decimal::zero()
        } else if self.bid_levels.len() == 0 {
            self.ask_levels[0].price
        } else if self.ask_levels.len() == 0 {
            self.bid_levels[0].price
        } else {
            match self.ask_levels[0].price.checked_sub(&self.bid_levels[0].price) {
                Some(d) => d,
                None => Decimal::zero(),
            }
        };
        self.spread = spread;
    }

    /// Puts an ask level in place: it replaces the level of the same price
    /// or is inserted in ascending order, after which the highest ask leaves
    /// if there are more than `max_cap`; then the spread is recomputed.
    /// Returns whether a level of that price was there before. The new
    /// spread must not overflow (`try_update_asks` checks it first).
    pub fn update_asks(&mut self, entry: OrderbookEntry) -> (replaced: bool)
        requires
            old(self).wf(),
            spread_fits(
                best(old(self).bids_view()),
                best(asks_after(old(self).asks_view(), entry, old(self).capacity())),
            ),
        ensures
            final(self).wf(),
            final(self).asks_view() == asks_after(old(self).asks_view(), entry, old(self).capacity()),
            final(self).bids_view() == old(self).bids_view(),
            final(self).capacity() == old(self).capacity(),
            Some(final(self).spread_view()) == spread_model(final(self).bids_view(), final(self).asks_view()),
            spread_is_exact(final(self).spread_view(), final(self).bids_view(), final(self).asks_view()),
            final(self).ask_offers_view() == old(self).ask_offers_view().push(entry),
            final(self).bid_offers_view() == old(self).bid_offers_view(),
            replaced == entry_keys(old(self).asks_view()).contains(entry_key(entry)),
    {
        let ghost e = entry;
        let ghost old_levels = self.ask_levels@;
        let ghost old_keys = entry_keys(old_levels);
        let k = entry.price.key();
        let (idx, prev) = ascending_replace(&mut self.asks, k);
        let found = prev.is_some();
        if found {
            proof {
                lemma_found_position(old_keys, k, idx as int, false);
                lemma_entry_keys_index(old_levels, idx as int);
            }
            self.ask_levels.set(idx, entry);
            proof {
                assert(entry_keys(self.ask_levels@) =~= old_keys);
                assert(self.ask_levels@ =~= place(old_levels, e, false));
            }
        } else {
            proof {
                lemma_insert_position(old_keys, k, idx as int, false);
                if (idx as int) < old_levels.len() && entry_key(old_levels[idx as int]) == k {
                    lemma_entry_keys_index(old_levels, idx as int);
                    assert(old_keys.contains(k));
                }
            }
            self.ask_levels.insert(idx, entry);
            proof {
                assert(entry_keys(self.ask_levels@) =~= old_keys.insert(idx as int, k));
                assert(self.ask_levels@ =~= place(old_levels, e, false));
            }
        }
        if ascending_len(&self.asks) > self.max_cap {
            let _ = ascending_pop(&mut self.asks);
            let _ = self.ask_levels.pop();
            proof {
                lemma_drop_last_ordered(old_keys.insert(idx as int, k), false);
                assert(entry_keys(self.ask_levels@) =~= old_keys.insert(idx as int, k).drop_last());
            }
        }
        proof {
            assert(self.ask_offers@.push(e).drop_last() =~= self.ask_offers@);
        }
        self.ask_offers = Ghost(self.ask_offers@.push(e));
        self.calculate_spread();
        found
    }

    /// Puts a bid level in place: it replaces the level of the same price
    /// or is inserted in descending order, after which the lowest bid leaves
    /// if there are more than `max_cap`; then the spread is recomputed.
    /// Returns whether the price was new to the bids. The new spread must
    /// not overflow (`try_update_bids` checks it first).
    pub fn update_bids(&mut self, entry: OrderbookEntry) -> (inserted: bool)
        requires
            old(self).wf(),
            spread_fits(
                best(bids_after(old(self).bids_view(), entry, old(self).capacity())),
                best(old(self).asks_view()),
            ),
        ensures
            final(self).wf(),
            final(self).bids_view() == bids_after(old(self).bids_view(), entry, old(self).capacity()),
            final(self).asks_view() == old(self).asks_view(),
            final(self).capacity() == old(self).capacity(),
            Some(final(self).spread_view()) == spread_model(final(self).bids_view(), final(self).asks_view()),
            spread_is_exact(final(self).spread_view(), final(self).bids_view(), final(self).asks_view()),
            final(self).bid_offers_view() == old(self).bid_offers_view().push(entry),
            final(self).ask_offers_view() == old(self).ask_offers_view(),
            inserted == !entry_keys(old(self).bids_view()).contains(entry_key(entry)),
    {
        let ghost e = entry;
        let ghost old_levels = self.bid_levels@;
        let ghost old_keys = entry_keys(old_levels);
        let k = entry.price.key();
        let (idx, prev) = descending_replace(&mut self.bids, k);
        let found = prev.is_some();
        if found {
            proof {
                lemma_found_position(old_keys, k, idx as int, true);
                lemma_entry_keys_index(old_levels, idx as int);
            }
            self.bid_levels.set(idx, entry);
            proof {
                assert(entry_keys(self.bid_levels@) =~= old_keys);
                assert(self.bid_levels@ =~= place(old_levels, e, true));
            }
        } else {
            proof {
                lemma_insert_position(old_keys, k, idx as int, true);
                if (idx as int) < old_levels.len() && entry_key(old_levels[idx as int]) == k {
                    lemma_entry_keys_index(old_levels, idx as int);
                    assert(old_keys.contains(k));
                }
            }
            self.bid_levels.insert(idx, entry);
            proof {
                assert(entry_keys(self.bid_levels@) =~= old_keys.insert(idx as int, k));
                assert(self.bid_levels@ =~= place(old_levels, e, true));
            }
        }
        if descending_len(&self.bids) > self.max_cap {
            let _ = descending_pop(&mut self.bids);
            let _ = self.bid_levels.pop();
            proof {
                lemma_drop_last_ordered(old_keys.insert(idx as int, k), true);
                assert(entry_keys(self.bid_levels@) =~= old_keys.insert(idx as int, k).drop_last());
            }
        }
        proof {
            assert(self.bid_offers@.push(e).drop_last() =~= self.bid_offers@);
        }
        self.bid_offers = Ghost(self.bid_offers@.push(e));
        self.calculate_spread();
        !found
    }

    /// `update_asks` where its spread exists: `Some` of its result then,
    /// and `None`, with the book unchanged, where the spread after the
    /// update would overflow.
    pub fn try_update_asks(&mut self, entry: OrderbookEntry) -> (r: Option<bool>)
        requires
            old(self).wf(),
        ensures
            final(self).wf(),
            ({
                let after = asks_after(old(self).asks_view(), entry, old(self).capacity());
                let fits = spread_fits(best(old(self).bids_view()), best(after));
                &&& r is Some <==> fits
                &&& fits ==> {
                    &&& final(self).asks_view() == after
                    &&& final(self).bids_view() == old(self).bids_view()
                    &&& final(self).capacity() == old(self).capacity()
                    &&& Some(final(self).spread_view()) == spread_model(final(self).bids_view(), final(self).asks_view())
                    &&& spread_is_exact(final(self).spread_view(), final(self).bids_view(), final(self).asks_view())
                    &&& final(self).ask_offers_view() == old(self).ask_offers_view().push(entry)
                    &&& final(self).bid_offers_view() == old(self).bid_offers_view()
                    &&& r == Some(entry_keys(old(self).asks_view()).contains(entry_key(entry)))
                }
                &&& !fits ==> *final(self) == *old(self)
            }),
    {
        let k = entry.price.key();
        proof {
            lemma_best_after(self.ask_levels@, entry, self.max_cap as nat, false);
            if self.ask_levels@.len() > 0 {
                lemma_entry_keys_index(self.ask_levels@, 0);
            }
        }
        let best_ask: Option<Decimal> = if self.max_cap == 0 {
            None
        } else if self.ask_levels.len() == 0 || !key_in_order(self.ask_levels[0].price.key(), k, false) {
            Some(entry.price)
        } else {
            Some(self.ask_levels[0].price)
        };
        let best_bid: Option<Decimal> = if self.bid_levels.len() == 0 {
            None
        } else {
            Some(self.bid_levels[0].price)
        };
        if spread_exists(&best_bid, &best_ask) {
            Some(self.update_asks(entry))
        } else {
            None
        }
    }

    /// `update_bids` where its spread exists: `Some` of its result then,
    /// and `None`, with the book unchanged, where the spread after the
    /// update would overflow.
    pub fn try_update_bids(&mut self, entry: OrderbookEntry) -> (r: Option<bool>)
        requires
            old(self).wf(),
        ensures
            final(self).wf(),
            ({
                let after = bids_after(old(self).bids_view(), entry, old(self).capacity());
                let fits = spread_fits(best(after), best(old(self).asks_view()));
                &&& r is Some <==> fits
                &&& fits ==> {
                    &&& final(self).bids_view() == after
                    &&& final(self).asks_view() == old(self).asks_view()
                    &&& final(self).capacity() == old(self).capacity()
                    &&& Some(final(self).spread_view()) == spread_model(final(self).bids_view(), final(self).asks_view())
                    &&& spread_is_exact(final(self).spread_view(), final(self).bids_view(), final(self).asks_view())
                    &&& final(self).bid_offers_view() == old(self).bid_offers_view().push(entry)
                    &&& final(self).ask_offers_view() == old(self).ask_offers_view()
                    &&& r == Some(!entry_keys(old(self).bids_view()).contains(entry_key(entry)))
                }
                &&& !fits ==> *final(self) == *old(self)
            }),
    {
        let k = entry.price.key();
        proof {
            lemma_best_after(self.bid_levels@, entry, self.max_cap as nat, true);
            if self.bid_levels@.len() > 0 {
                lemma_entry_keys_index(self.bid_levels@, 0);
            }
        }
        let best_bid: Option<Decimal> = if self.max_cap == 0 {
            None
        } else if self.bid_levels.len() == 0 || !key_in_order(self.bid_levels[0].price.key(), k, true) {
            Some(entry.price)
        } else {
            Some(self.bid_levels[0].price)
        };
        let best_ask: Option<Decimal> = if self.ask_levels.len() == 0 {
            None
        } else {
            Some(self.ask_levels[0].price)
        };
        if spread_exists(&best_bid, &best_ask) {
            Some(self.update_bids(entry))
        } else {
            None
        }
    }

    /// The spread and a copy of both sides' levels, best first.
    pub fn summary(&self) -> (r: Summary)
        ensures
            r.spread@ == self.spread_view(),
            r.asks@ == self.asks_view(),
            r.bids@ == self.bids_view(),
    {
        Summary { spread: self.spread, asks: copy_levels(&self.ask_levels), bids: copy_levels(&self.bid_levels) }
    }
}

} // verus!
