//! Binance: the depth stream's subscription, the snapshot request, and
//! what becomes of each depth update and snapshot.
use vstd::prelude::*;
use crate::decimal::Decimal;
use crate::levels::{PriceLevels, pairs_levels, holds_pairs, lemma_pairs_levels_law};
use crate::common::OrderbookUpdate;
use crate::text::{join3, to_ascii_uppercase, upper_text};
use crate::market::services::{LastUpdate, StreamAction, StreamEvent, passes, next_last, rises_from};

verus! {

/// The request that subscribes to a market's depth updates.
#[derive(Debug)]
pub struct BinanceSubscription {
    pub method: String,
    pub params: Vec<String>,
    pub id: i32,
}

/// A snapshot of Binance's book for a market.
#[derive(Debug)]
pub struct BinanceOrderBookSnapshot {
    pub last_update_id: u64,
    pub asks: Vec<(Decimal, Decimal)>,
    pub bids: Vec<(Decimal, Decimal)>,
}

/// One depth update of Binance's book.
#[derive(Debug)]
pub struct BinanceOrderBookUpdate {
    pub asks: Vec<(Decimal, Decimal)>,
    pub bids: Vec<(Decimal, Decimal)>,
    pub first_update_id: u64,
    pub last_update_id: u64,
}

/// The update of the stream "binance" that sets the given levels.
pub open spec fn binance_update(r: OrderbookUpdate, asks: Seq<(Decimal, Decimal)>, bids: Seq<(Decimal, Decimal)>) -> bool {
    &&& r.wf()
    &&& r.stream@ == "binance"@
    &&& r.asks@ == pairs_levels(asks)
    &&& r.bids@ == pairs_levels(bids)
}

/// An update of the stream "binance" made from pairs holds a level at
/// exactly the prices of its pairs, each with the amount of the last pair
/// of that price, zero amounts (which remove a level) included.
pub proof fn lemma_binance_update_law(r: OrderbookUpdate, asks: Seq<(Decimal, Decimal)>, bids: Seq<(Decimal, Decimal)>)
    requires
        binance_update(r, asks, bids),
    ensures
        r.stream@ == "binance"@,
        holds_pairs(r.asks@, asks),
        holds_pairs(r.bids@, bids),
{
    lemma_pairs_levels_law(asks);
    lemma_pairs_levels_law(bids);
}

fn binance_levels(asks: &Vec<(Decimal, Decimal)>, bids: &Vec<(Decimal, Decimal)>) -> (r: OrderbookUpdate)
    ensures
        binance_update(r, asks@, bids@),
        holds_pairs(r.asks@, asks@),
        holds_pairs(r.bids@, bids@),
{
    OrderbookUpdate {
        stream: String::from_str("binance"),
        bids: PriceLevels::from_pairs(bids),
        asks: PriceLevels::from_pairs(asks),
    }
}

impl BinanceOrderBookSnapshot {
    /// The snapshot as an update of the stream "binance".
    pub fn to_update(&self) -> (r: OrderbookUpdate)
        ensures
            binance_update(r, self.asks@, self.bids@),
            (holds_pairs(r.asks@, self.asks@) && holds_pairs(r.bids@, self.bids@)),
    {
        binance_levels(&self.asks, &self.bids)
    }
}

/// The subscription to the depth updates of `market_pair`: method
/// `SUBSCRIBE`, the one stream `<pair>@depth`, id 1.
pub fn subscription(market_pair: &str) -> (r: BinanceSubscription)
    ensures
        r.method@ == "SUBSCRIBE"@,
        r.params@.len() == 1,
        r.params@[0]@ == market_pair@ + "@depth"@,
        r.id == 1,
{
    let mut params: Vec<String> = Vec::new();
    let mut stream = String::from_str(market_pair);
    stream.append("@depth");
    params.push(stream);
    BinanceSubscription { method: String::from_str("SUBSCRIBE"), params, id: 1 }
}

/// The address of the snapshot of the 50 best levels of `market_pair`,
/// whose symbol Binance wants in upper case.
pub fn snapshot_url(market_pair: &str) -> (r: String)
    ensures
        r@ == "https://api.binance.com/api/v3/depth?symbol="@ + upper_text(market_pair@) + "&limit=50"@,
{
    let symbol = to_ascii_uppercase(market_pair);
    join3("https://api.binance.com/api/v3/depth?symbol=", symbol.as_str(), "&limit=50")
}

/// What the depth stream does on an event other than an update: it
/// reports unreadable text, pings, pongs and failed reads, connects again
/// where the server closes or the stream ends, and skips anything else.
pub open spec fn binance_reaction(event: StreamEvent<BinanceOrderBookUpdate>) -> StreamAction {
    match event {
        StreamEvent::Update(_) => StreamAction::Skip,
        StreamEvent::Unreadable => StreamAction::Report,
        StreamEvent::Ping => StreamAction::Report,
        StreamEvent::Pong => StreamAction::Report,
        StreamEvent::Close => StreamAction::Reconnect,
        StreamEvent::Other => StreamAction::Skip,
        StreamEvent::Failed => StreamAction::Report,
        StreamEvent::Ended => StreamAction::Reconnect,
    }
}

/// The state of the depth stream of one market: its subscription and the
/// id of the last update let through.
pub struct BinanceStream {
    subscription: BinanceSubscription,
    last_update: LastUpdate,
}

impl BinanceStream {
    pub closed spec fn subscription_view(&self) -> BinanceSubscription {
        self.subscription
    }

    /// The subscription request of the stream.
    pub fn subscription(&self) -> (r: &BinanceSubscription)
        ensures
            *r == self.subscription_view(),
    {
        &self.subscription
    }

    pub closed spec fn last_update_view(&self) -> u64 {
        self.last_update.last_view()
    }

    /// The id of the last snapshot taken (zero before any).
    pub closed spec fn snapshot_view(&self) -> u64 {
        self.last_update.base_view()
    }

    /// The last ids of the updates let through since that snapshot, in turn.
    pub closed spec fn passed_view(&self) -> Seq<u64> {
        self.last_update.passed_view()
    }

    pub closed spec fn wf(&self) -> bool {
        self.last_update.wf()
    }

    /// Over any run of the stream, the last ids of the updates it lets
    /// through since the last snapshot rise strictly, all above that
    /// snapshot's id, and the id it holds is that of the last one (or the
    /// snapshot's).
    pub proof fn lemma_updates_rise(&self)
        requires
            self.wf(),
        ensures
            rises_from(self.snapshot_view(), self.passed_view()),
            self.last_update_view() >= self.snapshot_view(),
            self.passed_view().len() > 0 ==> self.last_update_view() == self.passed_view().last(),
    {
        self.last_update.lemma_passed_rise();
    }

    /// The stream of `market_pair`, nothing let through yet.
    pub fn new(market_pair: &str) -> (r: BinanceStream)
        ensures
            r.wf(),
            r.subscription_view().method@ == "SUBSCRIBE"@,
            r.subscription_view().params@.len() == 1,
            r.subscription_view().params@[0]@ == market_pair@ + "@depth"@,
            r.subscription_view().id == 1,
            r.last_update_view() == 0,
            r.snapshot_view() == 0,
            r.passed_view() == Seq::<u64>::empty(),
    {
        BinanceStream { subscription: subscription(market_pair), last_update: LastUpdate::new() }
    }

    pub fn last_update(&self) -> (r: u64)
        ensures
            r == self.last_update_view(),
    {
        self.last_update.last()
    }

    /// What becomes of a depth update: one whose last id is not newer than
    /// that of the last one let through is dropped; any other becomes the
    /// last one and an update of the stream "binance".
    pub fn accept_update(&mut self, order: &BinanceOrderBookUpdate) -> (r: Option<OrderbookUpdate>)
        requires
            old(self).wf(),
        ensures
            final(self).wf(),
            r is Some <==> passes(old(self).last_update_view(), order.last_update_id),
            final(self).last_update_view() == next_last(old(self).last_update_view(), order.last_update_id),
            final(self).snapshot_view() == old(self).snapshot_view(),
            final(self).passed_view() == if r is Some {
                old(self).passed_view().push(order.last_update_id)
            } else {
                old(self).passed_view()
            },
            final(self).subscription_view() == old(self).subscription_view(),
            r matches Some(u) ==> binance_update(u, order.asks@, order.bids@),
            r matches Some(u) ==> (holds_pairs(u.asks@, order.asks@) && holds_pairs(u.bids@, order.bids@)),
    {
        if self.last_update.accept(order.last_update_id) {
            Some(binance_levels(&order.asks, &order.bids))
        } else {
            None
        }
    }

    /// What becomes of a snapshot: its id becomes that of the last update,
    /// and it becomes an update of the stream "binance".
    pub fn accept_snapshot(&mut self, snapshot: &BinanceOrderBookSnapshot) -> (r: OrderbookUpdate)
        ensures
            final(self).wf(),
            final(self).last_update_view() == snapshot.last_update_id,
            final(self).snapshot_view() == snapshot.last_update_id,
            final(self).passed_view() == Seq::<u64>::empty(),
            final(self).subscription_view() == old(self).subscription_view(),
            binance_update(r, snapshot.asks@, snapshot.bids@),
            (holds_pairs(r.asks@, snapshot.asks@) && holds_pairs(r.bids@, snapshot.bids@)),
    {
        self.last_update.reset(snapshot.last_update_id);
        snapshot.to_update()
    }

    /// What the stream does on an event: an update is let through, and
    /// handed on, as `accept_update` decides, or skipped; any other event
    /// leaves the state as it is and is answered as `binance_reaction`
    /// says.
    pub fn on_event(&mut self, event: StreamEvent<BinanceOrderBookUpdate>) -> (r: StreamAction)
        requires
            old(self).wf(),
        ensures
            final(self).wf(),
            final(self).subscription_view() == old(self).subscription_view(),
            final(self).snapshot_view() == old(self).snapshot_view(),
            match event {
                StreamEvent::Update(order) => {
                    let id = order.last_update_id;
                    &&& r is Yield <==> passes(old(self).last_update_view(), id)
                    &&& !passes(old(self).last_update_view(), id) ==> r is Skip
                    &&& final(self).last_update_view() == next_last(old(self).last_update_view(), id)
                    &&& final(self).passed_view() == if r is Yield {
                        old(self).passed_view().push(id)
                    } else {
                        old(self).passed_view()
                    }
                    &&& r matches StreamAction::Yield(u) ==> binance_update(u, order.asks@, order.bids@)
                    &&& r matches StreamAction::Yield(u) ==> (holds_pairs(u.asks@, order.asks@) && holds_pairs(u.bids@, order.bids@))
                },
                _ => {
                    &&& *final(self) == *old(self)
                    &&& r == binance_reaction(event)
                },
            },
    {
        match event {
            StreamEvent::Update(order) => match self.accept_update(&order) {
                Some(u) => StreamAction::Yield(u),
                None => StreamAction::Skip,
            },
            StreamEvent::Unreadable => StreamAction::Report,
            StreamEvent::Ping => StreamAction::Report,
            StreamEvent::Pong => StreamAction::Report,
            StreamEvent::Close => StreamAction::Reconnect,
            StreamEvent::Other => StreamAction::Skip,
            StreamEvent::Failed => StreamAction::Report,
            StreamEvent::Ended => StreamAction::Reconnect,
        }
    }
}

} // verus!
