//! Bitstamp: the order book channel's subscription, the snapshot
//! request, and what becomes of each book update and snapshot.
use vstd::prelude::*;
use crate::decimal::Decimal;
use crate::levels::{PriceLevels, pairs_levels, holds_pairs, lemma_pairs_levels_law};
use crate::common::OrderbookUpdate;
use crate::text::{join3, to_ascii_lowercase, lower_text, parse_u64, parse_u64_spec};
use crate::market::services::{LastUpdate, StreamAction, StreamEvent, passes, next_last, rises_from};

verus! {

/// The request that subscribes to a market's book changes: an event and
/// its data, a map from names to values given as pairs.
#[derive(Debug)]
pub struct BitstampSubscription {
    pub event: String,
    pub data: Vec<(String, String)>,
}

/// The book changes of one update.
#[derive(Debug)]
pub struct BitstampOrderBookData {
    pub timestamp: String,
    pub microtimestamp: String,
    pub bids: Vec<(Decimal, Decimal)>,
    pub asks: Vec<(Decimal, Decimal)>,
}

/// One update of Bitstamp's book.
#[derive(Debug)]
pub struct BitstampOrderBookUpdate {
    pub data: BitstampOrderBookData,
}

/// A snapshot of Bitstamp's book for a market.
#[derive(Debug)]
pub struct BitstampOrderBookSnapshot {
    pub timestamp: String,
    pub microtimestamp: String,
    pub asks: Vec<(Decimal, Decimal)>,
    pub bids: Vec<(Decimal, Decimal)>,
}

/// The update of the stream "bitstamp" that sets the given levels.
pub open spec fn bitstamp_update(r: OrderbookUpdate, asks: Seq<(Decimal, Decimal)>, bids: Seq<(Decimal, Decimal)>) -> bool {
    &&& r.wf()
    &&& r.stream@ == "bitstamp"@
    &&& r.asks@ == pairs_levels(asks)
    &&& r.bids@ == pairs_levels(bids)
}

/// An update of the stream "bitstamp" made from pairs holds a level at
/// exactly the prices of its pairs, each with the amount of the last pair
/// of that price, zero amounts (which remove a level) included.
pub proof fn lemma_bitstamp_update_law(r: OrderbookUpdate, asks: Seq<(Decimal, Decimal)>, bids: Seq<(Decimal, Decimal)>)
    requires
        bitstamp_update(r, asks, bids),
    ensures
        r.stream@ == "bitstamp"@,
        holds_pairs(r.asks@, asks),
        holds_pairs(r.bids@, bids),
{
    lemma_pairs_levels_law(asks);
    lemma_pairs_levels_law(bids);
}

fn bitstamp_levels(asks: &Vec<(Decimal, Decimal)>, bids: &Vec<(Decimal, Decimal)>) -> (r: OrderbookUpdate)
    ensures
        bitstamp_update(r, asks@, bids@),
        holds_pairs(r.asks@, asks@),
        holds_pairs(r.bids@, bids@),
{
    OrderbookUpdate {
        stream: String::from_str("bitstamp"),
        bids: PriceLevels::from_pairs(bids),
        asks: PriceLevels::from_pairs(asks),
    }
}

impl BitstampOrderBookData {
    /// The update's timestamp as a number, where it is one.
    pub fn timestamp_value(&self) -> (r: Option<u64>)
        ensures
            r == parse_u64_spec(self.timestamp@),
    {
        parse_u64(self.timestamp.as_str())
    }
}

impl BitstampOrderBookSnapshot {
    /// The snapshot's timestamp as a number, where it is one.
    pub fn timestamp_value(&self) -> (r: Option<u64>)
        ensures
            r == parse_u64_spec(self.timestamp@),
    {
        parse_u64(self.timestamp.as_str())
    }

    /// The snapshot as an update of the stream "bitstamp".
    pub fn to_update(&self) -> (r: OrderbookUpdate)
        ensures
            bitstamp_update(r, self.asks@, self.bids@),
            (holds_pairs(r.asks@, self.asks@) && holds_pairs(r.bids@, self.bids@)),
    {
        bitstamp_levels(&self.asks, &self.bids)
    }
}

/// The subscription to the book changes of `market_pair`: event
/// `bts:subscribe`, channel `diff_order_book_<pair>`.
pub fn subscription(market_pair: &str) -> (r: BitstampSubscription)
    ensures
        r.event@ == "bts:subscribe"@,
        r.data@.len() == 1,
        r.data@[0].0@ == "channel"@,
        r.data@[0].1@ == "diff_order_book_"@ + market_pair@,
{
    let mut channel = String::from_str("diff_order_book_");
    channel.append(market_pair);
    let mut data: Vec<(String, String)> = Vec::new();
    data.push((String::from_str("channel"), channel));
    BitstampSubscription { event: String::from_str("bts:subscribe"), data }
}

/// The address of the snapshot of `market_pair`'s book, whose name
/// Bitstamp wants in lower case.
pub fn snapshot_url(market_pair: &str) -> (r: String)
    ensures
        r@ == "https://www.bitstamp.net/api/v2/order_book/"@ + lower_text(market_pair@),
{
    let pair = to_ascii_lowercase(market_pair);
    let mut url = String::from_str("https://www.bitstamp.net/api/v2/order_book/");
    url.append(pair.as_str());
    url
}

/// What the channel does on an event other than an update: it reports
/// unreadable text and failed reads, connects again where the server
/// closes or the stream ends, cannot handle a pong, and skips anything
/// else (pings among them).
pub open spec fn bitstamp_reaction(event: StreamEvent<BitstampOrderBookUpdate>) -> StreamAction {
    match event {
        StreamEvent::Update(_) => StreamAction::Skip,
        StreamEvent::Unreadable => StreamAction::Report,
        StreamEvent::Ping => StreamAction::Skip,
        StreamEvent::Pong => StreamAction::Abort,
        StreamEvent::Close => StreamAction::Reconnect,
        StreamEvent::Other => StreamAction::Skip,
        StreamEvent::Failed => StreamAction::Report,
        StreamEvent::Ended => StreamAction::Reconnect,
    }
}

/// The state of the order book channel of one market: its subscription
/// and the time of the last update let through.
pub struct BitstampStream {
    subscription: BitstampSubscription,
    start_time: LastUpdate,
}

impl BitstampStream {
    pub closed spec fn subscription_view(&self) -> BitstampSubscription {
        self.subscription
    }

    /// The subscription request of the stream.
    pub fn subscription(&self) -> (r: &BitstampSubscription)
        ensures
            *r == self.subscription_view(),
    {
        &self.subscription
    }

    pub closed spec fn start_time_view(&self) -> u64 {
        self.start_time.last_view()
    }

    /// The time of the last snapshot taken (zero before any).
    pub closed spec fn snapshot_time_view(&self) -> u64 {
        self.start_time.base_view()
    }

    /// The times of the updates let through since that snapshot, in turn.
    pub closed spec fn passed_view(&self) -> Seq<u64> {
        self.start_time.passed_view()
    }

    pub closed spec fn wf(&self) -> bool {
        self.start_time.wf()
    }

    /// Over any run of the channel, the times of the updates it lets
    /// through since the last snapshot rise strictly, all after that
    /// snapshot's time, and the time it holds is that of the last one (or
    /// the snapshot's).
    pub proof fn lemma_updates_rise(&self)
        requires
            self.wf(),
        ensures
            rises_from(self.snapshot_time_view(), self.passed_view()),
            self.start_time_view() >= self.snapshot_time_view(),
            self.passed_view().len() > 0 ==> self.start_time_view() == self.passed_view().last(),
    {
        self.start_time.lemma_passed_rise();
    }

    /// The channel of `market_pair`, nothing let through yet.
    pub fn new(market_pair: &str) -> (r: BitstampStream)
        ensures
            r.subscription_view().event@ == "bts:subscribe"@,
            r.subscription_view().data@.len() == 1,
            r.subscription_view().data@[0].0@ == "channel"@,
            r.subscription_view().data@[0].1@ == "diff_order_book_"@ + market_pair@,
            r.wf(),
            r.start_time_view() == 0,
            r.snapshot_time_view() == 0,
            r.passed_view() == Seq::<u64>::empty(),
    {
        BitstampStream { subscription: subscription(market_pair), start_time: LastUpdate::new() }
    }

    pub fn start_time(&self) -> (r: u64)
        ensures
            r == self.start_time_view(),
    {
        self.start_time.last()
    }

    /// What becomes of an update stamped `timestamp`: one not newer than
    /// the last one let through is dropped; any other becomes the last one
    /// and an update of the stream "bitstamp".
    pub fn accept_update(&mut self, timestamp: u64, order: &BitstampOrderBookUpdate) -> (r: Option<OrderbookUpdate>)
        requires
            old(self).wf(),
        ensures
            final(self).wf(),
            final(self).snapshot_time_view() == old(self).snapshot_time_view(),
            final(self).passed_view() == if r is Some {
                old(self).passed_view().push(timestamp)
            } else {
                old(self).passed_view()
            },
            r is Some <==> passes(old(self).start_time_view(), timestamp),
            final(self).start_time_view() == next_last(old(self).start_time_view(), timestamp),
            final(self).subscription_view() == old(self).subscription_view(),
            r matches Some(u) ==> bitstamp_update(u, order.data.asks@, order.data.bids@),
            r matches Some(u) ==> (holds_pairs(u.asks@, order.data.asks@) && holds_pairs(u.bids@, order.data.bids@)),
    {
        if self.start_time.accept(timestamp) {
            Some(bitstamp_levels(&order.data.asks, &order.data.bids))
        } else {
            None
        }
    }

    /// What becomes of a snapshot stamped `timestamp`: that time becomes
    /// the last one, and it becomes an update of the stream "bitstamp".
    pub fn accept_snapshot(&mut self, timestamp: u64, snapshot: &BitstampOrderBookSnapshot) -> (r: OrderbookUpdate)
        ensures
            final(self).wf(),
            final(self).snapshot_time_view() == timestamp,
            final(self).passed_view() == Seq::<u64>::empty(),
            final(self).start_time_view() == timestamp,
            final(self).subscription_view() == old(self).subscription_view(),
            bitstamp_update(r, snapshot.asks@, snapshot.bids@),
            (holds_pairs(r.asks@, snapshot.asks@) && holds_pairs(r.bids@, snapshot.bids@)),
    {
        self.start_time.reset(timestamp);
        snapshot.to_update()
    }

    /// What becomes of an update, stamped by its own timestamp: `None`
    /// where that timestamp is not a number; otherwise as `accept_update`
    /// with it.
    pub fn accept_stamped_update(&mut self, order: &BitstampOrderBookUpdate) -> (r: Option<Option<OrderbookUpdate>>)
        requires
            old(self).wf(),
        ensures
            final(self).wf(),
            final(self).snapshot_time_view() == old(self).snapshot_time_view(),
            r is None <==> parse_u64_spec(order.data.timestamp@) is None,
            r is None ==> *final(self) == *old(self),
            final(self).subscription_view() == old(self).subscription_view(),
            r matches Some(x) ==> {
                let ts = parse_u64_spec(order.data.timestamp@)->0;
                &&& x is Some <==> passes(old(self).start_time_view(), ts)
                &&& final(self).start_time_view() == next_last(old(self).start_time_view(), ts)
                &&& final(self).passed_view() == if x is Some {
                    old(self).passed_view().push(ts)
                } else {
                    old(self).passed_view()
                }
                &&& x matches Some(u) ==> bitstamp_update(u, order.data.asks@, order.data.bids@)
                &&& x matches Some(u) ==> (holds_pairs(u.asks@, order.data.asks@) && holds_pairs(u.bids@, order.data.bids@))
            },
    {
        match order.data.timestamp_value() {
            Some(ts) => Some(self.accept_update(ts, order)),
            None => None,
        }
    }

    /// What becomes of a snapshot, stamped by its own timestamp: `None`
    /// where that timestamp is not a number; otherwise as
    /// `accept_snapshot` with it.
    pub fn accept_stamped_snapshot(&mut self, snapshot: &BitstampOrderBookSnapshot) -> (r: Option<OrderbookUpdate>)
        requires
            old(self).wf(),
        ensures
            final(self).wf(),
            r is None <==> parse_u64_spec(snapshot.timestamp@) is None,
            r is None ==> *final(self) == *old(self),
            final(self).subscription_view() == old(self).subscription_view(),
            r matches Some(u) ==> {
                &&& final(self).start_time_view() == parse_u64_spec(snapshot.timestamp@)->0
                &&& final(self).snapshot_time_view() == parse_u64_spec(snapshot.timestamp@)->0
                &&& final(self).passed_view() == Seq::<u64>::empty()
                &&& bitstamp_update(u, snapshot.asks@, snapshot.bids@)
                &&& (holds_pairs(u.asks@, snapshot.asks@) && holds_pairs(u.bids@, snapshot.bids@))
            },
    {
        match snapshot.timestamp_value() {
            Some(ts) => Some(self.accept_snapshot(ts, snapshot)),
            None => None,
        }
    }

    /// What the channel does on an event: an update whose timestamp is
    /// not a number cannot be handled; any other is let through, and handed
    /// on, as `accept_update` decides with its timestamp, or skipped; any
    /// other event leaves the state as it is and is answered as
    /// `bitstamp_reaction` says.
    pub fn on_event(&mut self, event: StreamEvent<BitstampOrderBookUpdate>) -> (r: StreamAction)
        requires
            old(self).wf(),
        ensures
            final(self).wf(),
            final(self).subscription_view() == old(self).subscription_view(),
            final(self).snapshot_time_view() == old(self).snapshot_time_view(),
            match event {
                StreamEvent::Update(order) => match parse_u64_spec(order.data.timestamp@) {
                    None => {
                        &&& r is Abort
                        &&& *final(self) == *old(self)
                    },
                    Some(ts) => {
                        &&& r is Yield <==> passes(old(self).start_time_view(), ts)
                        &&& !passes(old(self).start_time_view(), ts) ==> r is Skip
                        &&& final(self).start_time_view() == next_last(old(self).start_time_view(), ts)
                        &&& final(self).passed_view() == if r is Yield {
                            old(self).passed_view().push(ts)
                        } else {
                            old(self).passed_view()
                        }
                        &&& r matches StreamAction::Yield(u) ==> bitstamp_update(u, order.data.asks@, order.data.bids@)
                        &&& r matches StreamAction::Yield(u) ==> (holds_pairs(u.asks@, order.data.asks@) && holds_pairs(u.bids@, order.data.bids@))
                    },
                },
                _ => {
                    &&& *final(self) == *old(self)
                    &&& r == bitstamp_reaction(event)
                },
            },
    {
        match event {
            StreamEvent::Update(order) => match self.accept_stamped_update(&order) {
                None => StreamAction::Abort,
                Some(Some(u)) => StreamAction::Yield(u),
                Some(None) => StreamAction::Skip,
            },
            StreamEvent::Unreadable => StreamAction::Report,
            StreamEvent::Ping => StreamAction::Skip,
            StreamEvent::Pong => StreamAction::Abort,
            StreamEvent::Close => StreamAction::Reconnect,
            StreamEvent::Other => StreamAction::Skip,
            StreamEvent::Failed => StreamAction::Report,
            StreamEvent::Ended => StreamAction::Reconnect,
        }
    }
}

} // verus!
