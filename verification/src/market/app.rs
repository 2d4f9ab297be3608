//! The aggregator: one book per exchange stream, each update applied to
//! the book of its stream and the book then published under the routing
//! key of that stream.
use vstd::prelude::*;
use crate::common::{Orderbook, OrderbookUpdate, OrderbookQueueItem, updated_side};
use crate::levels::{Level, lists_ascending};
use crate::market::services::OrderbookError;

verus! {

/// No two books share a stream.
pub open spec fn streams_distinct(books: Seq<Orderbook>) -> bool {
    forall|i: int, j: int|
        0 <= i < j < books.len() ==> (#[trigger] books[i]).stream_view() != (#[trigger] books[j]).stream_view()
}

/// Some book has the stream `s`.
pub open spec fn has_stream(books: Seq<Orderbook>, s: Seq<char>) -> bool {
    exists|i: int| 0 <= i < books.len() && (#[trigger] books[i]).stream_view() == s
}

/// The position of the book of stream `s`.
pub open spec fn stream_index(books: Seq<Orderbook>, s: Seq<char>) -> int {
    choose|i: int| 0 <= i < books.len() && (#[trigger] books[i]).stream_view() == s
}

/// The key under which the book of `stream` is published.
pub open spec fn routing_key_text(stream: Seq<char>) -> Seq<char> {
    "rate."@ + stream
}

/// `item` publishes `book`.
pub open spec fn publishes(item: OrderbookQueueItem, book: Orderbook) -> bool {
    &&& item.stream@ == book.stream_view()
    &&& lists_ascending(item.asks@, book.asks_view())
    &&& lists_ascending(item.bids@.reverse(), book.bids_view())
}

/// Once a stream is followed, it stays followed through every later
/// `add_client` and `handle_update`: its updates are then applied, not
/// dropped.
pub proof fn lemma_followed_stream_stays(before: Seq<Orderbook>, after: Seq<Orderbook>, s: Seq<char>)
    requires
        has_stream(before, s),
        before.len() <= after.len(),
        forall|i: int| 0 <= i < before.len() ==> (#[trigger] after[i]).stream_view() == before[i].stream_view(),
    ensures
        has_stream(after, s),
{
    let i = choose|i: int| 0 <= i < before.len() && (#[trigger] before[i]).stream_view() == s;
    assert(after[i].stream_view() == s);
}

/// The key under which the book of `stream` is published: `rate.<stream>`.
pub fn routing_key(stream: &String) -> (r: String)
    ensures
        r@ == routing_key_text(stream@),
{
    let mut key = String::from_str("rate.");
    key.append(stream.as_str());
    key
}

/// The books of the exchange streams the aggregator follows.
pub struct App {
    orderbooks: Vec<Orderbook>,
}

impl App {
    pub closed spec fn books(&self) -> Seq<Orderbook> {
        self.orderbooks@
    }

    /// One book per stream, each well formed.
    pub open spec fn wf(&self) -> bool {
        &&& streams_distinct(self.books())
        &&& forall|i: int| 0 <= i < self.books().len() ==> (#[trigger] self.books()[i]).wf()
    }

    /// An aggregator following no stream.
    pub fn new() -> (r: App)
        ensures
            r.wf(),
            r.books() == Seq::<Orderbook>::empty(),
    {
        App { orderbooks: Vec::new() }
    }

    /// The position of the book of `stream`, if the aggregator follows it.
    fn find_book(&self, stream: &String) -> (r: Option<usize>)
        requires
            self.wf(),
        ensures
            r is None <==> !has_stream(self.books(), stream@),
            r matches Some(i) ==> i < self.books().len() && self.books()[i as int].stream_view() == stream@
                && i == stream_index(self.books(), stream@),
    {
        let n = self.orderbooks.len();
        for i in 0..n
            invariant
                n == self.orderbooks.len(),
                self.wf(),
                forall|j: int| 0 <= j < i ==> (#[trigger] self.orderbooks@[j]).stream_view() != stream@,
        {
            if self.orderbooks[i].stream().eq(stream) {
                proof {
                    let k = stream_index(self.books(), stream@);
                    assert(0 <= k < n && self.books()[k].stream_view() == stream@);
                    if k != i {
                        if k < i {
                            assert(self.books()[k].stream_view() != self.books()[i as int].stream_view());
                        } else {
                            assert(self.books()[i as int].stream_view() != self.books()[k].stream_view());
                        }
                    }
                }
                return Some(i);
            }
        }
        None
    }

    /// Starts following `stream` with an empty book; a stream already
    /// followed is refused with "Client already present", the books then
    /// unchanged.
    pub fn add_client(&mut self, stream: &str) -> (r: Result<(), OrderbookError>)
        requires
            old(self).wf(),
        ensures
            final(self).wf(),
            r is Err <==> has_stream(old(self).books(), stream@),
            r matches Err(e) ==> e.details@ == "Client already present"@ && final(self).books() == old(self).books(),
            r is Ok ==> {
                &&& final(self).books().len() == old(self).books().len() + 1
                &&& final(self).books().drop_last() == old(self).books()
                &&& final(self).books().last().stream_view() == stream@
                &&& final(self).books().last().bids_view() == Map::<(i128, u128), Level>::empty()
                &&& final(self).books().last().asks_view() == Map::<(i128, u128), Level>::empty()
            },
    {
        let name = String::from_str(stream);
        match self.find_book(&name) {
            Some(_) => Err(OrderbookError::new("Client already present")),
            None => {
                self.orderbooks.push(Orderbook::new(stream));
                proof {
                    assert(self.books().drop_last() =~= old(self).books());
                }
                Ok(())
            },
        }
    }

    /// Applies an update to the book of its stream and returns the routing
    /// key and the item to publish; an update of a stream not followed is
    /// dropped.
    pub fn handle_update(&mut self, order_update: &OrderbookUpdate) -> (r: Option<(String, OrderbookQueueItem)>)
        requires
            old(self).wf(),
            order_update.wf(),
        ensures
            final(self).wf(),
            r is None <==> !has_stream(old(self).books(), order_update.stream@),
            r is None ==> final(self).books() == old(self).books(),
            r matches Some(published) ==> {
                let i = stream_index(old(self).books(), order_update.stream@);
                let before = old(self).books()[i];
                let after = final(self).books()[i];
                &&& final(self).books().len() == old(self).books().len()
                &&& forall|j: int| 0 <= j < old(self).books().len() && j != i ==> final(self).books()[j]
                    == old(self).books()[j]
                &&& after.stream_view() == before.stream_view()
                &&& after.bids_view() == updated_side(before.bids_view(), order_update.bids@)
                &&& after.asks_view() == updated_side(before.asks_view(), order_update.asks@)
                &&& published.0@ == routing_key_text(order_update.stream@)
                &&& publishes(published.1, after)
            },
    {
        match self.find_book(&order_update.stream) {
            None => None,
            Some(i) => {
                self.orderbooks[i].update_book(order_update);
                let item = self.orderbooks[i].to_queue_item();
                proof {
                    assert forall|a: int, b: int|
                        0 <= a < b < self.books().len() implies (#[trigger] self.books()[a]).stream_view()
                        != (#[trigger] self.books()[b]).stream_view() by {
                        assert(old(self).books()[a].stream_view() != old(self).books()[b].stream_view());
                    }
                }
                Some((routing_key(&order_update.stream), item))
            },
        }
    }
}

} // verus!
