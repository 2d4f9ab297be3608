use std::collections::BTreeMap;

use orderbook::common::{Orderbook, OrderbookQueueItem, OrderbookUpdate};
use orderbook::decimal::Decimal;
use orderbook::levels::PriceLevels;

type Rd = rust_decimal::Decimal;

fn dec(d: Rd) -> Decimal {
    Decimal::from_parts(d.mantissa(), d.scale()).unwrap()
}

fn rd(d: &Decimal) -> Rd {
    Rd::from_i128_with_scale(d.mantissa(), d.scale())
}

fn levels(m: &BTreeMap<Rd, Rd>) -> PriceLevels {
    let mut l = PriceLevels::new();
    for (p, a) in m.iter() {
        l.insert(dec(*p), dec(*a));
    }
    l
}

fn is_sorted<T, F>(data: &[T], f: F) -> bool
where
    T: Ord,
    F: Fn(&T, &T) -> bool,
{
    data.windows(2).all(|a| f(&a[0], &a[1]))
}

fn create_asks_bids() -> (BTreeMap<Rd, Rd>, BTreeMap<Rd, Rd>) {
    let mut bids: BTreeMap<Rd, Rd> = BTreeMap::new();
    bids.insert(Rd::from(5), Rd::from(10));
    bids.insert(Rd::from(1), Rd::from(12));
    bids.insert(Rd::from(2), Rd::from(1));

    let mut asks: BTreeMap<Rd, Rd> = BTreeMap::new();
    asks.insert(Rd::from(7), Rd::from(12));
    asks.insert(Rd::from(1), Rd::from(1));
    asks.insert(Rd::from(3), Rd::from(1));

    (asks, bids)
}

fn pairs(v: &Vec<(Decimal, Decimal)>) -> Vec<(Rd, Rd)> {
    v.iter().map(|(p, a)| (rd(p), rd(a))).collect()
}

#[test]
fn orderbook_update() {
    let mut orderbook = Orderbook::new("binance");

    let (mut asks, mut bids) = create_asks_bids();

    orderbook.update_book(&OrderbookUpdate {
        stream: "binance".to_owned(),
        asks: levels(&asks),
        bids: levels(&bids),
    });

    assert_eq!(orderbook.bids().len(), 3);
    assert_eq!(orderbook.asks().len(), 3);

    asks.clear();
    asks.insert(Rd::from(7), Rd::from(0));

    bids.clear();
    bids.insert(Rd::from(5), Rd::from(8));
    bids.insert(Rd::from(1), Rd::from(0));
    bids.insert(Rd::from(88), Rd::from(1));

    orderbook.update_book(&OrderbookUpdate {
        stream: "binance".to_owned(),
        asks: levels(&asks),
        bids: levels(&bids),
    });

    assert_eq!(orderbook.bids().len(), 3);
    assert_eq!(orderbook.bids().get(&dec(Rd::from(5))).unwrap(), dec(Rd::from(8)));
    assert_eq!(orderbook.asks().len(), 2);
}

#[test]
fn orderbook_to_queue_item() {
    let mut orderbook = Orderbook::new("binance");
    let (asks, bids) = create_asks_bids();

    orderbook.update_book(&OrderbookUpdate {
        stream: "binance".to_owned(),
        asks: levels(&asks),
        bids: levels(&bids),
    });

    let ob_queue_item: OrderbookQueueItem = orderbook.to_queue_item();

    assert_eq!(ob_queue_item.asks.len(), 3);
    assert_eq!(ob_queue_item.bids.len(), 3);
    assert!(is_sorted(&pairs(&ob_queue_item.asks), |a, b| a < b));
    assert!(is_sorted(&pairs(&ob_queue_item.bids), |a, b| a > b));
}

#[test]
fn queue_item_lists_levels_in_price_order() {
    let mut orderbook = Orderbook::new("bitstamp");
    let (asks, bids) = create_asks_bids();
    orderbook.update_book(&OrderbookUpdate { stream: "bitstamp".to_owned(), asks: levels(&asks), bids: levels(&bids) });
    let item = orderbook.to_queue_item();
    assert_eq!(item.stream, "bitstamp");
    assert_eq!(
        pairs(&item.asks),
        vec![(Rd::from(1), Rd::from(1)), (Rd::from(3), Rd::from(1)), (Rd::from(7), Rd::from(12))]
    );
    assert_eq!(
        pairs(&item.bids),
        vec![(Rd::from(5), Rd::from(10)), (Rd::from(2), Rd::from(1)), (Rd::from(1), Rd::from(12))]
    );
}

#[test]
fn same_update_twice_changes_nothing() {
    let (asks, bids) = create_asks_bids();
    let update = OrderbookUpdate { stream: "binance".to_owned(), asks: levels(&asks), bids: levels(&bids) };
    let mut once = Orderbook::new("binance");
    once.update_book(&update);
    let mut twice = Orderbook::new("binance");
    twice.update_book(&update);
    twice.update_book(&update);
    assert_eq!(pairs(&once.to_queue_item().asks), pairs(&twice.to_queue_item().asks));
    assert_eq!(pairs(&once.to_queue_item().bids), pairs(&twice.to_queue_item().bids));
}

#[test]
fn empty_update_keeps_book() {
    let (asks, bids) = create_asks_bids();
    let mut book = Orderbook::new("binance");
    book.update_book(&OrderbookUpdate { stream: "binance".to_owned(), asks: levels(&asks), bids: levels(&bids) });
    let before = book.to_queue_item();
    book.update_book(&OrderbookUpdate { stream: "binance".to_owned(), asks: PriceLevels::new(), bids: PriceLevels::new() });
    let after = book.to_queue_item();
    assert_eq!(pairs(&before.asks), pairs(&after.asks));
    assert_eq!(pairs(&before.bids), pairs(&after.bids));
}

#[test]
fn zero_amount_for_new_price_leaves_no_level() {
    let mut book = Orderbook::new("binance");
    let mut asks = BTreeMap::new();
    asks.insert(Rd::from(4), Rd::from(0));
    book.update_book(&OrderbookUpdate { stream: "binance".to_owned(), asks: levels(&asks), bids: PriceLevels::new() });
    assert_eq!(book.asks().len(), 0);
    assert_eq!(book.bids().len(), 0);
}

#[test]
fn level_keeps_price_as_first_given() {
    let mut book = Orderbook::new("binance");
    let mut first = PriceLevels::new();
    first.insert(Decimal::from_parts(10, 1).unwrap(), Decimal::from_parts(2, 0).unwrap());
    book.update_book(&OrderbookUpdate { stream: "binance".to_owned(), asks: first, bids: PriceLevels::new() });
    let mut second = PriceLevels::new();
    second.insert(Decimal::from_parts(100, 2).unwrap(), Decimal::from_parts(3, 0).unwrap());
    book.update_book(&OrderbookUpdate { stream: "binance".to_owned(), asks: second, bids: PriceLevels::new() });
    let item = book.to_queue_item();
    assert_eq!(item.asks.len(), 1);
    assert_eq!(item.asks[0].0.mantissa(), 10);
    assert_eq!(item.asks[0].0.scale(), 1);
    assert_eq!(item.asks[0].1.mantissa(), 3);
}

#[test]
fn later_pair_of_equal_price_sets_amount() {
    let pairs_in = vec![
        (Decimal::from_parts(5, 0).unwrap(), Decimal::from_parts(1, 0).unwrap()),
        (Decimal::from_parts(50, 1).unwrap(), Decimal::from_parts(7, 0).unwrap()),
        (Decimal::from_parts(2, 0).unwrap(), Decimal::from_parts(1, 0).unwrap()),
    ];
    let l = PriceLevels::from_pairs(&pairs_in);
    assert_eq!(l.len(), 2);
    assert_eq!(l.get(&Decimal::from_parts(5, 0).unwrap()).unwrap(), Decimal::from_parts(7, 0).unwrap());
    assert!(l.get(&Decimal::from_parts(3, 0).unwrap()).is_none());
}

#[test]
fn new_book_is_empty_and_named() {
    let book = Orderbook::new("kraken");
    assert_eq!(book.stream(), "kraken");
    assert_eq!(book.asks().len(), 0);
    assert_eq!(book.bids().len(), 0);
}
