use orderbook::common::OrderbookQueueItem;
use orderbook::decimal::Decimal;
use orderbook::server::queue::OrderbookSubscriber;
use orderbook::server::types::{Orderbook, OrderbookEntry};

type Rd = rust_decimal::Decimal;

fn dec(d: Rd) -> Decimal {
    Decimal::from_parts(d.mantissa(), d.scale()).unwrap()
}

fn rd(d: &Decimal) -> Rd {
    Rd::from_i128_with_scale(d.mantissa(), d.scale())
}

fn f(x: f64) -> Decimal {
    dec(Rd::from_f64_retain(x).unwrap())
}

fn entry(exchange: &str, amount: f64, price: f64) -> OrderbookEntry {
    OrderbookEntry { exchange: exchange.to_string(), amount: f(amount), price: f(price) }
}

#[test]
fn check_updates() {
    let mut orderbook = Orderbook::new(3);
    orderbook.update_asks(OrderbookEntry {
        exchange: "bitstamp".to_string(),
        amount: dec(Rd::from_f64_retain(0.568).unwrap()),
        price: dec(Rd::from_f64_retain(24000.0).unwrap()),
    });

    orderbook.update_asks(OrderbookEntry {
        exchange: "binance".to_string(),
        amount: dec(Rd::from_f64_retain(0.028).unwrap()),
        price: dec(Rd::from_f64_retain(23000.0).unwrap()),
    });

    orderbook.update_asks(OrderbookEntry {
        exchange: "binance".to_string(),
        amount: dec(Rd::from_f64_retain(0.008).unwrap()),
        price: dec(Rd::from_f64_retain(22000.0).unwrap()),
    });

    orderbook.update_asks(OrderbookEntry {
        exchange: "kraken".to_string(),
        amount: dec(Rd::from_f64_retain(0.108).unwrap()),
        price: dec(Rd::from_f64_retain(23000.0).unwrap()),
    });

    orderbook.update_asks(OrderbookEntry {
        exchange: "binance".to_string(),
        amount: dec(Rd::from_f64_retain(0.28).unwrap()),
        price: dec(Rd::from_f64_retain(21000.0).unwrap()),
    });

    orderbook.update_asks(OrderbookEntry {
        exchange: "kraken".to_string(),
        amount: dec(Rd::from_f64_retain(0.108).unwrap()),
        price: dec(Rd::from_f64_retain(29000.0).unwrap()),
    });

    assert_eq!(orderbook.asks().len(), 3);
    assert_eq!(orderbook.asks()[0].amount, dec(Rd::from_f64_retain(0.28).unwrap()));
    assert_eq!(orderbook.asks().last().unwrap().amount, dec(Rd::from_f64_retain(0.108).unwrap()));
    assert_eq!(orderbook.spread(), dec(Rd::from_f64_retain(21000.0).unwrap()));

    orderbook.update_bids(OrderbookEntry {
        exchange: "kraken".to_string(),
        amount: dec(Rd::from_f64_retain(0.18).unwrap()),
        price: dec(Rd::from_f64_retain(20500.0).unwrap()),
    });

    orderbook.update_bids(OrderbookEntry {
        exchange: "kraken".to_string(),
        amount: dec(Rd::from_f64_retain(0.8).unwrap()),
        price: dec(Rd::from_f64_retain(20000.0).unwrap()),
    });

    orderbook.update_bids(OrderbookEntry {
        exchange: "kraken".to_string(),
        amount: dec(Rd::from_f64_retain(0.44).unwrap()),
        price: dec(Rd::from_f64_retain(18000.0).unwrap()),
    });

    orderbook.update_bids(OrderbookEntry {
        exchange: "kraken".to_string(),
        amount: dec(Rd::from_f64_retain(0.208).unwrap()),
        price: dec(Rd::from_f64_retain(20000.0).unwrap()),
    });

    assert_eq!(orderbook.bids().len(), 3);
    assert_eq!(orderbook.bids()[0].amount, dec(Rd::from_f64_retain(0.18).unwrap()));
    assert_eq!(orderbook.bids().last().unwrap().amount, dec(Rd::from_f64_retain(0.44).unwrap()));

    assert_eq!(orderbook.spread(), dec(Rd::from_f64_retain(500.0).unwrap()));
}

#[test]
fn update_results_say_whether_price_was_there() {
    let mut book = Orderbook::new(5);
    assert_eq!(book.update_asks(entry("a", 1.0, 10.0)), false);
    assert_eq!(book.update_asks(entry("b", 2.0, 10.0)), true);
    assert_eq!(book.update_bids(entry("a", 1.0, 9.0)), true);
    assert_eq!(book.update_bids(entry("b", 2.0, 9.0)), false);
    assert_eq!(book.asks().len(), 1);
    assert_eq!(book.asks()[0].exchange, "b");
    assert_eq!(book.bids()[0].exchange, "b");
    assert_eq!(rd(&book.spread()), Rd::from(1));
}

#[test]
fn empty_book_has_zero_spread() {
    let book = Orderbook::new(2);
    assert_eq!(book.max_cap(), 2);
    assert!(book.spread().is_zero());
    assert_eq!(book.asks().len(), 0);
}

#[test]
fn only_bids_give_best_bid_as_spread() {
    let mut book = Orderbook::new(2);
    book.update_bids(entry("a", 1.0, 7.0));
    book.update_bids(entry("a", 1.0, 8.0));
    assert_eq!(rd(&book.spread()), Rd::from(8));
}

#[test]
fn zero_capacity_keeps_nothing() {
    let mut book = Orderbook::new(0);
    assert_eq!(book.update_asks(entry("a", 1.0, 10.0)), false);
    assert_eq!(book.asks().len(), 0);
    assert!(book.spread().is_zero());
}

#[test]
fn overflowing_spread_refuses_update() {
    let mut book = Orderbook::new(2);
    let big = Decimal::from_parts(70_000_000_000_000_000_000_000_000_000, 0).unwrap();
    let low = Decimal::from_parts(-70_000_000_000_000_000_000_000_000_000, 0).unwrap();
    assert_eq!(
        book.try_update_bids(OrderbookEntry { exchange: "x".to_string(), price: low, amount: big }),
        Some(true)
    );
    let r = book.try_update_asks(OrderbookEntry { exchange: "x".to_string(), price: big, amount: big });
    assert_eq!(r, None);
    assert_eq!(book.asks().len(), 0);
    assert_eq!(book.spread(), low);
    let ok = book.try_update_asks(OrderbookEntry { exchange: "x".to_string(), price: f(1.0), amount: big });
    assert_eq!(ok, Some(false));
}

#[test]
fn entries_compare_by_price() {
    let a = entry("a", 1.0, 10.0);
    let b = OrderbookEntry { exchange: "b".to_string(), amount: f(3.0), price: Decimal::from_parts(1000, 2).unwrap() };
    assert!(a == b);
    assert!(entry("a", 1.0, 9.0) < a);
    assert!(entry("a", 1.0, 11.0) > a);
}

#[test]
fn subscriber_folds_published_book() {
    let mut sub = OrderbookSubscriber::new();
    let item = OrderbookQueueItem {
        stream: "binance".to_string(),
        asks: vec![(f(101.0), f(1.0)), (f(102.0), f(2.0))],
        bids: vec![(f(99.0), f(3.0)), (f(98.0), f(4.0))],
    };
    let summary = sub.consume(&item).unwrap();
    assert_eq!(summary.asks.len(), 2);
    assert_eq!(summary.bids.len(), 2);
    assert_eq!(summary.asks[0].exchange, "binance");
    assert_eq!(rd(&summary.asks[0].price), Rd::from(101));
    assert_eq!(rd(&summary.bids[0].price), Rd::from(99));
    assert_eq!(rd(&summary.spread), Rd::from(2));
    assert_eq!(sub.orderbook().max_cap(), 10);
}

#[test]
fn subscriber_reports_overflowing_book() {
    let mut sub = OrderbookSubscriber::new();
    let big = Decimal::from_parts(70_000_000_000_000_000_000_000_000_000, 0).unwrap();
    let low = Decimal::from_parts(-70_000_000_000_000_000_000_000_000_000, 0).unwrap();
    let first = OrderbookQueueItem { stream: "a".to_string(), asks: vec![(big, f(1.0))], bids: vec![] };
    assert!(sub.consume(&first).is_some());
    let second = OrderbookQueueItem { stream: "b".to_string(), asks: vec![], bids: vec![(low, f(1.0))] };
    assert!(sub.consume(&second).is_none());
}

#[test]
fn served_side_keeps_best_prices() {
    let mut book = Orderbook::new(3);
    for (i, p) in [50.0, 10.0, 40.0, 30.0, 20.0, 60.0, 10.0].iter().enumerate() {
        book.update_asks(entry(&format!("x{}", i), 1.0, *p));
        book.update_bids(entry(&format!("y{}", i), 1.0, *p - 100.0));
    }
    let asks: Vec<Rd> = book.asks().iter().map(|e| rd(&e.price)).collect();
    assert_eq!(asks, vec![Rd::from(10), Rd::from(20), Rd::from(30)]);
    assert_eq!(book.asks()[0].exchange, "x6");
    let bids: Vec<Rd> = book.bids().iter().map(|e| rd(&e.price)).collect();
    assert_eq!(bids, vec![Rd::from(-40), Rd::from(-50), Rd::from(-60)]);
    assert_eq!(rd(&book.spread()), Rd::from(50));
}
