use orderbook::common::OrderbookUpdate;
use orderbook::decimal::Decimal;
use orderbook::levels::PriceLevels;
use orderbook::market::app::{routing_key, App};
use orderbook::market::binance::{self, BinanceOrderBookSnapshot, BinanceOrderBookUpdate, BinanceStream};
use orderbook::market::bitstamp::{self, BitstampOrderBookData, BitstampOrderBookSnapshot, BitstampOrderBookUpdate, BitstampStream};
use orderbook::market::services::{OrderbookError, LastUpdate, StreamAction, StreamEvent};
use orderbook::text::{parse_u64, to_ascii_lowercase, to_ascii_uppercase};

fn d(m: i128) -> Decimal {
    Decimal::from_parts(m, 0).unwrap()
}

#[test]
fn only_newer_updates_pass() {
    let mut tracker = LastUpdate::new();
    assert_eq!(tracker.last(), 0);
    assert!(!tracker.accept(0));
    assert!(tracker.accept(5));
    assert!(!tracker.accept(5));
    assert!(!tracker.accept(3));
    assert!(tracker.accept(6));
    assert_eq!(tracker.last(), 6);
    tracker.reset(2);
    assert!(tracker.accept(3));
}

#[test]
fn binance_update_passes_once() {
    let mut stream = BinanceStream::new("btcusdt");
    let update = BinanceOrderBookUpdate {
        asks: vec![(d(10), d(1)), (d(11), d(2))],
        bids: vec![(d(9), d(3))],
        first_update_id: 1,
        last_update_id: 7,
    };
    let u = stream.accept_update(&update).unwrap();
    assert_eq!(u.stream, "binance");
    assert_eq!(u.asks.len(), 2);
    assert_eq!(u.bids.get(&d(9)).unwrap(), d(3));
    assert!(stream.accept_update(&update).is_none());
    assert_eq!(stream.last_update(), 7);
}

#[test]
fn binance_snapshot_restarts_sequence() {
    let mut stream = BinanceStream::new("btcusdt");
    let newer = BinanceOrderBookUpdate { asks: vec![], bids: vec![], first_update_id: 90, last_update_id: 100 };
    assert!(stream.accept_update(&newer).is_some());
    let snap = BinanceOrderBookSnapshot { last_update_id: 40, asks: vec![(d(5), d(1))], bids: vec![] };
    let u = stream.accept_snapshot(&snap);
    assert_eq!(stream.last_update(), 40);
    assert_eq!(u.asks.len(), 1);
    assert_eq!(u.bids.len(), 0);
}

#[test]
fn binance_requests() {
    let stream = BinanceStream::new("btcusdt");
    let sub = stream.subscription();
    assert_eq!(sub.method, "SUBSCRIBE");
    assert_eq!(sub.params, vec!["btcusdt@depth".to_string()]);
    assert_eq!(sub.id, 1);
    assert_eq!(binance::snapshot_url("btcusdt"), "https://api.binance.com/api/v3/depth?symbol=BTCUSDT&limit=50");
}

#[test]
fn bitstamp_requests() {
    let sub = bitstamp::subscription("btcusd");
    assert_eq!(sub.event, "bts:subscribe");
    assert_eq!(sub.data, vec![("channel".to_string(), "diff_order_book_btcusd".to_string())]);
    assert_eq!(bitstamp::snapshot_url("BTCUSD"), "https://www.bitstamp.net/api/v2/order_book/btcusd");
}

#[test]
fn bitstamp_update_by_timestamp() {
    let mut stream = BitstampStream::new("btcusd");
    assert_eq!(stream.subscription().event, "bts:subscribe");
    let order = BitstampOrderBookUpdate {
        data: BitstampOrderBookData {
            timestamp: "1700000000".to_string(),
            microtimestamp: "1700000000000000".to_string(),
            bids: vec![(d(9), d(1))],
            asks: vec![],
        },
    };
    let ts = order.data.timestamp_value().unwrap();
    assert_eq!(ts, 1700000000);
    let u = stream.accept_update(ts, &order).unwrap();
    assert_eq!(u.stream, "bitstamp");
    assert!(stream.accept_update(ts, &order).is_none());
    let snap = BitstampOrderBookSnapshot {
        timestamp: "12".to_string(),
        microtimestamp: "12000000".to_string(),
        asks: vec![(d(1), d(1))],
        bids: vec![],
    };
    let t = snap.timestamp_value().unwrap();
    let u = stream.accept_snapshot(t, &snap);
    assert_eq!(stream.start_time(), 12);
    assert_eq!(u.asks.len(), 1);
    assert!(BitstampOrderBookSnapshot { timestamp: "x1".to_string(), microtimestamp: String::new(), asks: vec![], bids: vec![] }
        .timestamp_value()
        .is_none());
}

#[test]
fn bitstamp_stamped_by_own_timestamp() {
    let mut stream = BitstampStream::new("ethusd");
    let order = |ts: &str| BitstampOrderBookUpdate {
        data: BitstampOrderBookData {
            timestamp: ts.to_string(),
            microtimestamp: String::new(),
            bids: vec![],
            asks: vec![(d(5), d(2))],
        },
    };
    assert!(stream.accept_stamped_update(&order("soon")).is_none());
    assert_eq!(stream.start_time(), 0);
    let u = stream.accept_stamped_update(&order("30")).unwrap().unwrap();
    assert_eq!(u.asks.len(), 1);
    assert_eq!(stream.start_time(), 30);
    assert!(stream.accept_stamped_update(&order("30")).unwrap().is_none());
    assert!(stream.accept_stamped_update(&order("29")).unwrap().is_none());
    assert_eq!(stream.start_time(), 30);
    let snap = |ts: &str| BitstampOrderBookSnapshot {
        timestamp: ts.to_string(),
        microtimestamp: String::new(),
        asks: vec![],
        bids: vec![(d(4), d(1)), (d(3), d(1))],
    };
    assert!(stream.accept_stamped_snapshot(&snap("-1")).is_none());
    assert_eq!(stream.start_time(), 30);
    let u = stream.accept_stamped_snapshot(&snap("7")).unwrap();
    assert_eq!(u.bids.len(), 2);
    assert_eq!(stream.start_time(), 7);
    assert!(stream.accept_stamped_update(&order("8")).unwrap().is_some());
}

#[test]
fn binance_events_decide_actions() {
    let mut stream = BinanceStream::new("btcusdt");
    let update = |id: u64| BinanceOrderBookUpdate { asks: vec![(d(10), d(1))], bids: vec![], first_update_id: id, last_update_id: id };
    match stream.on_event(StreamEvent::Update(update(4))) {
        StreamAction::Yield(u) => {
            assert_eq!(u.stream, "binance");
            assert_eq!(u.asks.len(), 1);
        }
        _ => panic!("a newer update is handed on"),
    }
    assert!(matches!(stream.on_event(StreamEvent::Update(update(4))), StreamAction::Skip));
    assert!(matches!(stream.on_event(StreamEvent::Update(update(2))), StreamAction::Skip));
    assert_eq!(stream.last_update(), 4);
    assert!(matches!(stream.on_event(StreamEvent::Unreadable), StreamAction::Report));
    assert!(matches!(stream.on_event(StreamEvent::Ping), StreamAction::Report));
    assert!(matches!(stream.on_event(StreamEvent::Pong), StreamAction::Report));
    assert!(matches!(stream.on_event(StreamEvent::Failed), StreamAction::Report));
    assert!(matches!(stream.on_event(StreamEvent::Close), StreamAction::Reconnect));
    assert!(matches!(stream.on_event(StreamEvent::Ended), StreamAction::Reconnect));
    assert!(matches!(stream.on_event(StreamEvent::Other), StreamAction::Skip));
    assert_eq!(stream.last_update(), 4);
    assert!(matches!(stream.on_event(StreamEvent::Update(update(9))), StreamAction::Yield(_)));
    assert_eq!(stream.last_update(), 9);
}

#[test]
fn bitstamp_events_decide_actions() {
    let mut stream = BitstampStream::new("btcusd");
    let update = |ts: &str| BitstampOrderBookUpdate {
        data: BitstampOrderBookData { timestamp: ts.to_string(), microtimestamp: String::new(), bids: vec![(d(3), d(1))], asks: vec![] },
    };
    assert!(matches!(stream.on_event(StreamEvent::Update(update("x"))), StreamAction::Abort));
    assert_eq!(stream.start_time(), 0);
    match stream.on_event(StreamEvent::Update(update("11"))) {
        StreamAction::Yield(u) => {
            assert_eq!(u.stream, "bitstamp");
            assert_eq!(u.bids.len(), 1);
        }
        _ => panic!("a newer update is handed on"),
    }
    assert!(matches!(stream.on_event(StreamEvent::Update(update("11"))), StreamAction::Skip));
    assert!(matches!(stream.on_event(StreamEvent::Unreadable), StreamAction::Report));
    assert!(matches!(stream.on_event(StreamEvent::Ping), StreamAction::Skip));
    assert!(matches!(stream.on_event(StreamEvent::Pong), StreamAction::Abort));
    assert!(matches!(stream.on_event(StreamEvent::Failed), StreamAction::Report));
    assert!(matches!(stream.on_event(StreamEvent::Close), StreamAction::Reconnect));
    assert!(matches!(stream.on_event(StreamEvent::Ended), StreamAction::Reconnect));
    assert!(matches!(stream.on_event(StreamEvent::Other), StreamAction::Skip));
    assert_eq!(stream.start_time(), 11);
}

#[test]
fn integers_parse_as_std_does() {
    for s in ["0", "42", "+7", "18446744073709551615", "18446744073709551616", "", "+", "-1", "12a", " 1", "007"] {
        assert_eq!(parse_u64(s), s.parse::<u64>().ok(), "{}", s);
    }
}

#[test]
fn ascii_case_mapping() {
    assert_eq!(to_ascii_uppercase("btc-usdT9é"), "btc-usdT9é".to_ascii_uppercase());
    assert_eq!(to_ascii_lowercase("BTC-usdT9É"), "BTC-usdT9É".to_ascii_lowercase());
}

#[test]
fn error_messages() {
    assert_eq!(OrderbookError::new("No response").message(), "No response");
    assert_eq!(OrderbookError::from_http("404 Not Found", "oops").details, "code: 404 Not Found; details: oops");
}

fn update(stream: &str, price: i128, amount: i128) -> OrderbookUpdate {
    let mut asks = PriceLevels::new();
    asks.insert(d(price), d(amount));
    OrderbookUpdate { stream: stream.to_string(), asks, bids: PriceLevels::new() }
}

#[test]
fn app_refuses_second_client_for_stream() {
    let mut app = App::new();
    assert!(app.add_client("binance").is_ok());
    assert!(app.add_client("bitstamp").is_ok());
    let err = app.add_client("binance").unwrap_err();
    assert_eq!(err.details, "Client already present");
}

#[test]
fn app_routes_update_to_its_stream() {
    let mut app = App::new();
    app.add_client("binance").unwrap();
    app.add_client("bitstamp").unwrap();
    let (key, item) = app.handle_update(&update("bitstamp", 10, 2)).unwrap();
    assert_eq!(key, "rate.bitstamp");
    assert_eq!(item.stream, "bitstamp");
    assert_eq!(item.asks.len(), 1);
    let (_, item) = app.handle_update(&update("binance", 11, 3)).unwrap();
    assert_eq!(item.asks.len(), 1);
    assert_eq!(item.asks[0].0, d(11));
    assert!(app.handle_update(&update("kraken", 10, 2)).is_none());
    assert_eq!(routing_key(&"x".to_string()), "rate.x");
}
