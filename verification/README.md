# orderbook

A verified library for aggregating exchange order books, with a thin
program around it.

- `src/decimal.rs`: exact decimals (96-bit mantissa, scale up to 28), the
  price key by which prices are ordered and found, and subtraction through
  `rust_decimal`.
- `src/levels.rs`, `src/common.rs`: the book of one exchange (one level per
  price, kept in a `BTreeMap` keyed by price key), its updates, and the item
  published after each update.
- `src/sorted.rs`, `src/ranking.rs`, `src/server/`: the served book, the best
  levels of all exchanges ordered by `sorted_vec` sets, its spread, the
  folding of published books into it, and the proof that each side holds
  the best prices ever offered (`server/best.rs`).
- `src/market/`: the aggregator's books per stream, the Binance and Bitstamp
  stream states (subscriptions, snapshot addresses, which updates pass, and
  what each incoming message leads to: hand on an update, skip, report,
  reconnect or stop), and their shared error. The ids or times of the
  updates a stream lets through since its last snapshot are proved to rise
  strictly. Bitstamp's subscription data is kept as name/value pairs, which
  `app/` sends as a JSON object.
- `src/text.rs`: ASCII case mapping and decimal integer parsing.
- `app/`: the program: command line, RabbitMQ, websockets, HTTP, JSON.
  `aggregate` streams the exchanges' books to RabbitMQ; `serve` folds the
  published books into the served book and prints any crossed book. The
  gRPC service that streams summaries to clients, and its client, are not
  part of this program: their service definition is not in this tree.
  As in the code it follows, a stream that ends or is closed by the server
  is connected again, and other read errors are only printed.
