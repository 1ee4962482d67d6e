# orderbook

A limit order book with price-time priority matching, verified with Verus,
and the two programs that serve it: a matching engine that speaks
newline-delimited JSON over TCP, and an HTTP/websocket front end.

- `src/types.rs` — orders, fills, price levels and the engine protocol.
- `src/model.rs` — the mathematical model: a side of the book as a map from
  price to a FIFO queue, matching as a recursive function over it, and the
  lemmas about it.
- `src/order_book.rs` — `OrderBook` on `BTreeMap<u64, VecDeque<Order>>`,
  proved to match the model exactly.
- `src/engine.rs` — how the engine serves a request from its book.
- `src/server.rs` — the front end's decisions: HTTP replies, lines from the
  engine, websocket events.
- `src/laws.rs` — properties of every submission: the book stays valid and
  uncrossed, quantity is conserved, fills respect the limit and come in
  price-time priority, a snapshot adds up to the resting quantity.
- `app/` — the executables (`app engine`, `app server`): sockets, threads,
  JSON and HTTP.
