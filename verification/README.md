# engine

An order-matching engine for a spot exchange, written in Verus.

- `src/decimal.rs` — decimal amounts held as the mantissa and scale of a
  `rust_decimal::Decimal`; arithmetic and comparison are done by `rust_decimal`.
- `src/orderbook.rs` — the order book of one market: price levels best price
  first, matching with price-time priority, placement of new orders. The
  matching rules are stated as spec functions and the code is proved to
  follow them.
- `src/book_laws.rs` — properties every matching and placement keeps: the
  book's order, the numbering of trades, the limit price, the executed
  quantity as the sum of the fills.
- `src/engine.rs` — the books of all markets and the users' balances.
- `src/messages.rs` — the requests and replies exchanged with the API.
- `src/redis_manager.rs`, `src/api/` — the Redis clients of both sides.
- `app/` — the HTTP API, the Redis round trips, JSON and the database
  pool, around the library.
