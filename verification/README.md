# lighter_client websocket library

Verified core of a websocket client for the Lighter exchange.

- `src/` (verified with Verus):
  - `types`: market and account identifiers.
  - `decimal`: decimal numerals, read as `str::parse` reads signed integers
    and written as `Display` writes them.
  - `channel`: channel names (`order_book/1`, `account_all:7`) and the ids they name.
  - `subscriptions`: the set of channels a client subscribes to.
  - `price`: the order of price texts as decimal numbers.
  - `order_book`: order-book levels and the merging of updates into a book;
    asks are kept lowest price first and bids highest price first.
  - `address`: websocket addresses and the calls into the `url` crate.
  - `client`: endpoint configuration, the builder and the client.
  - `connection`: what a connection does with each frame and text message,
    and the count of reconnects since the server last confirmed a connection.
  - `error`: the error type.
- `app/`: the asynchronous client around it (sockets with `tokio-tungstenite`,
  order-book envelopes read with `serde`, and reopening a socket that ended or
  failed after an exponential backoff delay, computed in floating point).
- `tests/`: tests of the library.
