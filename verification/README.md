# obmerge

Connects to the websocket feeds of several crypto exchanges, combines their
order books into one book of the ten best bids and the ten best asks, and
streams that book over gRPC.

- `src/` is the verified library (Verus):
  - `decimal`: reads the exchanges' numerals (with optional sign and
    exponent) as signed fixed-point integers (10^-8 units, rounding half up
    past the eighth place); infinity, not-a-number and values beyond an `i64`
    are refused;
  - `orderbook`: order lines, books and the streamed summary;
  - `merge`: the combination of the books, with its laws (the combined side
    holds exactly lines that the books gave up, and, for books listed best
    first, the best lines sorted best first);
  - `exchanges`: the Binance and Bitstamp books and feed state machines, and
    the feed addresses;
  - `console`: the start/stop/quit command line as a state machine, with its
    split of a line into words at Unicode white space;
  - `server`: the decision of the relay that streams updates to a client;
  - `triplebuffer`: a three-slot buffer of the latest values.
- `app/` is the program around it: sockets, `serde` JSON, the gRPC service,
  threads and channels, and the conversions to and from floating point.
- `tests/` runs the library on concrete values.
