# hft_engine

A limit order book and a price-time priority matching engine, verified with
Verus.

- `src/types.rs`: sides, orders, trades.
- `src/book.rs`: the order book and its model (`BookModel`).
- `src/book_laws.rs`: the index invariant (`indexed`) and the laws on cancelling.
- `src/engine.rs`: the matching engine, the matching loop as a spec
  (`sweep`, `process_outcome`) and the laws on processing an order.
- `src/concurrent/ring_buffer.rs`: a bounded power-of-two ring buffer.
- `src/generator.rs`: a seeded synthetic order stream.
- `src/stats.rs`: latency samples (in nanoseconds) and percentiles.
- `app/`: the threaded pipeline over crossbeam channels, wall-clock and
  floating-point helpers, and trait impls the library's types cannot carry.
- `tests/`: the test suite.
