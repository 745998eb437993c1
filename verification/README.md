# ez_pubsub

A small in-process publish/subscribe event bus whose subscription logic is
verified with Verus.

- `src/` is the verified registry. Its view maps (event, target id, callback
  name) to the subscription's option and callback. `subscribe`,
  `unsubscribe` and `take_publication` (the callbacks a publication reaches,
  taking its one-shot subscriptions out in the same step) carry exact
  contracts; `src/laws.rs` proves properties across operations, also over
  any interleaving of them.
- `app/` is the thread-safe async bus: a `parking_lot::RwLock` around the
  registry (a publication is taken under the write lock, before its callbacks
  run), callbacks that return futures run together with
  `futures::future::join_all`, and the `AsyncPubSub` trait.
