# mev_engine

The decision logic of a Solana price-gap engine, verified with Verus, and the
process around it.

- `src/` — the verified library:
  - `types` — pools, price observations (prices carried as IEEE-754 bit
    patterns), opportunities and trade plans;
  - `strategy` — threshold, basis-point arithmetic, sizing, and gap
    detection (pairing, cost netting, best-first stable ordering), with
    laws on raising the threshold and on moving basis points into the margin;
  - `reordering` — the law that the order in which prices are listed does
    not change what is detected;
  - `events`, `state` — engine events and the bounded, numbered event log
    with its polling, status and pause/resume operations;
  - `market` — the pool watchlist subscriber and the per-pool price cache;
  - `execution` — balance check, simulation, and the Jito bundle request
    (dry-run guard, endpoint and JSON-RPC body);
  - `jupiter` — the quote endpoint and its query parameters;
  - `config`, `errors`, `text` — settings, error texts, text helpers.
- `app/` — the engine binary: configuration files, the HTTP control API,
  the scan loop, HTTP clients, and the floating-point gap computation.
- `tests/` — tests of the library.
