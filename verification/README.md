# sealing

Planning and request building for sealing hashes with the Cryptowerk bulk
registration API, verified with Verus.

- `src/` is the verified library:
  - `candidates`: hash candidates and the millisecond timestamp of a UTC instant;
  - `sorting`: the batching order (source type, source reference, hash), a stable
    insertion sort by it, and its laws (sorted, a permutation, stable);
  - `batcher`: dropping already-sealed hashes, ordering, and cutting into numbered
    batches, with laws on what the batches hold;
  - `config`: the service configuration from looked-up environment values;
  - `cryptowerk_client`: the register endpoint, the query parameters, the register
    URL (through `url::Url::parse_with_params`), the auth header;
  - `db`: the row types of the sealing tables;
  - `text`: character-level string helpers (order, trimming, search, join).
- `app/` reads the environment and talks to SQLite (`rusqlite`), and converts
  `chrono` instants for the library.
- `tests/` exercises the library on concrete values.
