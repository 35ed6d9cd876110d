# kvdb

An in-memory key-value store speaking RESP, with a write-ahead log,
snapshots and a metrics dashboard. The core is a Verus library whose
behaviour is stated in `requires` / `ensures` contracts and proved.

- `src/` — the verified library:
  - `arena` — first-fit, coalescing allocator of byte ranges in one buffer;
  - `btree`, `btree_model` — the B-Tree over the arena, viewed as a
    `Map<Seq<u8>, Seq<u8>>` with its entries in key order;
  - `bytes_order` — the lexicographic order of keys;
  - `glob` — `KEYS` patterns (`*`, `?`, classes, escapes);
  - `protocol`, `resp_laws` — the RESP parser and writer, and the laws that
    what is written parses back; `frame_laws` — a complete frame is decided
    by its own bytes, wherever it starts;
  - `decimal` — decimal text of integers;
  - `wal` — log records, their replay, and applying them to a tree;
  - `snapshot` — the `dump.rdb` byte format of a whole tree;
  - `commands` — what each client command asks of the store, and its reply;
  - `session` — how a connection consumes its read buffer, frame by frame;
  - `metrics` — operation and per-key access counts, top keys, and the
    Prometheus text page;
  - `mime` — content types of the dashboard's files.
- `app/` — the server around it: command line, files, the `mio` RESP
  event loop, the `axum` dashboard and its WebSocket feed.
- `tests/` — tests of the library on concrete values.
