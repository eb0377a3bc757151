# kvstore

A persistent key/value store with memcached in front of it, verified with
Verus.

- `src/` is the verified library:
  - `storage_manager` — the versioned store (every change keeps the previous
    state); `kvmap` — the string maps it is made of, kept as lists of pairs
    with distinct keys (vstd specifies `HashMap` only for keys with a key
    model, which `String` lacks);
  - `utils::commands` and `common::commands` — reading commands from request
    text; `http` — taking the command out of a raw HTTP request;
  - `cache_manager` — the bookkeeping that decides which keys leave memcached:
    a per-key access count and an access log kept as a `Vec` in time order;
  - `requests` — the request handler, written as a resumable run: it asks its
    caller for each memcached answer it needs;
  - `distributor` and `command_processor` — the shard manager's routing of
    commands to shards, in the same resumable style;
  - `log` — the text of log records; `numbers`, `parsing`, `text` — decimal
    numbers and character-level helpers;
  - `laws` — properties that relate several operations.
- `app/` is the server around it: settings, TCP, threads, the memcached
  client, the log file and the JSON snapshot.
- `tests/` runs the library on concrete inputs.
