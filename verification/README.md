# tx3_dashboard

The tracking core of a monitoring dashboard for a Tx3-described dApp: it
loads the protocol's transactions and parties, matches chain transactions
against them, plans what is stored about a match, and assembles the stored
rows back into the transactions the dashboard serves.

- `src/` is the library, verified with Verus:
  - `registry.rs`: the protocol's transactions, parameter decoding and the
    registry's answers;
  - `template.rs`: the model of a lowered transaction template and how its
    parties and policies are resolved;
  - `blockfrost.rs`: the indexer's view of a transaction and the matching
    rule;
  - `db.rs`: the stored rows, the writes that store a match, and response
    assembly, with the law that a stored transaction reads back as itself;
  - `store.rs`: what the writes do to the tables (insert-or-keep, upserts
    that keep a set spender and datum), with the laws that writes are
    idempotent, never delete, keep what is set, and store a transaction's
    rows as written;
  - `config.rs`, `api.rs`, `utxorpc.rs`: settings, request answers and the
    stream listener's authentication header;
  - `bridge.rs`: every call into another crate, each with what the library
    takes for granted about it.
- `tests/` exercises the library on concrete values.
- `app/` is the program around it: environment, HTTP, SQLite, the chain
  stream, and the Tx3 toolchain, run under a guard that turns its panics
  into errors.
