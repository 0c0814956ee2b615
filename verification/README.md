# hashring

A replicated key-value store on a consistent-hash ring, with its rules verified in Verus.

- `src/` holds everything that decides or computes: topologies and their canonical digest, plans of
  topology changes, the state of a data node (records, receipts, streams, migrations, leases), the
  state of the coordinator (membership, leases, repairs, publication, failover), the retries of
  a client, and the wire form of topologies. Each function has a contract over mathematical models;
  public proof functions named `law_..` state what holds across several operations.
- `app/` performs what the library decides: it calls, waits, stores and measures.
- `tests/` runs the library on concrete values, with the hash, JSON and random-number crates linked.

Instants are nanoseconds on a monotonic clock, unix times are milliseconds. A next state is returned
as a new value, so that it can be stored before it takes effect.

What is taken on trust is small: `hashing.rs` names the results of XXH3 and BLAKE3 and says what the
JSON form of a text is, `migration.rs` and `client.rs` draw random identifiers and numbers, and `text.rs` says what
`String::push` does.
