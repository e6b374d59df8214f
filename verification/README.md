# relay

The mesh of Promtuz relays: Kademlia routing between relays, the queue that a
user's home relays keep while the user is offline, the stashes of MLS key
packages and invitations, and the Merkle trees by which relays compare what
they hold.

`src/` is the library. Everything in it is verified with Verus: what a function
does stands in its `requires` and `ensures`, over the views and spec functions
beside it, and what holds of several functions together stands in public proof
functions whose names begin with `law_`.

| module | what it holds |
| --- | --- |
| `dht::routing` | the routing table of 256 buckets |
| `dht::lookup` | walks towards an id, with hedged requests |
| `dht::store`, `dht::forward`, `dht::queue_drain` | the queue of a home: taking, fetching, acknowledging |
| `dht::mls_kp`, `dht::mls_welcome`, `dht::mls_welcome_originate` | the stashes of key packages and of invitations |
| `dht::handler` | the hello of a connection, its streams, and the answer to every request |
| `dht::sync` | Merkle trees, the descent into what differs, and the upkeep of the mesh |
| `dht::keyspace` | a table with ordered keys |
| `dht::rate_limit`, `dht::cache`, `dht::publish`, `dht::push_wake`, `dht::bootstrap`, `dht::tls_extract` | what their names say |
| `control`, `cli`, `cmd` | the decisions of the control socket and of the command line |

The library does no I/O. Times are milliseconds that its callers hand in,
connections and endpoints are handles, and the tables are rows that the caller
reads from a medium and writes back. What only another crate can compute (a
BLAKE3 digest, an Ed25519 signature, the reading of a certificate, a rate
limit, a random choice) is called behind small functions marked
`external_body`, each with a doc comment that says what is taken on trust.

`app/` is the daemon around the library: QUIC, TLS, disk, the control socket
and the command line. `tests/` runs the library from outside.
