# nexusfs

The verified core of NexusFS, an offline-first replicated filesystem: the decisions
every replica has to make identically, each with a contract proved by Verus.

- `src/` is the library. The CRDTs (`or_map`, `lww`, `conflicts`, `listing`), the
  namespace rules and edits (`namespace`, `mutate`, `subtree`, `object`, `inode`,
  `keys`, `snapshot`), writes and reads of file content (`apply`, `chunker`, `repo`,
  `envelope`, `keyfile`), the replication protocol's decisions (`session`, `clock`,
  `handshake`, `framing`, `trust`, `peers`), maintenance (`gc`, `format`, `share`,
  `evidence`), why replicas converge (`replicas`), and the energy-aware scheduler with the parsers that feed it
  (`scheduler`, `telemetry`, `sensors`, `link`, `storage`). Calls into the
  cryptographic crates sit behind small wrappers in `primitives`, `digest` and
  `identity`, whose contracts name what each call returns.
- `app/` is ordinary Rust around the library: reading sensors and network
  configuration, key files, stream chunking, framing on a byte stream, the wire
  encoding of stored objects, and the sync loop that carries out the library's plans.
- `tests/` runs the library on concrete values.

What is not here: the store layer. The original keeps blobs and key-value state in a
storage crate (`nexusfs_storage`), frames its wire messages with types from
`nexusfs_proto`, and builds commitment proofs with `nexusfs_zk`; none of the three is
available, so the drivers that read and write the store (applying and retrying
operations, the sweep itself, the repository audit) are absent. Every decision those
drivers make is in `src/`, taking what they would read from the store as arguments.
The QUIC transport, the serve loop and the admin HTTP console are absent too: the
`Puller` and `ContentFetcher` traits in `app/` are where a transport plugs in.
