# minikv

The verified core of minikv, a distributed key-value and object store: coordinators
replicate metadata through Raft, volume servers hold the blobs, writes go through a
two-phase commit, reads check BLAKE3 hashes.

`src/` is the library, written in Verus: every function carries a contract that Verus
proves. Its modules:

- `raft`, `raft_node`, `raft_laws`, `raft_log`: the Raft state machine (votes, appends,
  commits, elections, read indexes), its laws, and the layout of the persistent log.
- `objects`, `placement`, `hash`, `metadata`: how a coordinator places, writes and reads
  objects (highest-random-weight placement, the phases of a write, the order and checks
  of a read), and what it records about keys and volumes.
- `staging`, `blob`, `index`, `wal`, `volume_node`: a volume's staging area for the
  two-phase commit, its segment records, Bloom-filtered index (with an expiry per key) and
  snapshots, its write-ahead log, and how it names itself to the coordinators.
- `auth`, `encryption`, `backup`, `batch`, `metrics`, `config`, `utils`, `text`, `error`,
  `reports`: API keys and roles, encryption at rest, backup checks, multi-key requests,
  request counters, configuration checks and small helpers.

Calls into outside crates (BLAKE3, CRC-32, AES-GCM, HKDF, Argon2, LZ4, SHA-256, base64,
UUIDs, the Bloom filter, the clock and the random generator) go through small trusted
functions whose contracts say what the crates' sources show.

`tests/` runs the library on concrete values. `app/` holds what touches files, clocks,
the terminal and serialisation: the command line, the volume's files, the Raft files,
configuration files, backups on disk, tokens, the audit log, latency histograms and the
rate limiter.
