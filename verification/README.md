# loom

Loom's ledger core as a verified Verus library, with the programs around it.

`src/` (verified):

- `hasht` — open-addressed tables over slices: `find` (linear probing from the
  key's start, wrapping at `usize`), `migrate`, and the laws of lookups after stores.
- `codec` — little-endian and big-endian numbers over bytes.
- `data` — transactions, proof-of-history entries, subscriptions, messages and
  accounts, with the 160-byte C layout of a message and its payload readings.
- `state` — the account table that transaction messages move balances through.
- `gossip` — the table of gossip subscribers.
- `wallet` — key pairs, signing, and the encrypted private keys (rust-crypto,
  serde_json behind trusted calls).
- `net` — messages as packet bytes, and the sizes the network loops use.
- `loomd`, `client` — loading test accounts; reading addresses and building a
  transfer.
- `result` — the library's errors.

`app/` holds the daemon and wallet programs: sockets, files, threads, the
command line and the retry loop.
