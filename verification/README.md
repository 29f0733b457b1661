# lib — identify a sender by IP address

A verified library: the peer address an arrival came from is the claim, read
through trusted proxies (`Forwarded`, `X-Forwarded-For`) where the peer is one.

- `src/address.rs` — IPv4/IPv6 addresses: reading them from text (bare, with a
  port, bracketed) and writing them as `std` does.
- `src/network.rs` — an address or a prefix, and which addresses it contains.
- `src/forwarded.rs` — the forwarded chain a header names, and the client in it.
- `src/arrival.rs` — the arrival an identifier reads and the claim it presents.
- `src/lib.rs` — the identifier itself, and `parse_address`.
- `src/readback.rs` — proof that an address or socket address as shown reads
  back as itself.
- `src/text.rs`, `src/error.rs` — text helpers and the error type.

Every function carries its contract; `law_*` proof functions state the
properties that span functions.
