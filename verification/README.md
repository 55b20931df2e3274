# matchbox_hybrid

A hybrid (super-peer) topology for matchbox signaling, with contracts on
its decisions checked by Verus.

Peers that join the signaling server become super peers while there are
fewer than `PEER_RATIO` children per super peer; the others become children
of the least loaded super peer. When a super peer joins, the children are
spread evenly again, each move taking a child from a super peer above its
share to one below it; when one leaves, its child with the least id takes
its place. The clients greet one another with handshakes, sent again no
sooner than a second apart and at most five times, and super peers pass
packets on to their children and to the other super peers.

What the contracts do not say (the order in which a hash map is walked,
what the clock reads, what happens on the network) is left to the code that
runs around the library.

## Layout

- `src/` — the library, verified:
  - `state.rs`, `balance.rs`, `topology.rs`, `laws.rs`: the server's peer
    table, the even spreading of children, where a joining peer goes, and
    the laws that every operation keeps the table consistent.
  - `handshake.rs`: the command-line client's handshakes and forwarding.
  - `client.rs`: the browser game client (positions, super peer lists).
  - `super_client.rs`: the browser client that shares each player's
    information, with handshakes, retries and forgetting silent peers.
  - `peer_id.rs`, `wire.rs`, `text.rs`: peer ids and their text, packets,
    and decimal numbers.
- `tests/`: tests of the library.
- `app/`: the signaling server's connection loop, the JavaScript bindings
  and the client loops, which hand events to the library and deliver what
  it answers.
