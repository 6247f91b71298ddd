# bittorrent

A BitTorrent client library whose logic is verified with Verus, and a
command-line client built on it.

## Layout

- `src/` — the verified library (`bittorrent::bittorrent::*`):
  - `bencode`, `bencoder`, `bedecoder`, `roundtrip` — bencoded values, their
    mathematical model, the encoder and decoder, and the proof that decoding
    an encoding gives the value back.
  - `metainfo`, `metainfo_laws` — `.torrent` files: reading and writing them,
    the info hash, and the proof that what is written reads back.
  - `peer`, `peer_laws`, `wire`, `bitfield` — the peer wire protocol: the
    per-peer state, every message in both directions, and the proofs that
    each message reads back as what was sent.
  - `markers`, `torrent`, `torrent_runtime` — the pieces and blocks had so
    far, the piece priority queue, request selection, transfer rates and
    pausing.
  - `manager`, `timers` — the download manager's decisions: handshakes,
    choking, requests, reactions to peer messages and to user orders, and
    its one-second schedule.
  - `tracker` — tracker responses, announce queries and addresses.
- `tests/` — tests of the library, including an in-memory swarm of seeders
  and leechers that runs the manager's decisions end to end.
- `app/` — the client: sockets, files, HTTP announces and the event loop.
  It tests the library's preconditions before calling it, as the library's
  contracts ask, and leaves the decisions to the library.
