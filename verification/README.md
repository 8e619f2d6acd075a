# bittorrent

A small BitTorrent client. The library under `src/` holds its logic, with
contracts checked by Verus:

- `bencode`: the bencode grammar, a reader of values, the canonical writing
  and the proof that the writing reads back.
- `decode`: bencoded values as JSON values.
- `peer`: the handshake, block requests and payloads, message tags and the
  length-prefixed frames of the peer wire protocol.
- `torrent_file`: the torrent metainfo, the info dictionary and its hash,
  and the piece hashes.
- `tracker`: the announce request's query text and the compact peer list.
- `worker`: the piece queue, block planning and checks, the decisions of a
  worker that fetches pieces from one peer, and the store of pieces.
- `outside`: the calls into SHA-1, hex, form encoding, JSON and UTF-8 code
  that is not verified, each with the contract it is taken to meet.

`app/` is the command-line program around it: argument parsing, files,
the network, the tasks that run workers, and serde's reading of torrent
files and tracker replies.
