# rustorrent

A BitTorrent client whose logic is verified with Verus.

- `src/bencode`: the bencode grammar, the decoder and encoder, values and
  their conversions, SHA-1 hashes; `roundtrip.rs` proves that decoding an
  encoding gives the value back.
- `src/base`: torrent metainfo, the layout of pieces and blocks over the
  files, the peer pool of the download manager, peer ids.
- `src/peer`: the wire messages, the handshake, bitfields, request queues,
  and the state machine of a peer connection (`session.rs`).
- `src/tracker`: announce URLs, the shuffling of tracker tiers, and tracker
  answers.
- `app/`: the program around the library: sockets, files, HTTP, tasks and
  the terminal.
