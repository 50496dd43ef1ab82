# torrent

A BitTorrent client that downloads from seeds. Its logic is a library in Verus, whose functions are
proved to do what their contracts say; sockets, files and the command line are ordinary Rust around
it.

- `src/bencode` reads bencoded values, with two decoders that agree wherever both apply, describes
  torrent files, and computes the hash by which a torrent is known.
- `src/download` holds the peer protocol: handshakes and messages on the wire, bitfields, the choice
  of pieces and blocks to ask for, and the exchange with one seed as a machine that goes from event
  to action.
- `src/tracker` holds the protocol of UDP trackers, the exchange with one as another such machine,
  and the choice of a tracker.
- `src/file.rs` divides a download into its files.
- `src/buffer.rs`, `src/digest.rs`, `src/text.rs` and a few functions elsewhere call the `bytes`,
  `sha1`, `serde_bencode`, `rand` and `url` crates and the standard library. What is assumed of each
  call stands in its contract.
- `app` performs the actions: it connects to trackers and peers and writes the files.

Functions named `accepts...` or `allows...` tell at run time whether a function may be called, so
that code outside the library can check before it calls.
