# moqtail

Control messages of Media over QUIC Transport, verified with Verus, together with the
decisions of a publishing client.

- `src/varint.rs`: QUIC variable-length integers (encoding, decoding, round trip).
- `src/tuple.rs`: tuples of byte strings (track namespaces), `/`-separated paths.
- `src/parameter.rs`: message parameters (forward, subscriber priority, group order,
  largest object, subscription filter) and lists of them.
- `src/subscribe.rs`: the SUBSCRIBE message, its constructors, its encoding and
  decoding, and the laws that tie them together (round trip, trailing bytes, cut-short
  input).
- `src/buffer.rs`: the `bytes` buffers the encoder and decoder work on (trusted).
- `src/payload.rs`: reproducible test payloads.
- `src/publisher.rs`, `src/args.rs`: configuration, argument formats, the namespace
  publisher's answers, and the order in which objects are sent.
- `app/`: the client program (arguments, connection, streams, timers, files).
