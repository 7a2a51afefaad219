# ferrite

A small MQTT 3.1.1 toolkit whose logic is proved with Verus.

- `src/` is the verified library:
  - `varint`: variable byte integers.
  - `packet` and `format`: the control packets and their wire format, written as spec functions.
  - `codec`: reads and writes frames on `bytes::BytesMut`.
  - `roundtrip`: proves that what is encoded decodes back.
  - `trie`: the topic trie, with its wildcard rules.
  - `broker` and `client`: the decisions a broker session and a client session make.
  - `buffer` and `error`: the trusted declarations of the outside types.
- `app/` is the program around the library. It holds the TCP server and the async client
  on tokio, the `Decoder`/`Encoder` impls of tokio-util, and the error types with thiserror
  derives.
- `tests/` runs the library on concrete values.
