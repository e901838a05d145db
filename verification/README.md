# slp

Building blocks of the Minecraft Server List Ping, verified with Verus.

- `src/groups.rs`: the 7-bit group wire format of variable-length numbers (what
  a writer emits, where a reader stops, what it reads), with its lemmas.
- `src/codec.rs`: the `Sizeable`, `Codec`, `Encoder` and `Decoder` traits and
  their errors.
- `src/types/`: `Var<I>` for the integer types up to 64 bits (`VarInt`, `VarLong`),
  `Var<u128>` and `Var<i128>` (`wide.rs`), and the length-prefixed string `McStr`,
  with the laws relating sizes, encodings and read-backs.
- `src/protocol/`: the packet layer: its errors, its `VarLong`, packet metadata,
  the handshake packet.
- `src/session.rs`: the decisions of a minimal status server on the bytes that
  have arrived, and the proof that a decision taken on them holds whatever follows.
- `src/server.rs`: what the TCP servers decide about their connections.
- `app/`: the programs: the status server, and two TCP servers (one of them
  logs handshakes through `valence_protocol`).
