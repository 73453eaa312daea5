# gopher_netplay

Netplay for an emulator: sessions between machines that talk to each other directly, and the
signaling server at which they meet.

- `src/` is the library, verified with Verus. It decides; it opens no socket and reads no clock.
  Each module begins with a line on what it is about. Laws that hold of several functions together
  are public proof functions whose names begin with `law_`; most of them stand in
  `src/delivery.rs` (messages), `src/slots.rs` and `src/handshake.rs` (finding each other) and
  `src/mesh.rs` (the signaling server).
- `app/` is ordinary Rust around it: sockets, timers, the screen. It asks for an emulator that
  implements the trait in `app/device.rs`.
- `tests/` holds the tests of the library.

What the library takes on trust from other crates is marked `external_body`,
`external_type_specification` or `assume_specification`, with a comment on what is claimed.
