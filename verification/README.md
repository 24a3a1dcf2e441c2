# throcc

A self-hosted voice and screenshare platform: one server, one QUIC connection
per client, and one room at a time, or none. The logic is a Verus library; the
program around it is ordinary Rust.

## Layout

- `src/proto/`: what goes over the wire. Ids, the media header, length-prefixed
  frames, the bytes a client signs, certificate fingerprints, the messages.
- `src/server/`: who is let in and what they may do. Invites and the limit on
  guessing them, the database, rooms and sessions, the routing of media, one
  client's control stream from hello to close.
- `src/client/`: the other end. The keystore and its pins, the handshake, a
  session's requests and events, the media path from access unit to datagram
  and back, and the counting of audio samples.
- `src/cli.rs`: what is typed at the terminal and what is shown there.
- `src/crypto.rs`, `src/text.rs`: hashing, signing, randomness and text, where
  the outside crates and the standard library are called.
- `src/keyed.rs`: where a key stands in a sequence, which every lookup by name,
  hash or id comes down to.
- `tests/`: the library at work, with the real crates behind it.
- `app/`: sockets, files, SQLite, the terminal, audio devices and everything in
  floating point.

## How it is specified

Each type has a view or a spec function that says what it stands for
(`Records` for the database, `World` for a running server, `Assembly` for a
reassembly buffer), and each function says in `ensures` what it returns and
changes in those terms. What relates several functions is stated as a public
proof function with a name that reads as a sentence, such as
`a_code_enrolls_once`, `a_media_id_is_never_reused` or
`a_sent_stream_is_received`.

The clock and the network are not part of the library: the time is an
argument, and the program hands bytes in and carries decisions out.
