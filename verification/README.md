# nymp2p

A peer-to-peer node protocol that runs over the Nym mixnet, as a library
whose logic is proved with Verus, and the program around it.

## Layout

- `src/net_msg_header.rs` — message headers: magic bytes, a twelve-byte
  command field and a payload size; making, checking and (de)serializing them.
- `src/data_stream.rs` — a byte buffer with a read position, used for the
  bytes received from each peer.
- `src/node.rs` — a connected peer: its send queue, on which whole messages
  are framed, and its receive buffer.
- `src/net.rs` — the node's state (`Network`): taking messages out of receive
  buffers, handling each protocol command (VERSION, VERACK, ADDR, GETADDR,
  PING, PONG), the address book, choosing peers to connect to, and reading
  the address file.
- `src/net_addr.rs` — peer addresses.
- `src/database.rs` — a key/value store on LMDB with typed key prefixes and a
  manual commit mode.
- `src/controler.rs` — commands read from a running node's control socket.
- `src/util.rs` — the clock.
- `app/` — the program: command-line arguments, the mixnet socket, the timed
  tasks that move bytes between the socket and the library, files and logs.
- `tests/` — tests of the library.

Each public function of the library states what it returns or changes in its
`ensures`, as far as that does not rest on the clock or on what LMDB holds on
disk; for the store, the contracts say which environment, database, keys and
values each call handed to LMDB and how the result follows from LMDB's
answer. Proof functions named `law_...` state properties that relate
several operations, such as that a message framed on a send queue is taken
out whole, with the same command and payload, by the receiving side.
