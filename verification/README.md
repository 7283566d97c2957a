# utp

The protocol logic of uTP, the micro transport protocol over UDP, written and verified with
Verus. Sockets, channels and tasks are left to the caller: the library is told what happened,
and says what to do.

- `wire`: what a packet looks like in a datagram, and that encoding and decoding undo each other
- `packet`: packets, and their conversion from and to bytes
- `stream`: a connection: what it does with packets that come in, and which packets it sends
- `transfer`: what two connections achieve together: data arrives whole, in order and once
- `socket`: the routing table of a socket, and the tasks that send and receive its packets
- `listener`: connections that a peer asks for
- `congestion`: windows and delays of a connection
- `router`, `connection`, `connection_manager`: connections that are known by their ID alone
- `sequence`, `addr`, `time`, `error`, `util`: numbers, addresses, timestamps and errors
- `buffer`, `table`, `random`: the calls into the crates `bytes`, `dashmap` and `rand`, with what
  is relied on of them

Packets wait in mailboxes and channels, which the library knows by number. `app/` holds them,
along with the UDP sockets, the background tasks, and the implementations of `AsyncRead` and
`AsyncWrite`.
