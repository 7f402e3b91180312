# holynet_sdk

The verified core of the Holynet VPN runtime, written in Verus.

`src/` is the library, and Verus verifies every function in it. Its contracts
say what each function does; calls into `snow` (Noise transport encryption) and `dashmap` (the
address pool's borrowed-offset set) go through a handful of trusted wrappers
whose doc comments say what is assumed of the outside code; `dashmap`
also holds the session table's tunnel-address index. The sessions themselves
sit in a std `HashMap`, since the table lends `&Session` values and a
`DashMap` lends its values only through short-lived guards. The sealed and
opened bytes of the Noise transport are named (`noise_sealed`,
`noise_opened`), so the encoders and receive paths state exactly which
bytes go out and which body comes in.

| module | what it holds |
|---|---|
| `replay` | the 2048-bit sliding anti-replay window and its laws |
| `codec`, `packet`, `crypto` | big/little-endian and varint codecs, data frames and bodies, sealing and opening them with Noise |
| `net` | addresses and the destination of a raw IP packet |
| `route`, `topology` | cheapest multi-hop route over the advertised node graph |
| `ip_pool` | the subnet address generator (cursor scan over a borrowed set) |
| `session`, `sessions` | one client session and the server's session table with idle expiry |
| `link`, `server_data`, `pipeline` | per-packet decisions of the client and server data paths, worker rotation and reassembly |
| `handshake` | the Noise IKpsk2 handshake: algorithm hint, first message, node reply, reply bodies and handshake datagrams |
| `relay` | relay flows: id allocation, pinning, idle reaping and batching |
| `client_builder`, `cred`, `keys` | client configuration and credentials |

`app/` is ordinary Rust around the library: the async loops that read and
write sockets and the TUN device (including the handshake exchange and the
multi-worker receive pool), clocks, and conversions from `std::net`.
It makes the I/O and hands the library plain values.

`tests/` exercises the library through its public API.
