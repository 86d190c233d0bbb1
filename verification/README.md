# dvpn

A traffic-analysis defense for a tunnel, as a verified library: the policy layer that pins the
defense on, and the data plane that shapes packets. Every datagram has one size, cover traffic and
blocking follow [Maybenot](https://github.com/maybenot-io/maybenot) machines, and a client refuses
a server that cannot hold up its half.

| Module | What it owns |
|---|---|
| `wire` | Constant-size frames, the handshake messages, capability negotiation |
| `seal` | Authenticated encryption with counter nonces, the replay window |
| `transport` | The egress queue, blocking, cover traffic, the trace |
| `policy`, `engine` | Defense levels, the enforcement floor, machine selection |
| `levels`, `handshake` | What a level means on the wire, what the two ends make of each other |
| `timers`, `session` | One pending action per machine, and the closed feedback loop |
| `workload`, `wgbridge` | Synthetic traffic, and carrying a real WireGuard's datagrams |
| `wgconf` | WireGuard configuration, sized for the frames |
| `measure` | What an observer of the link can count |
| `ffi` | The decisions behind the C interface of the packet tunnel |
| `crypto` | The functions taken from other crates, with the contracts they are trusted for |
| `bytes`, `text`, `order`, `time` | Small things that the others stand on |

The library performs no I/O and reads no clock. `app/` holds the sockets, the clock, the machine
framework, the JSON reader and the command line, with `app/main.rs` as its root, and the C interface,
with `app/lib.rs` as the root of the library that a packet tunnel links.

What each function does stands in its contract. What holds across functions stands in the proof
functions whose names begin with `law_`: that nonces never repeat, that a replayed datagram is
dropped, that a block is never shortened, that what is sent arrives, that a negotiated level is a
defended one, and so on.

This is a testbed. Keys come from a pre-shared string; there is no authenticated key exchange.
