# sctp_proto

An SCTP association as a state machine without I/O, written in Verus. The library decides what
happens; its user moves datagrams and watches the clock.

- `src/packet.rs`, `src/chunk/`: packets, chunks and parameters on the wire.
- `src/queue/`: chunks that wait to be sent, are in flight, or were received.
- `src/association/`: the association. The `laws_*` files, like those beside the packets and the
  queues, state what holds across functions.
- `src/buffer.rs`, `src/fx.rs`, `src/random.rs`: what is taken from outside crates and not proved.
- `app/`: addresses and clocks of the operating system, errors that can be shown, and a log.
- `tests/`: the library at work.

An association is made with `Association::new`. Packets that arrive go to `handle_event`,
`poll_transmit` hands out packets to be sent, `poll_timeout` tells when to call `handle_timeout`,
and `poll` hands out events for the application. Times are nanoseconds since a point that the
user chooses.
