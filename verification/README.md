# ptwop: P2P TCP tunnel over UDP

A tunnel that carries TCP connections through a hole in NATs. A signaling server
introduces a host, which has a TCP service, to clients, which offer that service
at a local port. The rules of the tunnel are a verified library in `src/`; the
sockets, the command line and JSON are ordinary Rust in `app/`.

## Layout

- `src/protocol/`: packets, windows, congestion control, and streams.
  `stream_model.rs` says what each event makes of a stream, `stream.rs` does it,
  `stream_laws.rs` states what holds over several events.
- `src/tunnel.rs`: probes and retransmission, alike at both ends.
- `src/host/`, `src/client/`: what each end does on packets and messages.
- `src/server/`: rooms, and whom the server tells what.
- `src/punch.rs`: hole punching.
- `src/end_to_end.rs`: what holds from one end to the other.
- `src/signal.rs`, `src/config.rs`, `src/crypto/`: messages, settings, encryption.
- `src/addr.rs`, `src/time.rs`, `src/text.rs`, `src/string_map.rs`: addresses,
  time, text.
- `app/`: the program.

## How to read it

A type has a model of plain mathematics, written `value@`. A function's contract
says that the model after the call is the model before it, changed by a spec
function such as `after_data`. Laws are public proof functions whose names begin
with `law_`.

Where a counter could run over, a function asks for it in `requires`, and beside
it stands a check (`tick_fits`, `packet_fits` and the like) that tells whether it
would.
