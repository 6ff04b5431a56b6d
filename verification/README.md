# chirp

File transfer over UDP for lossy links, with the protocol verified in Verus.

- Data packets carry sequence numbers; the receiver asks for what it lacks (NACK), and
  the sender keeps every packet until the receiver has acknowledged the end (FIN).
- Redundancy: XOR parity after each block of data packets, or random linear network
  coding over GF(256).
- Delay-based congestion control, which does not take loss for congestion.
- Optional AES-256-GCM encryption of payloads.
- Parallel TCP streams as an alternative.

## Layout

| | |
|---|---|
| `src/protocol/` | GF(256), linear systems, network coding, XOR parity, packets, NACKs |
| `src/congestion/` | delay samples, congestion window, pacing |
| `src/transfer/` | both ends of a transfer, their turns, the handshake, encryption, what is written, TCP chunks |
| `src/transfer/run.rs`, `src/transfer/integrity.rs` | what a transfer promises as a whole |
| `tests/` | tests of the library |
| `app/` | the program: sockets, files, clocks, command line, and the sending rate, which is a floating-point number |

The library holds no sockets and no clocks. Its state machines are told what happened
and when, and answer with what to send, write or wait for.

## What is proved

- Field laws of GF(256), and that decoding of coded packets undoes their encoding.
- Packets are read back as they were written, and nothing else is taken for a packet.
- XOR parity gives back the one packet of a block that is lost, padded to the longest.
- A gap is in the NACK list exactly when it was not received; after the FIN everything
  that lacks is asked for. The sender keeps all that it sent, redundancy too, so it has
  every packet with a number before the FIN.
- A payload decrypts to the data that it was made of.
- Delivery (`src/transfer/run.rs`): a sender sends a file, one data packet for each piece
  read of it, plain or encrypted, with parity, coded packets or neither. Whichever of its
  datagrams arrive, in whatever order and however often, a receiver with the same settings
  that counts itself complete writes that file, whether it was told the size or not.
- Completion: once the FIN has come, and after it what the receiver then asks for, the
  receiver counts itself complete.

Completion holds of pieces of any lengths. So does delivery without redundancy, or where
nothing had to be computed. A chunk that is computed has the length of the longest that went
into its redundancy with it, so delivery asks that those that go together have one length,
but for the last of the file, and that none is so short that the zeros behind a computed last
chunk count for it. Readers that fill the buffer they are given, as files do, meet that.

Both hold of files that fit the 32 bits of sequence numbers, of senders whose last transfer
was not cut short, and, with coded packets, of generations that leave room for a chunk in a
datagram. Of forged packets nothing is promised but where encryption refuses them.
