# udpipe

Pipes a byte stream over UDP, both ways at once. Datagrams may be lost, repeated, delayed or
reordered; what comes out at the other end is the stream.

`src/` is a verified library. Its functions state what they do in `requires` and `ensures`
clauses, which Verus proves. `app/` is the program around it: arguments, sockets, the poll loop.

| Module | What it holds |
| --- | --- |
| `sequence` | packet numbers |
| `wire` | little-endian numbers, chunk heads |
| `ochen_circus_buf` | the ring in which a receiver puts the stream together |
| `missing` | which stretches of the stream are missing |
| `receive` | the receiving end of a stream |
| `delivery` | what a receiver promises of the stream |
| `circ`, `range_set` | the `circbuf` and `ranges` crates, by contracts |
| `pipe` | sources of a stream |
| `sende` | the sending end of a stream |
| `outgoing` | what the packets of a sender add up to |
| `packetizer` | packets that carry a stream from its beginning on |
| `connection` | both directions of a connection |
| `network` | what becomes of a packet at the other end |
| `transfer` | what two connections promise over a faulty network |
| `event_loop` | what the program does next |

The promise that the rest serves is `transfer::law_output_is_what_was_written`: whatever the
network does to the packets between two connections, what the one hands out is at every time a
beginning of what was written to the other. `transfer::law_transfer_can_go_on` adds that it never
gets stuck: one packet back and one packet there, both received, make more of it readable.

Trusted without proof: the calls into `byteorder` (`wire`), `circbuf` (`circ`) and `ranges`
(`range_set`). Each stands in a small function whose comment says what is claimed of it.
