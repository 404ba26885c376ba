//! Both directions of a connection.
//!
//! A packet holds, all little-endian:
//!
//! - 32 bits: the packet's number
//! - 64 bits: up to where the sending side's stream reaches
//! - chunks, each with a 16-bit head that gives its type in the upper 5 bits and the size of
//!   its data in the lower 11
//!   - type 0 carries a piece of the stream: 64 bits of stream offset, and the bytes
//!   - type 1 carries feedback: 64 bits of stream offset up to which was read, and for each
//!     stretch that is missing 64 bits of stream offset and 16 bits of size

use crate::error::{ErrorKind, SenderError};
use crate::pipe::CircRead;
use crate::receive;
use crate::receive::{Receiver, ReceiverState};
use crate::sende;
use crate::sende::{Sender, SenderState};
use crate::sequence::Sequence;
use crate::wire;
use crate::wire::ChunkStep;
use vstd::prelude::*;

verus! {

/// The size of a packet's own fields.
pub const HEADER_SIZE: usize = 12;

/// A packet is only made where there is room for this many bytes.
pub const MIN_PACKET_SIZE: usize = 14;

/// A feedback chunk takes at most this many bytes of a packet.
pub const MAX_FEEDBACK_SIZE: usize = 128;

/// How a connection is set up. Times are in nanoseconds.
#[derive(Clone, Copy, Debug)]
pub struct ConnectionParams {
    pub send_delay: u64,
    pub retransmit_delay: u64,
    pub send_buffer_size: usize,
    pub recv_buffer_size: usize,
}

/// What a [`Connection`] holds.
#[verifier::ext_equal]
pub struct ConnectionState {
    pub sender: SenderState,
    pub receiver: ReceiverState,
    /// The number of the next packet.
    pub next_seq: u32,
    /// How long to wait between two packets.
    pub send_delay: u64,
    /// How long to wait for what is missing.
    pub retransmit_delay: u64,
    /// When the next packet may be sent.
    pub next_send_time: u64,
}

/// Both ends of the streams that a connection carries, one in each direction.
pub struct Connection {
    send_delay: u64,
    retransmit_delay: u64,
    packet_seq: Sequence,
    sender: Sender,
    next_send_time: u64,
    receiver: Receiver,
}

impl View for Connection {
    type V = ConnectionState;

    closed spec fn view(&self) -> ConnectionState {
        ConnectionState {
            sender: self.sender@,
            receiver: self.receiver@,
            next_seq: self.packet_seq@,
            send_delay: self.send_delay,
            retransmit_delay: self.retransmit_delay,
            next_send_time: self.next_send_time,
        }
    }
}

/// The entries of a feedback chunk from `pos` on are whole, and none begins beyond `front`.
pub open spec fn entries_ok(chunk: Seq<u8>, pos: int, front: int) -> bool
    decreases chunk.len() - pos,
{
    if pos >= chunk.len() {
        pos == chunk.len()
    } else {
        &&& pos + 10 <= chunk.len()
        &&& wire::le_value(chunk.subrange(pos, pos + 8)) <= front
        &&& entries_ok(chunk, pos + 10, front)
    }
}

/// A sender that has written the stream up to `front` can act on the whole feedback chunk.
pub open spec fn feedback_ok(chunk: Seq<u8>, front: int) -> bool {
    &&& chunk.len() >= 8
    &&& wire::le_value(chunk.take(8)) <= front
    &&& entries_ok(chunk, 8, front)
}

/// Every segment chunk from `pos` on that would be taken in can be, where the own stream was
/// written up to `front`.
pub open spec fn exchange_safe(data: Seq<u8>, pos: int, front: int) -> bool
    decreases data.len() - pos,
{
    let kind = wire::chunk_kind(data, pos);
    let next = pos + 2 + wire::chunk_size(data, pos);
    let chunk = wire::chunk_body(data, pos);
    if pos + 2 > data.len() || next > data.len() {
        true
    } else if kind == wire::CHUNK_SEGMENT {
        receive::segment_ok(chunk) && exchange_safe(data, next, front)
    } else if kind == wire::CHUNK_FEEDBACK {
        feedback_ok(chunk, front) ==> exchange_safe(data, next, front)
    } else {
        true
    }
}

/// What the chunks of `data` from `pos` on lead to: the new state of both directions, and what
/// stopped it, if anything.
pub open spec fn exchange_from(
    receiver: ReceiverState,
    sender: SenderState,
    data: Seq<u8>,
    pos: int,
    now: u64,
) -> (ReceiverState, SenderState, Result<(), SenderError>)
    decreases data.len() - pos,
{
    let kind = wire::chunk_kind(data, pos);
    let next = pos + 2 + wire::chunk_size(data, pos);
    let chunk = wire::chunk_body(data, pos);
    if pos + 2 > data.len() {
        (receiver, sender, Ok(()))
    } else if next > data.len() {
        (receiver, sender, Err(SenderError::IoError { kind: ErrorKind::UnexpectedEof }))
    } else if kind == wire::CHUNK_SEGMENT {
        exchange_from(
            receiver.accept(receive::le_offset(chunk) as u64, chunk.skip(8), now),
            sender,
            data,
            next,
            now,
        )
    } else if kind == wire::CHUNK_FEEDBACK {
        let (after, result) = sende::feedback_effect(sender, chunk);
        match result {
            Ok(_) => exchange_from(receiver, after, data, next, now),
            Err(error) => (receiver, after, Err(error)),
        }
    } else {
        (receiver, sender, Err(SenderError::IoError { kind: ErrorKind::InvalidData }))
    }
}

/// The feedback chunk of a packet that has room for `room` bytes of it.
pub open spec fn feedback_part(receiver: ReceiverState, room: nat) -> Seq<u8> {
    if room < 10 {
        Seq::empty()
    } else {
        wire::chunk_bytes(
            wire::CHUNK_FEEDBACK as nat,
            receiver.feedback(receive::feedback_count(receiver.missing.len(), room)),
        )
    }
}

impl ConnectionState {
    pub open spec fn valid(self) -> bool {
        &&& self.sender.valid()
        &&& self.receiver.valid()
    }

    /// The feedback chunk of the next packet, where there is room for `room` bytes.
    pub open spec fn next_feedback(self, room: int) -> Seq<u8> {
        feedback_part(
            self.receiver,
            if room - HEADER_SIZE < MAX_FEEDBACK_SIZE {
                (room - HEADER_SIZE) as nat
            } else {
                MAX_FEEDBACK_SIZE as nat
            },
        )
    }

    /// The stretches of the stream that the next packet carries, where there is room for
    /// `room` bytes.
    pub open spec fn next_sent(self, room: int) -> Seq<(u64, u64)> {
        sende::plan(self.sender.pending, room - HEADER_SIZE - self.next_feedback(room).len())
    }

    /// The next packet, where there is room for `room` bytes.
    pub open spec fn next_packet(self, room: int) -> Seq<u8> {
        wire::le_bytes(self.next_seq as nat, 4) + wire::le_bytes(self.sender.front() as nat, 8)
            + self.next_feedback(room) + self.sender.chunks(self.next_sent(room))
    }

    /// What a packet of the other side that arrives at the time `now` leads to: the new state,
    /// and what stopped it, if anything.
    pub open spec fn take_in(self, packet: Seq<u8>, now: u64) -> (
        ConnectionState,
        Result<(), SenderError>,
    ) {
        if packet.len() < HEADER_SIZE {
            (self, Err(SenderError::IoError { kind: ErrorKind::UnexpectedEof }))
        } else {
            let front = wire::le_value(packet.subrange(4, 12)) as u64;
            let (receiver, sender, result) = exchange_from(
                self.receiver.announce(front, now),
                self.sender,
                packet,
                HEADER_SIZE as int,
                now,
            );
            (ConnectionState { receiver, sender, ..self }, result)
        }
    }

    /// How many packets may be sent at the time `now`: none before the next packet's time, and
    /// then one more for each delay that has passed since.
    pub open spec fn due(self, now: u64) -> int {
        if now < self.next_send_time {
            0
        } else if self.send_delay == 0 {
            1
        } else {
            let passed = (now - self.next_send_time) / self.send_delay as int;
            if passed < u64::MAX {
                passed + 1
            } else {
                u64::MAX as int
            }
        }
    }

    /// The state after packets were sent at the time `now`.
    pub open spec fn sent_at(self, now: u64) -> ConnectionState {
        ConnectionState {
            next_send_time: if now + self.send_delay > u64::MAX {
                u64::MAX
            } else {
                (now + self.send_delay) as u64
            },
            ..self
        }
    }

    /// How many bytes a reader with room for `room` bytes gets.
    pub open spec fn readable(self, room: nat) -> nat {
        self.receiver.readable(room)
    }
}

/// Whether a sender can act on feedback to its end depends on its stream's front alone.
proof fn lemma_requeue_ok(state: SenderState, chunk: Seq<u8>, pos: int)
    requires
        0 <= pos <= chunk.len(),
    ensures
        sende::requeue_from(state, chunk, pos).1 is Ok <==> entries_ok(chunk, pos, state.front()),
    decreases chunk.len() - pos,
{
    if pos < chunk.len() && pos + 10 <= chunk.len() {
        wire::lemma_le_value_range(chunk.subrange(pos, pos + 8));
        wire::lemma_le_ranges();
        let offset = wire::le_value(chunk.subrange(pos, pos + 8)) as u64;
        let size = wire::le_value(chunk.subrange(pos + 8, pos + 10)) as u16;
        if offset <= state.front() {
            let next = state.requeue(offset, size);
            assert(next.front() == state.front());
            lemma_requeue_ok(next, chunk, pos + 10);
        }
    }
}

/// A sender acts on a feedback chunk to its end exactly where the chunk is in order.
pub proof fn lemma_feedback_ok(state: SenderState, chunk: Seq<u8>)
    requires
        state.valid(),
    ensures
        sende::feedback_effect(state, chunk).1 is Ok <==> feedback_ok(chunk, state.front()),
{
    if chunk.len() >= 8 {
        wire::lemma_le_value_range(chunk.take(8));
        wire::lemma_le_ranges();
        let offset = wire::le_value(chunk.take(8)) as u64;
        if offset <= state.front() {
            assert(state.confirm(offset).front() == state.front());
            lemma_requeue_ok(state.confirm(offset), chunk, 8);
        }
    }
}

/// Tells whether a sender whose stream was written up to `front` can act on the whole feedback
/// chunk.
pub fn is_feedback_ok(chunk: &[u8], front: u64) -> (r: bool)
    ensures
        r == feedback_ok(chunk@, front as int),
{
    match wire::read_u64(chunk) {
        None => {
            return false;
        },
        Some(confirmed) => {
            proof {
                wire::lemma_le_value_range(chunk@.take(8));
                wire::lemma_le_ranges();
            }
            if confirmed > front {
                return false;
            }
        },
    }
    let mut pos: usize = 8;
    while pos < chunk.len()
        invariant
            8 <= pos <= chunk@.len(),
            feedback_ok(chunk@, front as int) == entries_ok(chunk@, pos as int, front as int),
        decreases chunk@.len() - pos,
    {
        let rest: &[u8] = &chunk[pos..chunk.len()];
        if rest.len() < 10 {
            return false;
        }
        proof {
            assert(rest@.take(8) =~= chunk@.subrange(pos as int, pos + 8));
            wire::lemma_le_value_range(rest@.take(8));
            wire::lemma_le_ranges();
        }
        match wire::read_u64(rest) {
            Some(offset) => {
                if offset > front {
                    return false;
                }
            },
            None => {
                return false;
            },
        }
        pos = pos + 10;
    }
    true
}

impl Connection {
    pub closed spec fn wf(&self) -> bool {
        &&& self.sender.wf()
        &&& self.receiver.wf()
    }

    /// What the connection holds is consistent.
    pub proof fn lemma_valid(&self)
        requires
            self.wf(),
        ensures
            self@.valid(),
            self@.receiver.start <= u64::MAX,
    {
        self.sender.lemma_valid();
        self.receiver.lemma_valid();
    }

    /// A new connection, which may send its first packet at once.
    pub fn new(params: ConnectionParams, now: u64) -> (r: Connection)
        requires
            params.send_buffer_size <= isize::MAX / 2 + 1,
            0 < params.recv_buffer_size <= isize::MAX,
        ensures
            r.wf(),
            r@.sender.start == 0,
            r@.sender.bytes == Seq::<u8>::empty(),
            crate::circ::rounds_up_to(params.send_buffer_size as nat, r@.sender.cap + 1),
            r@.sender.pending == Seq::<(u64, u64)>::empty(),
            r@.receiver.start == 0,
            r@.receiver.known == 0,
            r@.receiver.missing == Seq::<crate::missing::MissingSegment>::empty(),
            r@.receiver.ring == Seq::new(params.recv_buffer_size as nat, |i: int| 0u8),
            r@.next_seq == 0,
            r@.send_delay == params.send_delay,
            r@.retransmit_delay == params.retransmit_delay,
            r@.next_send_time == now,
    {
        Connection {
            send_delay: params.send_delay,
            retransmit_delay: params.retransmit_delay,
            packet_seq: Sequence::new(),
            sender: Sender::new(params.send_buffer_size),
            next_send_time: now,
            receiver: Receiver::with_capacity(params.recv_buffer_size),
        }
    }

    /// Tells whether every segment chunk that [`Connection::receive_packet`] would take in from
    /// `packet` holds its stream offset and ends within the stream's range.
    pub fn packet_is_safe(&self, packet: &[u8]) -> (r: bool)
        requires
            self.wf(),
        ensures
            r == exchange_safe(packet@, HEADER_SIZE as int, self@.sender.front()),
    {
        if packet.len() < HEADER_SIZE {
            return true;
        }
        let front: u64 = self.sender.stream_front();
        let mut pos: usize = HEADER_SIZE;
        loop
            invariant
                HEADER_SIZE <= pos <= packet@.len(),
                exchange_safe(packet@, HEADER_SIZE as int, front as int) == exchange_safe(
                    packet@,
                    pos as int,
                    front as int,
                ),
                front == self@.sender.front(),
            decreases packet@.len() - pos,
        {
            match wire::next_chunk(packet, pos) {
                ChunkStep::Chunk { kind, begin, end } => {
                    let chunk: &[u8] = &packet[begin..end];
                    assert(chunk@ =~= wire::chunk_body(packet@, pos as int));
                    if kind == wire::CHUNK_SEGMENT {
                        if !receive::is_segment_ok(chunk) {
                            return false;
                        }
                    } else if kind == wire::CHUNK_FEEDBACK {
                        if !is_feedback_ok(chunk, front) {
                            return true;
                        }
                    } else {
                        return true;
                    }
                    pos = end;
                },
                _ => {
                    return true;
                },
            }
        }
    }

    /// Takes in a packet of the other side at the time `now`: how far its stream reaches, and
    /// the chunks. Stops at the first chunk that cannot be read; those before it stay taken in.
    pub fn receive_packet(&mut self, now: u64, packet: &[u8]) -> (r: Result<(), SenderError>)
        requires
            old(self).wf(),
            exchange_safe(packet@, HEADER_SIZE as int, old(self)@.sender.front()),
        ensures
            final(self).wf(),
            (final(self)@, r) == old(self)@.take_in(packet@, now),
    {
        match wire::read_u32(packet) {
            Some(_packet_seq) => {},
            None => {
                return Err(SenderError::IoError { kind: ErrorKind::UnexpectedEof });
            },
        }
        let rest: &[u8] = &packet[4..packet.len()];
        let stream_front: u64 = match wire::read_u64(rest) {
            Some(stream_front) => stream_front,
            None => {
                return Err(SenderError::IoError { kind: ErrorKind::UnexpectedEof });
            },
        };
        assert(rest@.take(8) =~= packet@.subrange(4, 12));
        self.receiver.update_stream_front(stream_front, now);
        let ghost announced = self.receiver@;
        let mut pos: usize = HEADER_SIZE;
        loop
            invariant
                HEADER_SIZE <= pos <= packet@.len(),
                self.wf(),
                self@ == (ConnectionState {
                    receiver: self@.receiver,
                    sender: self@.sender,
                    ..old(self)@
                }),
                self@.sender.front() == old(self)@.sender.front(),
                stream_front == wire::le_value(packet@.subrange(4, 12)) as u64,
                announced == old(self)@.receiver.announce(stream_front, now),
                exchange_safe(packet@, pos as int, old(self)@.sender.front()),
                exchange_from(
                    announced,
                    old(self)@.sender,
                    packet@,
                    HEADER_SIZE as int,
                    now,
                ) == exchange_from(self@.receiver, self@.sender, packet@, pos as int, now),
            decreases packet@.len() - pos,
        {
            match wire::next_chunk(packet, pos) {
                ChunkStep::End => {
                    return Ok(());
                },
                ChunkStep::Truncated { .. } => {
                    return Err(SenderError::IoError { kind: ErrorKind::UnexpectedEof });
                },
                ChunkStep::Chunk { kind, begin, end } => {
                    let chunk: &[u8] = &packet[begin..end];
                    assert(chunk@ =~= wire::chunk_body(packet@, pos as int));
                    if kind == wire::CHUNK_SEGMENT {
                        let _ = self.receiver.read_chunk_segment(chunk, now);
                    } else if kind == wire::CHUNK_FEEDBACK {
                        proof {
                            self.lemma_valid();
                            lemma_feedback_ok(self@.sender, chunk@);
                        }
                        match self.sender.read_chunk_feedback(chunk) {
                            Ok(_) => {},
                            Err(error) => {
                                return Err(error);
                            },
                        }
                    } else {
                        return Err(SenderError::IoError { kind: ErrorKind::InvalidData });
                    }
                    pos = end;
                },
            }
        }
    }

    /// When the next packet may be sent.
    pub fn next_packet_time(&self) -> (r: u64)
        ensures
            r == self@.next_send_time,
    {
        self.next_send_time
    }

    /// How many packets may be sent at the time `now`: none before the next packet's time, and
    /// then one more for each delay that has passed since.
    pub fn packets_available(&self, now: u64) -> (r: u64)
        ensures
            r == self@.due(now),
    {
        if now < self.next_send_time {
            return 0;
        }
        if self.send_delay == 0 {
            return 1;
        }
        let passed: u64 = (now - self.next_send_time) / self.send_delay;
        if passed < u64::MAX {
            passed + 1
        } else {
            u64::MAX
        }
    }

    /// Notes that packets were sent at the time `now`.
    pub fn update_sent_time(&mut self, now: u64)
        requires
            old(self).wf(),
        ensures
            final(self).wf(),
            final(self)@ == old(self)@.sent_at(now),
    {
        self.next_send_time = if self.send_delay > u64::MAX - now {
            u64::MAX
        } else {
            now + self.send_delay
        };
    }

    /// Tells whether the chunks of the next packet, where there is room for `room` bytes, are
    /// all short enough for a chunk head to hold their size.
    pub fn packet_fits(&self, room: usize) -> (r: bool)
        requires
            self.wf(),
            MIN_PACKET_SIZE <= room,
        ensures
            r == sende::sizes_fit(self@.next_sent(room as int)),
    {
        let left: usize = room - HEADER_SIZE;
        let feedback_room: usize = if left < MAX_FEEDBACK_SIZE {
            left
        } else {
            MAX_FEEDBACK_SIZE
        };
        let feedback_size: usize = self.receiver.feedback_size(feedback_room);
        assert(feedback_size == self@.next_feedback(room as int).len());
        self.sender.payload_fits(left - feedback_size)
    }

    /// Writes the next packet into `packet` and returns its size: the header, feedback on the
    /// other side's stream, and as much of the own stream as fits.
    pub fn generate_packet(&mut self, packet: &mut [u8]) -> (r: Result<usize, SenderError>)
        requires
            old(self).wf(),
            sende::sizes_fit(old(self)@.next_sent(old(packet)@.len() as int)),
        ensures
            final(self).wf(),
            r is Ok <==> old(packet)@.len() >= 4 + 8 + 2,
            if old(packet)@.len() < MIN_PACKET_SIZE {
                &&& r == Err::<usize, _>(SenderError::BufferTooSmall)
                &&& final(self)@ == old(self)@
                &&& final(packet)@ == old(packet)@
            } else {
                let room = old(packet)@.len() as int;
                let bytes = old(self)@.next_packet(room);
                let sent = old(self)@.next_sent(room);
                &&& r == Ok::<usize, SenderError>(bytes.len() as usize)
                &&& bytes.len() <= room
                &&& final(packet)@ == wire::overwrite(old(packet)@, 0, bytes)
                &&& final(self)@ == (ConnectionState {
                    next_seq: ((old(self)@.next_seq + 1) % 0x1_0000_0000) as u32,
                    sender: old(self)@.sender.after_sending(sent),
                    ..old(self)@
                })
                &&& sende::taken_off(
                    old(self)@.sender.pending,
                    sent,
                    final(self)@.sender.pending,
                )
            },
    {
        if packet.len() < MIN_PACKET_SIZE {
            return Err(SenderError::BufferTooSmall);
        }
        let ghost pre = self@;
        let ghost packet0 = packet@;
        let total: usize = packet.len();
        let seq: u32 = self.packet_seq.next();
        let front: u64 = self.sender.stream_front();
        wire::write_u32(packet, 0, seq);
        wire::write_u64(packet, 4, front);
        let left: usize = total - HEADER_SIZE;
        let room: usize = if left < MAX_FEEDBACK_SIZE {
            left
        } else {
            MAX_FEEDBACK_SIZE
        };
        let ghost number = wire::le_bytes(seq as nat, 4);
        let ghost reach = wire::le_bytes(front as nat, 8);
        let ghost feedback = pre.next_feedback(total as int);
        proof {
            wire::lemma_le_bytes_len(seq as nat, 4);
            wire::lemma_le_bytes_len(front as nat, 8);
            wire::lemma_overwrite_append(packet0, 0, number, reach);
        }
        let ghost packet1 = packet@;
        let feedback_size: usize = self.receiver.make_chunk_feedback(packet, HEADER_SIZE, room);
        proof {
            assert(feedback.len() == feedback_size);
            assert(packet@ =~= wire::overwrite(packet1, HEADER_SIZE as int, feedback));
            wire::lemma_overwrite_append(packet0, 0, number + reach, feedback);
        }
        let payload_size: usize = self.sender.make_chunk_payload(
            packet,
            HEADER_SIZE + feedback_size,
        );
        proof {
            wire::lemma_overwrite_append(
                packet0,
                0,
                number + reach + feedback,
                pre.sender.chunks(pre.next_sent(total as int)),
            );
        }
        Ok(HEADER_SIZE + feedback_size + payload_size)
    }

    /// Takes in what the source has, as far as there is room, and marks it to be sent.
    /// Returns how many bytes that was.
    pub fn write_from<S: CircRead>(&mut self, source: &mut S) -> (r: Result<usize, ErrorKind>)
        requires
            old(self).wf(),
            old(source).next_read(
                old(self)@.sender.cap,
                (old(self)@.sender.cap - old(self)@.sender.bytes.len()) as nat,
            ) matches Ok(more) ==> old(self)@.sender.front() + more.len() <= u64::MAX,
        ensures
            final(self).wf(),
            match old(source).next_read(
                old(self)@.sender.cap,
                (old(self)@.sender.cap - old(self)@.sender.bytes.len()) as nat,
            ) {
                Ok(more) => {
                    &&& r == Ok::<usize, ErrorKind>(more.len() as usize)
                    &&& final(self)@ == (ConnectionState {
                        sender: old(self)@.sender.extend(more),
                        ..old(self)@
                    })
                },
                Err(error) => {
                    &&& r == Err::<usize, ErrorKind>(error)
                    &&& final(self)@ == old(self)@
                },
            },
    {
        self.sender.write_from(source)
    }

    /// Stream offset of the end of what was taken in of the own stream.
    pub fn stream_front(&self) -> (r: u64)
        requires
            self.wf(),
        ensures
            r == self@.sender.front(),
    {
        self.sender.stream_front()
    }

    /// How many bytes of the own stream the other side has not confirmed.
    pub fn send_left(&self) -> (r: usize)
        ensures
            r == self@.sender.bytes.len(),
    {
        self.sender.len()
    }

    /// How many more bytes of the own stream can be taken in.
    pub fn buffer_free(&self) -> (r: usize)
        requires
            self.wf(),
        ensures
            r == self@.sender.cap - self@.sender.bytes.len(),
    {
        self.sender.buffer_free()
    }

    /// Whether something of the own stream is still to be sent.
    pub fn have_data_to_send(&self) -> (r: bool)
        ensures
            r == (self@.sender.pending.len() > 0),
    {
        self.sender.have_data_to_send()
    }

    /// How many bytes of the other side's stream can be read at once.
    pub fn data_to_read(&self) -> (r: usize)
        requires
            self.wf(),
        ensures
            r == self@.receiver.available(),
    {
        self.receiver.data_to_read()
    }

    /// Hands out the next bytes of the other side's stream, up to the first missing one or to
    /// the end of `buf`, and returns how many there were.
    pub fn read(&mut self, buf: &mut [u8]) -> (r: Result<usize, ErrorKind>)
        requires
            old(self).wf(),
        ensures
            final(self).wf(),
            ({
                let n = old(self)@.readable(old(buf)@.len());
                &&& r == Ok::<usize, ErrorKind>(n as usize)
                &&& final(buf)@ == wire::overwrite(
                    old(buf)@,
                    0,
                    old(self)@.receiver.ring.take(n as int),
                )
                &&& final(self)@ == (ConnectionState {
                    receiver: old(self)@.receiver.advance(n),
                    ..old(self)@
                })
            }),
    {
        self.receiver.read(buf)
    }
}

} // verus!
