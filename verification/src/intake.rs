//! How a connection takes in a packet: chunk by chunk.

use crate::connection;
use crate::connection::ConnectionState;
use crate::error::{ErrorKind, SenderError};
use crate::receive::ReceiverState;
use crate::sende;
use crate::sende::SenderState;
use crate::wire;
use vstd::prelude::*;

verus! {

/// A chunk of a connection's packet.
pub enum Part {
    /// A piece of the other side's stream.
    Segment { body: Seq<u8> },
    /// Feedback on the own stream.
    Feedback { body: Seq<u8> },
}

/// The data of a chunk.
pub open spec fn body_of(part: Part) -> Seq<u8> {
    match part {
        Part::Segment { body } => body,
        Part::Feedback { body } => body,
    }
}

/// The type of a chunk.
pub open spec fn kind_of(part: Part) -> nat {
    match part {
        Part::Segment { body } => 0,
        Part::Feedback { body } => 1,
    }
}

/// The bytes of some chunks, one after the other.
pub open spec fn part_bytes(parts: Seq<Part>) -> Seq<u8>
    decreases parts.len(),
{
    if parts.len() == 0 {
        Seq::empty()
    } else {
        wire::chunk_bytes(kind_of(parts[0]), body_of(parts[0])) + part_bytes(parts.skip(1))
    }
}

/// Both directions after some chunks, up to the first feedback that is refused, and why it was.
pub open spec fn after_parts(
    receiver: ReceiverState,
    sender: SenderState,
    parts: Seq<Part>,
    now: u64,
) -> (ReceiverState, SenderState, Option<SenderError>)
    decreases parts.len(),
{
    if parts.len() == 0 {
        (receiver, sender, None)
    } else {
        match parts[0] {
            Part::Segment { body } => after_parts(
                receiver.accept(wire::le_value(body.take(8)) as u64, body.skip(8), now),
                sender,
                parts.skip(1),
                now,
            ),
            Part::Feedback { body } => {
                let (acted, result) = sende::feedback_effect(sender, body);
                match result {
                    Ok(_) => after_parts(receiver, acted, parts.skip(1), now),
                    Err(error) => (receiver, acted, Some(error)),
                }
            },
        }
    }
}

/// A chunk can be named by its head.
pub open spec fn parts_fit(parts: Seq<Part>) -> bool {
    forall|i: int| 0 <= i < parts.len() ==> body_of(#[trigger] parts[i]).len() < 2048
}

/// The first of some chunks is read as what it is, and the rest follow.
proof fn lemma_first_part(data: Seq<u8>, pos: int, parts: Seq<Part>, tail: Seq<u8>)
    requires
        0 <= pos <= data.len() <= usize::MAX,
        data.skip(pos) == part_bytes(parts) + tail,
        parts_fit(parts),
        parts.len() > 0,
    ensures
        ({
            let body = body_of(parts[0]);
            let next = pos + 2 + body.len();
            &&& wire::chunk_kind(data, pos) == kind_of(parts[0])
            &&& wire::chunk_size(data, pos) == body.len()
            &&& wire::chunk_body(data, pos) == body
            &&& next <= data.len()
            &&& data.skip(next) == part_bytes(parts.skip(1)) + tail
            &&& parts_fit(parts.skip(1))
        }),
{
    let body = body_of(parts[0]);
    let kind = kind_of(parts[0]);
    let rest = parts.skip(1);
    let next = pos + 2 + body.len();
    let chunk = wire::chunk_bytes(kind, body);
    let whole = chunk + (part_bytes(rest) + tail);
    wire::law_chunk_layout(kind, body);
    assert(data.skip(pos) =~= whole);
    assert(data.subrange(pos, next) =~= data.skip(pos).take(2 + body.len() as int));
    assert(whole.take(2 + body.len() as int) =~= chunk);
    wire::law_chunk_round_trip(data, pos, kind, body);
    assert(data.skip(next) =~= data.skip(pos).skip(2 + body.len() as int));
    assert(whole.skip(2 + body.len() as int) =~= part_bytes(rest) + tail);
    assert forall|i: int| 0 <= i < rest.len() implies body_of(#[trigger] rest[i]).len() < 2048 by {
        assert(rest[i] == parts[i + 1]);
    }
}

proof fn lemma_exchange_of_parts(
    receiver: ReceiverState,
    sender: SenderState,
    data: Seq<u8>,
    pos: int,
    parts: Seq<Part>,
    tail: Seq<u8>,
    now: u64,
)
    requires
        0 <= pos <= data.len() <= usize::MAX,
        data.skip(pos) == part_bytes(parts) + tail,
        parts_fit(parts),
    ensures
        ({
            let (r, s, refused) = after_parts(receiver, sender, parts, now);
            connection::exchange_from(receiver, sender, data, pos, now) == match refused {
                Some(error) => (r, s, Err::<(), SenderError>(error)),
                None => connection::exchange_from(r, s, data, data.len() - tail.len(), now),
            }
        }),
    decreases parts.len(),
{
    if parts.len() == 0 {
        assert(part_bytes(parts) + tail =~= tail);
        assert(data.skip(pos).len() == tail.len());
    } else {
        lemma_first_part(data, pos, parts, tail);
        let rest = parts.skip(1);
        let next = pos + 2 + body_of(parts[0]).len();
        match parts[0] {
            Part::Segment { body } => {
                let one = receiver.accept(wire::le_value(body.take(8)) as u64, body.skip(8), now);
                lemma_exchange_of_parts(one, sender, data, next, rest, tail, now);
            },
            Part::Feedback { body } => {
                let (acted, result) = sende::feedback_effect(sender, body);
                if result is Ok {
                    lemma_exchange_of_parts(receiver, acted, data, next, rest, tail, now);
                }
            },
        }
    }
}

/// A packet, by what it holds.
pub open spec fn packet_of(number: Seq<u8>, front: u64, parts: Seq<Part>, tail: Seq<u8>) -> Seq<u8> {
    number + wire::le_bytes(front as nat, 8) + (part_bytes(parts) + tail)
}

/// What the bytes behind the last whole chunk of a packet come to: nothing, where there are
/// fewer than two; otherwise an error, as they announce a chunk that is not all there or that is
/// neither a segment nor feedback.
pub open spec fn tail_result(tail: Seq<u8>) -> Result<(), SenderError> {
    if tail.len() < 2 {
        Ok(())
    } else if tail.len() - 2 < tail[0] + 256 * (tail[1] % 8) {
        Err(SenderError::IoError { kind: ErrorKind::UnexpectedEof })
    } else {
        Err(SenderError::IoError { kind: ErrorKind::InvalidData })
    }
}

/// No segment and no feedback stands at the beginning of these bytes.
pub open spec fn no_part_follows(tail: Seq<u8>) -> bool {
    tail.len() < 2 || tail.len() - 2 < tail[0] + 256 * (tail[1] % 8) || tail[1] / 8 >= 2
}

/// A connection takes in a packet from its beginning: it learns how far the other side's stream
/// reaches, and takes in the chunks one after the other, all of them, up to the first feedback
/// that is refused. What is behind the last whole chunk decides the result. The packet's number
/// changes nothing, and neither do the own packet's number and times change.
pub proof fn law_packet_is_taken_in_chunk_by_chunk(
    state: ConnectionState,
    number: Seq<u8>,
    front: u64,
    parts: Seq<Part>,
    tail: Seq<u8>,
    now: u64,
)
    requires
        number.len() == 4,
        parts_fit(parts),
        no_part_follows(tail),
        packet_of(number, front, parts, tail).len() <= usize::MAX,
    ensures
        ({
            let (receiver, sender, refused) = after_parts(
                state.receiver.announce(front, now),
                state.sender,
                parts,
                now,
            );
            let (after, result) = state.take_in(packet_of(number, front, parts, tail), now);
            &&& after.receiver == receiver
            &&& after.sender == sender
            &&& result == match refused {
                Some(error) => Err::<(), SenderError>(error),
                None => tail_result(tail),
            }
            &&& after.next_seq == state.next_seq
            &&& after.send_delay == state.send_delay
            &&& after.retransmit_delay == state.retransmit_delay
            &&& after.next_send_time == state.next_send_time
        }),
{
    let packet = packet_of(number, front, parts, tail);
    let announced = state.receiver.announce(front, now);
    let at = packet.len() - tail.len();
    wire::lemma_le_bytes_len(front as nat, 8);
    wire::lemma_le_ranges();
    wire::law_number_round_trip(front as nat, 8);
    assert(packet.subrange(4, 12) =~= wire::le_bytes(front as nat, 8));
    assert(packet.skip(12) =~= part_bytes(parts) + tail);
    lemma_exchange_of_parts(announced, state.sender, packet, 12, parts, tail, now);
    if tail.len() >= 2 {
        assert(packet[at] == tail[0]);
        assert(packet[at + 1] == tail[1]);
        wire::law_chunk_head_is_read_by_its_layout(packet, at);
    }
}

/// A packet that is too short for its own fields is refused and changes nothing.
pub proof fn law_short_packet_changes_nothing(state: ConnectionState, packet: Seq<u8>, now: u64)
    requires
        packet.len() < 4 + 8,
    ensures
        state.take_in(packet, now) == (
            state,
            Err::<(), SenderError>(SenderError::IoError { kind: ErrorKind::UnexpectedEof }),
        ),
{
}

/// A segment holds its stream offset and ends within the stream's range.
pub open spec fn is_sound(part: Part) -> bool {
    match part {
        Part::Segment { body } => body.len() >= 8 && wire::le_value(body.take(8)) + body.len() - 8
            <= u64::MAX,
        Part::Feedback { body } => true,
    }
}

proof fn lemma_safe_parts(
    sender: SenderState,
    data: Seq<u8>,
    pos: int,
    parts: Seq<Part>,
    tail: Seq<u8>,
)
    requires
        sender.valid(),
        0 <= pos <= data.len() <= usize::MAX,
        data.skip(pos) == part_bytes(parts) + tail,
        parts_fit(parts),
        no_part_follows(tail),
        forall|i: int|
            0 <= i < parts.len() ==> ((#[trigger] parts[i]) matches Part::Feedback { body }
                ==> sende::feedback_effect(sender, body).1 is Ok),
    ensures
        connection::exchange_safe(data, pos, sender.front()) <==> forall|i: int|
            0 <= i < parts.len() ==> is_sound(#[trigger] parts[i]),
    decreases parts.len(),
{
    let front = sender.front();
    if parts.len() == 0 {
        assert(part_bytes(parts) + tail =~= tail);
        assert(data.skip(pos) == tail);
        assert(pos == data.len() - tail.len());
        if tail.len() >= 2 {
            assert(data[pos] == data.skip(pos)[0]);
            assert(data[pos + 1] == data.skip(pos)[1]);
            wire::law_chunk_head_is_read_by_its_layout(data, pos);
        }
    } else {
        lemma_first_part(data, pos, parts, tail);
        let rest = parts.skip(1);
        let next = pos + 2 + body_of(parts[0]).len();
        assert forall|i: int| 0 <= i < rest.len() implies ((#[trigger] rest[i]) matches
            Part::Feedback { body } ==> sende::feedback_effect(sender, body).1 is Ok) by {
            assert(rest[i] == parts[i + 1]);
        }
        lemma_safe_parts(sender, data, next, rest, tail);
        if let Part::Feedback { body } = parts[0] {
            assert(sende::feedback_effect(sender, body).1 is Ok);
            connection::lemma_feedback_ok(sender, body);
        }
        assert((forall|i: int| 0 <= i < parts.len() ==> is_sound(#[trigger] parts[i])) <==> (
        is_sound(parts[0]) && forall|i: int| 0 <= i < rest.len() ==> is_sound(#[trigger] rest[i])))
            by {
            if forall|i: int| 0 <= i < parts.len() ==> is_sound(#[trigger] parts[i]) {
                assert forall|i: int| 0 <= i < rest.len() implies is_sound(#[trigger] rest[i]) by {
                    assert(rest[i] == parts[i + 1]);
                }
            }
            if is_sound(parts[0]) && forall|i: int|
                0 <= i < rest.len() ==> is_sound(#[trigger] rest[i]) {
                assert forall|i: int| 0 <= i < parts.len() implies is_sound(#[trigger] parts[i]) by {
                    if i > 0 {
                        assert(rest[i - 1] == parts[i]);
                    }
                }
            }
        }
    }
}

/// A packet whose feedback is in order can be taken in exactly where all its segments are sound.
pub proof fn law_packet_is_safe_where_its_segments_are_sound(
    sender: SenderState,
    number: Seq<u8>,
    front: u64,
    parts: Seq<Part>,
    tail: Seq<u8>,
)
    requires
        sender.valid(),
        number.len() == 4,
        parts_fit(parts),
        no_part_follows(tail),
        packet_of(number, front, parts, tail).len() <= usize::MAX,
        forall|i: int|
            0 <= i < parts.len() ==> ((#[trigger] parts[i]) matches Part::Feedback { body }
                ==> sende::feedback_effect(sender, body).1 is Ok),
    ensures
        connection::exchange_safe(packet_of(number, front, parts, tail), 12, sender.front())
            <==> forall|i: int| 0 <= i < parts.len() ==> is_sound(#[trigger] parts[i]),
{
    let packet = packet_of(number, front, parts, tail);
    wire::lemma_le_bytes_len(front as nat, 8);
    assert(packet.skip(12) =~= part_bytes(parts) + tail);
    lemma_safe_parts(sender, packet, 12, parts, tail);
}

/// Nothing behind feedback that is refused makes a packet one that cannot be taken in.
pub proof fn law_refused_feedback_ends_a_packet(
    sender: SenderState,
    data: Seq<u8>,
    pos: int,
    body: Seq<u8>,
    rest: Seq<u8>,
)
    requires
        sender.valid(),
        0 <= pos <= data.len() <= usize::MAX,
        data.skip(pos) == wire::chunk_bytes(1, body) + rest,
        body.len() < 2048,
        sende::feedback_effect(sender, body).1 is Err,
    ensures
        connection::exchange_safe(data, pos, sender.front()),
{
    let parts = seq![Part::Feedback { body }];
    assert(parts.skip(1) =~= Seq::empty());
    assert(part_bytes(parts.skip(1)) =~= Seq::empty());
    assert(part_bytes(parts) =~= wire::chunk_bytes(1, body));
    lemma_first_part(data, pos, parts, rest);
    connection::lemma_feedback_ok(sender, body);
}

} // verus!
