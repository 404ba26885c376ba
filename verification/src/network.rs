//! What becomes of a packet at the other end, and what feedback leads to.

use crate::connection;
use crate::connection::ConnectionState;
use crate::delivery;
use crate::delivery::Stream;
use crate::error::{ReceiveError, SenderError};
use crate::missing;
use crate::missing::MissingSegment;
use crate::range_set;
use crate::receive;
use crate::receive::ReceiverState;
use crate::sende;
use crate::sende::SenderState;
use crate::wire;
use vstd::prelude::*;

verus! {

/// What a sender keeps is the stream.
pub open spec fn sends(state: SenderState, stream: Stream) -> bool {
    delivery::piece_of(state.start, state.bytes, stream)
}

/// Each of the stretches is kept by the sender and fits a chunk.
pub open spec fn sendable(state: SenderState, list: Seq<(u64, u64)>) -> bool {
    &&& sende::range_within(list, state.start, state.front())
    &&& sende::sizes_fit(list)
    &&& forall|i: int| 0 <= i < list.len() ==> (#[trigger] list[i]).0 < list[i].1
}

/// What is planned to be sent can be, as far as the chunk heads can hold the sizes.
pub proof fn law_planned_is_sendable(state: SenderState, left: int)
    requires
        state.valid(),
        sende::sizes_fit(sende::plan(state.pending, left)),
    ensures
        sendable(state, sende::plan(state.pending, left)),
        forall|x: int| #[trigger]
            range_set::covers(sende::plan(state.pending, left), x) ==> range_set::covers(
                state.pending,
                x,
            ),
{
    let list = sende::plan(state.pending, left);
    sende::lemma_plan(state, state.pending, left);
    assert forall|x: int| #[trigger] range_set::covers(list, x) implies range_set::covers(
        state.pending,
        x,
    ) by {
        let i = choose|i: int| 0 <= i < list.len() && (#[trigger] list[i]).0 <= x < list[i].1;
        assert(state.pending[i].0 <= x < state.pending[i].1);
    }
}

/// The first of some chunks reads back as what it carries, and the rest follow.
pub proof fn lemma_read_first(state: SenderState, data: Seq<u8>, pos: int, list: Seq<(u64, u64)>)
    requires
        state.front() <= u64::MAX,
        0 <= state.start,
        sendable(state, list),
        list.len() > 0,
        0 <= pos <= data.len() <= usize::MAX,
        data.skip(pos) == state.chunks(list),
    ensures
        ({
            let size = list[0].1 - list[0].0 + 8;
            let chunk = wire::chunk_body(data, pos);
            &&& wire::chunk_kind(data, pos) == wire::CHUNK_SEGMENT
            &&& wire::chunk_size(data, pos) == size
            &&& pos + 2 + size <= data.len()
            &&& receive::segment_ok(chunk)
            &&& receive::le_offset(chunk) == list[0].0
            &&& chunk.skip(8) == state.stretch(list[0])
            &&& data.skip(pos + 2 + size) == state.chunks(list.skip(1))
        }),
{
    let range = list[0];
    let offset = wire::le_bytes(range.0 as nat, 8);
    let body = offset + state.stretch(range);
    let size = range.1 - range.0 + 8;
    assert(range.0 < range.1 && state.start <= range.0 && range.1 <= state.front());
    assert(range.1 - range.0 + 8 < wire::CHUNK_SIZE_LIMIT);
    sende::lemma_chunks_front(state, list);
    wire::lemma_le_bytes_len(range.0 as nat, 8);
    wire::lemma_le_bytes_len(wire::chunk_head(0, body.len()), 2);
    assert(body.len() == size);
    let first = state.chunk(range);
    let rest = state.chunks(list.skip(1));
    assert(data.skip(pos) == first + rest);
    assert(first.len() == 2 + body.len());
    assert(data.skip(pos).len() == first.len() + rest.len());
    assert(data.subrange(pos, pos + 2 + body.len()) =~= data.skip(pos).take(first.len() as int));
    assert((first + rest).take(first.len() as int) =~= first);
    wire::law_chunk_round_trip(data, pos, 0, body);
    assert(data.skip(pos + 2 + size) =~= data.skip(pos).skip(2 + size));
    assert((first + rest).skip(2 + size) =~= rest);
    wire::lemma_le_ranges();
    wire::law_number_round_trip(range.0 as nat, 8);
    assert(body.take(8) =~= offset);
    assert(body.skip(8) =~= state.stretch(range));
}

proof fn lemma_sendable_rest(state: SenderState, list: Seq<(u64, u64)>)
    requires
        sendable(state, list),
        list.len() > 0,
    ensures
        sendable(state, list.skip(1)),
{
    let rest = list.skip(1);
    assert forall|i: int| 0 <= i < rest.len() implies (#[trigger] rest[i]).0 < rest[i].1
        && state.start <= rest[i].0 && rest[i].1 <= state.front() && rest[i].1 - rest[i].0 + 8
        < wire::CHUNK_SIZE_LIMIT by {
        assert(rest[i] == list[i + 1]);
    }
}

proof fn lemma_covers_front(list: Seq<(u64, u64)>, x: int)
    requires
        list.len() > 0,
    ensures
        range_set::covers(list, x) <==> list[0].0 <= x < list[0].1 || range_set::covers(
            list.skip(1),
            x,
        ),
{
    let rest = list.skip(1);
    if range_set::covers(rest, x) {
        let i = choose|i: int| 0 <= i < rest.len() && (#[trigger] rest[i]).0 <= x < rest[i].1;
        assert(list[i + 1] == rest[i]);
    }
    if range_set::covers(list, x) {
        let i = choose|i: int| 0 <= i < list.len() && (#[trigger] list[i]).0 <= x < list[i].1;
        if i > 0 {
            assert(rest[i - 1] == list[i]);
        }
    }
}

proof fn lemma_stretch_is_piece(state: SenderState, range: (u64, u64), stream: Stream)
    requires
        sends(state, stream),
        state.start <= range.0 <= range.1 <= state.front(),
    ensures
        delivery::piece_of(range.0 as int, state.stretch(range), stream),
{
    assert forall|i: int| 0 <= i < state.stretch(range).len() implies #[trigger] state.stretch(
        range,
    )[i] == stream(range.0 + i) by {
        let k = range.0 - state.start + i;
        assert(state.bytes[k] == stream(state.start + k));
    }
}

proof fn lemma_chunks_are_received(
    state: SenderState,
    data: Seq<u8>,
    pos: int,
    list: Seq<(u64, u64)>,
    receiver: ReceiverState,
    now: u64,
    x: int,
)
    requires
        state.front() <= u64::MAX,
        0 <= state.start,
        sendable(state, list),
        0 <= pos <= data.len() <= usize::MAX,
        data.skip(pos) == state.chunks(list),
        receiver.valid(),
    ensures
        receive::segments_ok(data, pos),
        receive::receive_from(receiver, data, pos, now).1 == Ok::<usize, ReceiveError>(
            data.len() as usize,
        ),
        receive::receive_from(receiver, data, pos, now).0.valid(),
        receive::receive_from(receiver, data, pos, now).0.start == receiver.start,
        receive::receive_from(receiver, data, pos, now).0.has(x) <==> receiver.has(x) || (
        range_set::covers(list, x) && receiver.start <= x < delivery::window_end(receiver)),
    decreases list.len(),
{
    if list.len() == 0 {
        assert(data.skip(pos).len() == 0);
        assert(pos == data.len());
        assert(!range_set::covers(list, x));
    } else {
        lemma_read_first(state, data, pos, list);
        let range = list[0];
        let chunk = wire::chunk_body(data, pos);
        let begin = receive::le_offset(chunk) as u64;
        let payload = chunk.skip(8);
        let next = pos + 2 + wire::chunk_size(data, pos);
        let one = receiver.accept(begin, payload, now);
        let rest = list.skip(1);
        lemma_sendable_rest(state, list);
        assert(range.0 < range.1 && state.start <= range.0 && range.1 <= state.front());
        receive::law_accept_keeps_valid(receiver, begin, payload, now);
        delivery::law_piece_adds_exactly_its_bytes(receiver, begin, payload, now, x);
        lemma_chunks_are_received(state, data, next, rest, one, now, x);
        lemma_covers_front(list, x);
    }
}

/// A packet of a sender is received to its end, and the receiver then has what it had and
/// exactly what the packet carries, as far as its ring has slots for it.
pub proof fn law_packet_is_received(
    state: SenderState,
    sent: Seq<(u64, u64)>,
    receiver: ReceiverState,
    now: u64,
    x: int,
)
    requires
        state.valid(),
        sendable(state, sent),
        sende::packet_bytes(state, sent).len() <= usize::MAX,
        receiver.valid(),
    ensures
        ({
            let packet = sende::packet_bytes(state, sent);
            let (after, result) = receive::receive_from(receiver, packet, 4, now);
            &&& receive::segments_ok(packet, 4)
            &&& result == Ok::<usize, ReceiveError>(packet.len() as usize)
            &&& after.valid()
            &&& after.has(x) <==> receiver.has(x) || (range_set::covers(sent, x) && receiver.start
                <= x < delivery::window_end(receiver))
        }),
{
    let packet = sende::packet_bytes(state, sent);
    wire::lemma_le_bytes_len(state.next_seq as nat, 4);
    assert(packet.skip(4) =~= state.chunks(sent));
    lemma_chunks_are_received(state, packet, 4, sent, receiver, now, x);
}

proof fn lemma_chunks_agree(
    state: SenderState,
    data: Seq<u8>,
    pos: int,
    list: Seq<(u64, u64)>,
    stream: Stream,
)
    requires
        state.front() <= u64::MAX,
        0 <= state.start,
        sendable(state, list),
        0 <= pos <= data.len() <= usize::MAX,
        data.skip(pos) == state.chunks(list),
        sends(state, stream),
    ensures
        delivery::packet_agrees(data, pos, stream),
        carries(data, pos, stream),
    decreases list.len(),
{
    if list.len() == 0 {
        assert(data.skip(pos).len() == 0);
        assert(pos == data.len());
    } else {
        lemma_read_first(state, data, pos, list);
        let rest = list.skip(1);
        let next = pos + 2 + wire::chunk_size(data, pos);
        lemma_sendable_rest(state, list);
        assert(list[0].0 < list[0].1 && state.start <= list[0].0 && list[0].1 <= state.front());
        lemma_stretch_is_piece(state, list[0], stream);
        lemma_chunks_agree(state, data, next, rest, stream);
    }
}

/// What a sender of the stream puts into a packet are pieces of the stream.
pub proof fn law_packet_holds_the_stream(
    state: SenderState,
    sent: Seq<(u64, u64)>,
    stream: Stream,
)
    requires
        state.valid(),
        sendable(state, sent),
        sende::packet_bytes(state, sent).len() <= usize::MAX,
        sends(state, stream),
    ensures
        delivery::packet_agrees(sende::packet_bytes(state, sent), 4, stream),
{
    let packet = sende::packet_bytes(state, sent);
    wire::lemma_le_bytes_len(state.next_seq as nat, 4);
    assert(packet.skip(4) =~= state.chunks(sent));
    lemma_chunks_agree(state, packet, 4, sent, stream);
}

/// A sender of the stream stays one, whatever it does: take in what comes next in the stream,
/// make packets, act on feedback.
pub proof fn law_sender_keeps_the_stream(
    state: SenderState,
    more: Seq<u8>,
    sent: Seq<(u64, u64)>,
    offset: u64,
    size: u16,
    stream: Stream,
)
    requires
        sends(state, stream),
    ensures
        delivery::piece_of(state.front(), more, stream) ==> sends(state.extend(more), stream),
        sends(state.after_sending(sent), stream),
        sends(state.requeue(offset, size), stream),
        offset <= state.front() ==> sends(state.confirm(offset), stream),
{
    if delivery::piece_of(state.front(), more, stream) {
        let next = state.extend(more);
        assert forall|i: int| 0 <= i < next.bytes.len() implies #[trigger] next.bytes[i] == stream(
            next.start + i,
        ) by {
            if i >= state.bytes.len() {
                let k = i - state.bytes.len();
                assert(more[k] == stream(state.front() + k));
            }
        }
    }
    if state.start < offset <= state.front() {
        let next = state.confirm(offset);
        assert forall|i: int| 0 <= i < next.bytes.len() implies #[trigger] next.bytes[i] == stream(
            next.start + i,
        ) by {
            let k = offset - state.start + i;
            assert(state.bytes[k] == stream(state.start + k));
        }
    }
}

/// Every segment chunk of a connection's packet from `pos` on that might be taken in is sound
/// and holds a piece of the stream.
pub open spec fn carries(data: Seq<u8>, pos: int, stream: Stream) -> bool
    decreases data.len() - pos,
{
    let kind = wire::chunk_kind(data, pos);
    let next = pos + 2 + wire::chunk_size(data, pos);
    let chunk = wire::chunk_body(data, pos);
    if pos + 2 > data.len() || next > data.len() {
        true
    } else if kind == wire::CHUNK_SEGMENT {
        &&& receive::segment_ok(chunk)
        &&& delivery::piece_of(receive::le_offset(chunk) as int, chunk.skip(8), stream)
        &&& carries(data, next, stream)
    } else if kind == wire::CHUNK_FEEDBACK {
        carries(data, next, stream)
    } else {
        true
    }
}

/// A packet that carries the stream can be taken in, whatever the own stream's front is.
pub proof fn law_carrying_packet_is_safe(data: Seq<u8>, pos: int, stream: Stream, front: int)
    requires
        0 <= pos,
        carries(data, pos, stream),
    ensures
        connection::exchange_safe(data, pos, front),
    decreases data.len() - pos,
{
    let kind = wire::chunk_kind(data, pos);
    let next = pos + 2 + wire::chunk_size(data, pos);
    if pos + 2 > data.len() || next > data.len() {
    } else if kind == wire::CHUNK_SEGMENT || kind == wire::CHUNK_FEEDBACK {
        law_carrying_packet_is_safe(data, next, stream, front);
    }
}

/// A connection whose peer sends the stream keeps agreeing with the stream when it takes in a
/// packet that carries it, even where the packet is faulty further on, and loses no byte that
/// it had received.
pub proof fn law_exchange_keeps_agreement(
    receiver: ReceiverState,
    sender: SenderState,
    data: Seq<u8>,
    pos: int,
    now: u64,
    stream: Stream,
)
    requires
        0 <= pos,
        receiver.valid(),
        delivery::agrees(receiver, stream),
        carries(data, pos, stream),
    ensures
        ({
            let after = connection::exchange_from(receiver, sender, data, pos, now).0;
            &&& after.valid()
            &&& delivery::agrees(after, stream)
            &&& after.start == receiver.start
            &&& forall|x: int| #[trigger] receiver.has(x) ==> after.has(x)
        }),
    decreases data.len() - pos,
{
    let kind = wire::chunk_kind(data, pos);
    let next = pos + 2 + wire::chunk_size(data, pos);
    let chunk = wire::chunk_body(data, pos);
    if pos + 2 > data.len() || next > data.len() {
    } else if kind == wire::CHUNK_SEGMENT {
        let begin = receive::le_offset(chunk) as u64;
        let payload = chunk.skip(8);
        wire::lemma_le_value_range(chunk.take(8));
        wire::lemma_le_ranges();
        let one = receiver.accept(begin, payload, now);
        receive::law_accept_keeps_valid(receiver, begin, payload, now);
        delivery::law_piece_keeps_agreement(receiver, begin, payload, now, stream);
        law_exchange_keeps_agreement(one, sender, data, next, now, stream);
        let after = connection::exchange_from(receiver, sender, data, pos, now).0;
        assert forall|x: int| #[trigger] receiver.has(x) implies after.has(x) by {
            delivery::law_piece_adds_exactly_its_bytes(receiver, begin, payload, now, x);
            assert(one.has(x));
        }
    } else if kind == wire::CHUNK_FEEDBACK {
        let (acted, result) = sende::feedback_effect(sender, chunk);
        if result is Ok {
            law_exchange_keeps_agreement(receiver, acted, data, next, now, stream);
        }
    }
}

/// Learning how far the stream reaches adds no byte, loses none, and keeps the agreement.
pub proof fn law_announcement_keeps_agreement(
    receiver: ReceiverState,
    front: u64,
    now: u64,
    stream: Stream,
)
    requires
        receiver.valid(),
        delivery::agrees(receiver, stream),
    ensures
        receiver.announce(front, now).valid(),
        delivery::agrees(receiver.announce(front, now), stream),
        receiver.announce(front, now).start == receiver.start,
        forall|x: int| #[trigger] receiver.announce(front, now).has(x) <==> receiver.has(x),
{
    let next = receiver.announce(front, now);
    receive::law_announce_keeps_valid(receiver, front, now);
    assert forall|x: int| #[trigger] next.has(x) <==> receiver.has(x) by {
        if next.missing.len() > receiver.missing.len() {
            delivery::lemma_missing_at_push(receiver.missing, next.missing.last(), x);
        }
    }
    assert forall|x: int| #[trigger] next.has(x) implies next.byte(x) == stream(x) by {
        assert(receiver.has(x));
        assert(receiver.byte(x) == stream(x));
    }
}

/// A packet of a connection carries the connection's own stream.
pub proof fn law_generated_packet_carries_the_stream(
    state: ConnectionState,
    room: int,
    stream: Stream,
)
    requires
        state.valid(),
        state.receiver.start <= u64::MAX,
        connection::MIN_PACKET_SIZE <= room,
        state.next_packet(room).len() <= usize::MAX,
        sende::sizes_fit(state.next_sent(room)),
        sends(state.sender, stream),
    ensures
        carries(state.next_packet(room), connection::HEADER_SIZE as int, stream),
        wire::le_value(state.next_packet(room).subrange(4, 12)) == state.sender.front(),
{
    let packet = state.next_packet(room);
    let number = wire::le_bytes(state.next_seq as nat, 4);
    let reach = wire::le_bytes(state.sender.front() as nat, 8);
    let feedback = state.next_feedback(room);
    let sent = state.next_sent(room);
    let chunks = state.sender.chunks(sent);
    wire::lemma_le_bytes_len(state.next_seq as nat, 4);
    wire::lemma_le_bytes_len(state.sender.front() as nat, 8);
    wire::lemma_le_ranges();
    wire::law_number_round_trip(state.sender.front() as nat, 8);
    assert(packet.subrange(4, 12) =~= reach);
    law_planned_is_sendable(
        state.sender,
        room - connection::HEADER_SIZE - feedback.len(),
    );
    let at = connection::HEADER_SIZE + feedback.len();
    assert(packet.skip(at) =~= chunks);
    lemma_chunks_agree(state.sender, packet, at, sent, stream);
    if feedback.len() > 0 {
        lemma_feedback_first(state, room);
    } else {
        assert(at == connection::HEADER_SIZE);
    }
}

/// The feedback chunk of a packet reads back as feedback, and the rest of the packet follows.
pub proof fn lemma_feedback_first(state: ConnectionState, room: int)
    requires
        state.valid(),
        state.receiver.start <= u64::MAX,
        connection::MIN_PACKET_SIZE <= room,
        state.next_packet(room).len() <= usize::MAX,
        state.next_feedback(room).len() > 0,
    ensures
        ({
            let packet = state.next_packet(room);
            let pos = connection::HEADER_SIZE as int;
            let left = room - connection::HEADER_SIZE;
            let count = receive::feedback_count(
                state.receiver.missing.len(),
                if left < connection::MAX_FEEDBACK_SIZE {
                    left as nat
                } else {
                    connection::MAX_FEEDBACK_SIZE as nat
                },
            );
            &&& count <= state.receiver.missing.len()
            &&& wire::chunk_kind(packet, pos) == wire::CHUNK_FEEDBACK
            &&& wire::chunk_body(packet, pos) == state.receiver.feedback(count)
            &&& pos + 2 + wire::chunk_size(packet, pos) == pos + state.next_feedback(room).len()
                <= packet.len()
        }),
{
    let packet = state.next_packet(room);
    let pos = connection::HEADER_SIZE as int;
    let left = room - connection::HEADER_SIZE;
    let limit = if left < connection::MAX_FEEDBACK_SIZE {
        left as nat
    } else {
        connection::MAX_FEEDBACK_SIZE as nat
    };
    let count = receive::feedback_count(state.receiver.missing.len(), limit);
    let body = state.receiver.feedback(count);
    let feedback = state.next_feedback(room);
    wire::lemma_le_bytes_len(state.next_seq as nat, 4);
    wire::lemma_le_bytes_len(state.sender.front() as nat, 8);
    wire::lemma_le_bytes_len(state.receiver.start as nat, 8);
    receive::lemma_feedback_len(state.receiver, count);
    wire::lemma_le_bytes_len(wire::chunk_head(1, body.len()), 2);
    assert(packet.subrange(pos, pos + 2 + body.len()) =~= feedback);
    wire::law_chunk_round_trip(packet, pos, 1, body);
}

proof fn lemma_entries_front(list: Seq<MissingSegment>)
    requires
        list.len() > 0,
    ensures
        receive::feedback_entries(list) == receive::feedback_entry(list[0])
            + receive::feedback_entries(list.skip(1)),
    decreases list.len(),
{
    let rest = list.skip(1);
    if list.len() == 1 {
        assert(list.drop_last() =~= Seq::empty());
        assert(rest =~= Seq::empty());
        assert(receive::feedback_entries(list) =~= receive::feedback_entry(list[0])
            + receive::feedback_entries(rest));
    } else {
        lemma_entries_front(list.drop_last());
        assert(list.drop_last().skip(1) =~= rest.drop_last());
        assert(rest.last() == list.last());
        assert(receive::feedback_entries(list) =~= receive::feedback_entry(list[0]) + (
        receive::feedback_entries(rest.drop_last()) + receive::feedback_entry(rest.last())));
    }
}

/// One of the entries for `list` in a feedback chunk asks for the byte at `x`.
pub open spec fn asks_for(list: Seq<MissingSegment>, x: int) -> bool {
    exists|i: int|
        0 <= i < list.len() && (#[trigger] list[i]).begin <= x < list[i].begin
            + receive::asked_for(list[i])
}

proof fn lemma_asks_front(list: Seq<MissingSegment>, x: int)
    requires
        list.len() > 0,
    ensures
        asks_for(list, x) <==> list[0].begin <= x < list[0].begin + receive::asked_for(list[0])
            || asks_for(list.skip(1), x),
{
    let rest = list.skip(1);
    if asks_for(rest, x) {
        let i = choose|i: int|
            0 <= i < rest.len() && (#[trigger] rest[i]).begin <= x < rest[i].begin
                + receive::asked_for(rest[i]);
        assert(list[i + 1] == rest[i]);
    }
    if asks_for(list, x) {
        let i = choose|i: int|
            0 <= i < list.len() && (#[trigger] list[i]).begin <= x < list[i].begin
                + receive::asked_for(list[i]);
        if i > 0 {
            assert(rest[i - 1] == list[i]);
        }
    }
}

proof fn lemma_entries_are_acted_on(
    state: SenderState,
    chunk: Seq<u8>,
    pos: int,
    list: Seq<MissingSegment>,
    x: int,
)
    requires
        state.valid(),
        0 <= pos <= chunk.len(),
        chunk.skip(pos) == receive::feedback_entries(list),
        forall|i: int| 0 <= i < list.len() ==> (#[trigger] list[i]).begin <= state.front(),
        forall|i: int| 0 <= i < list.len() ==> (#[trigger] list[i]).begin <= list[i].end,
    ensures
        ({
            let (after, result) = sende::requeue_from(state, chunk, pos);
            &&& result == Ok::<(), SenderError>(())
            &&& after.valid()
            &&& after.start == state.start
            &&& after.bytes == state.bytes
            &&& range_set::covers(after.pending, x) <==> range_set::covers(state.pending, x) || (
            asks_for(list, x) && state.start <= x < state.front())
        }),
    decreases list.len(),
{
    receive::lemma_entries_len(list);
    assert(chunk.skip(pos).len() == 10 * list.len());
    if list.len() > 0 {
        let item = list[0];
        let rest = list.skip(1);
        let offset = wire::le_bytes(item.begin as nat, 8);
        let size = wire::le_bytes(receive::asked_for(item), 2);
        let entry = receive::feedback_entry(item);
        lemma_entries_front(list);
        wire::lemma_le_bytes_len(item.begin as nat, 8);
        wire::lemma_le_bytes_len(receive::asked_for(item), 2);
        wire::lemma_le_ranges();
        wire::law_number_round_trip(item.begin as nat, 8);
        wire::law_number_round_trip(receive::asked_for(item), 2);
        let tail = receive::feedback_entries(rest);
        assert(chunk.skip(pos) == entry + tail);
        assert(chunk.subrange(pos, pos + 8) =~= chunk.skip(pos).take(8));
        assert((entry + tail).take(8) =~= offset);
        assert(chunk.subrange(pos + 8, pos + 10) =~= chunk.skip(pos).subrange(8, 10));
        assert((entry + tail).subrange(8, 10) =~= size);
        assert(chunk.skip(pos + 10) =~= chunk.skip(pos).skip(10));
        assert((entry + tail).skip(10) =~= tail);
        let next = state.requeue(item.begin, receive::asked_for(item) as u16);
        sende::law_requested_bytes_are_sent_again(
            state,
            item.begin,
            receive::asked_for(item) as u16,
        );
        assert forall|i: int| 0 <= i < rest.len() implies (#[trigger] rest[i]).begin
            <= next.front() && rest[i].begin <= rest[i].end by {
            assert(rest[i] == list[i + 1]);
        }
        lemma_entries_are_acted_on(next, chunk, pos + 10, rest, x);
        lemma_asks_front(list, x);
    }
}

/// Feedback of a receiver that knows no more of the stream than the sender has written is acted
/// on to its end: the sender drops what was read, and is then to send what it was to send
/// before and, as far as it is kept, what the feedback asks for.
pub proof fn law_feedback_is_acted_on(
    receiver: ReceiverState,
    sender: SenderState,
    count: nat,
    x: int,
)
    requires
        receiver.valid(),
        sender.valid(),
        receiver.head() <= sender.front(),
        count <= receiver.missing.len(),
    ensures
        ({
            let (after, result) = sende::feedback_effect(sender, receiver.feedback(count));
            &&& result == Ok::<(), SenderError>(())
            &&& after.valid()
            &&& after.front() == sender.front()
            &&& after.start == if receiver.start > sender.start {
                receiver.start
            } else {
                sender.start
            }
            &&& range_set::covers(after.pending, x) <==> (range_set::covers(sender.pending, x)
                && receiver.start <= x) || (asks_for(receiver.missing.take(count as int), x)
                && after.start <= x < after.front())
        }),
{
    let chunk = receiver.feedback(count);
    let list = receiver.missing.take(count as int);
    let offset = wire::le_bytes(receiver.start as nat, 8);
    wire::lemma_le_bytes_len(receiver.start as nat, 8);
    wire::lemma_le_ranges();
    wire::law_number_round_trip(receiver.start as nat, 8);
    assert(chunk.take(8) =~= offset);
    assert(chunk.skip(8) =~= receive::feedback_entries(list));
    let confirmed = sender.confirm(receiver.start as u64);
    sende::law_confirmed_bytes_are_not_sent_again(sender, receiver.start as u64);
    assert forall|i: int| 0 <= i < list.len() implies (#[trigger] list[i]).begin
        <= confirmed.front() && list[i].begin <= list[i].end by {
        assert(list[i] == receiver.missing[i]);
        assert(receiver.missing[i].begin < receiver.missing[i].end);
        assert(receiver.missing[i].end <= receiver.head());
    }
    lemma_entries_are_acted_on(confirmed, chunk, 8, list, x);
}

proof fn lemma_requeue_keeps_the_stream(
    state: SenderState,
    chunk: Seq<u8>,
    pos: int,
    stream: Stream,
)
    requires
        state.valid(),
        sends(state, stream),
    ensures
        sende::requeue_from(state, chunk, pos).0.valid(),
        sende::requeue_from(state, chunk, pos).0.front() == state.front(),
        sends(sende::requeue_from(state, chunk, pos).0, stream),
    decreases chunk.len() - pos,
{
    let offset = wire::le_value(chunk.subrange(pos, pos + 8)) as u64;
    let size = wire::le_value(chunk.subrange(pos + 8, pos + 10)) as u16;
    if pos != chunk.len() && pos + 10 <= chunk.len() && offset <= state.front() {
        sende::law_requested_bytes_are_sent_again(state, offset, size);
        lemma_requeue_keeps_the_stream(state.requeue(offset, size), chunk, pos + 10, stream);
    }
}

proof fn lemma_same_tail(
    receiver: ReceiverState,
    sender: SenderState,
    a: Seq<u8>,
    b: Seq<u8>,
    pos: int,
    now: u64,
)
    requires
        4 <= pos,
        a.len() == b.len(),
        a.skip(4) == b.skip(4),
    ensures
        connection::exchange_from(receiver, sender, a, pos, now) == connection::exchange_from(
            receiver,
            sender,
            b,
            pos,
            now,
        ),
    decreases a.len() - pos,
{
    if pos + 2 <= a.len() {
        wire::lemma_same_chunk(a, b, 4, pos);
        let kind = wire::chunk_kind(a, pos);
        let next = pos + 2 + wire::chunk_size(a, pos);
        if next <= a.len() {
            let chunk = wire::chunk_body(a, pos);
            if kind == wire::CHUNK_SEGMENT {
                let one = receiver.accept(receive::le_offset(chunk) as u64, chunk.skip(8), now);
                lemma_same_tail(one, sender, a, b, next, now);
            } else if kind == wire::CHUNK_FEEDBACK {
                let (acted, result) = sende::feedback_effect(sender, chunk);
                if result is Ok {
                    lemma_same_tail(receiver, acted, a, b, next, now);
                }
            }
        }
    }
}

/// A connection takes in packets that differ in nothing but their numbers alike.
pub proof fn law_number_of_a_packet_does_not_matter(
    state: ConnectionState,
    a: Seq<u8>,
    b: Seq<u8>,
    now: u64,
)
    requires
        4 <= a.len() == b.len(),
        a.skip(4) == b.skip(4),
    ensures
        state.take_in(a, now) == state.take_in(b, now),
{
    if a.len() >= connection::HEADER_SIZE {
        assert(a.subrange(4, 12) =~= a.skip(4).take(8));
        assert(b.subrange(4, 12) =~= b.skip(4).take(8));
        let front = wire::le_value(a.subrange(4, 12)) as u64;
        lemma_same_tail(
            state.receiver.announce(front, now),
            state.sender,
            a,
            b,
            connection::HEADER_SIZE as int,
            now,
        );
    }
}

/// Whatever a packet of the other side holds, the own stream stays what it is.
pub proof fn law_exchange_keeps_the_own_stream(
    receiver: ReceiverState,
    sender: SenderState,
    data: Seq<u8>,
    pos: int,
    now: u64,
    stream: Stream,
)
    requires
        0 <= pos,
        sender.valid(),
        sends(sender, stream),
    ensures
        ({
            let after = connection::exchange_from(receiver, sender, data, pos, now).1;
            &&& after.valid()
            &&& after.front() == sender.front()
            &&& sends(after, stream)
        }),
    decreases data.len() - pos,
{
    let kind = wire::chunk_kind(data, pos);
    let next = pos + 2 + wire::chunk_size(data, pos);
    let chunk = wire::chunk_body(data, pos);
    if pos + 2 > data.len() || next > data.len() {
    } else if kind == wire::CHUNK_SEGMENT {
        let one = receiver.accept(receive::le_offset(chunk) as u64, chunk.skip(8), now);
        law_exchange_keeps_the_own_stream(one, sender, data, next, now, stream);
    } else if kind == wire::CHUNK_FEEDBACK {
        let offset = wire::le_value(chunk.take(8)) as u64;
        if chunk.len() >= 8 && offset <= sender.front() {
            sende::law_confirmed_bytes_are_not_sent_again(sender, offset);
            law_sender_keeps_the_stream(sender, Seq::empty(), Seq::empty(), offset, 0, stream);
            lemma_requeue_keeps_the_stream(sender.confirm(offset), chunk, 8, stream);
        }
        let (acted, result) = sende::feedback_effect(sender, chunk);
        if result is Ok {
            law_exchange_keeps_the_own_stream(receiver, acted, data, next, now, stream);
        }
    }
}

/// The higher of two offsets.
pub open spec fn higher(a: int, b: int) -> int {
    if a > b {
        a
    } else {
        b
    }
}

/// A piece lets a receiver know no more of the stream than where the piece ends.
proof fn lemma_accept_head(state: ReceiverState, begin: u64, payload: Seq<u8>, now: u64)
    requires
        state.valid(),
    ensures
        state.accept(begin, payload, now).head() <= higher(
            state.head(),
            begin + payload.len(),
        ),
{
}

proof fn lemma_exchange_of_chunks(
    from: SenderState,
    data: Seq<u8>,
    pos: int,
    list: Seq<(u64, u64)>,
    receiver: ReceiverState,
    sender: SenderState,
    now: u64,
    x: int,
)
    requires
        from.front() <= u64::MAX,
        0 <= from.start,
        sendable(from, list),
        0 <= pos <= data.len() <= usize::MAX,
        data.skip(pos) == from.chunks(list),
        receiver.valid(),
    ensures
        ({
            let (after, acted, result) = connection::exchange_from(
                receiver,
                sender,
                data,
                pos,
                now,
            );
            &&& result == Ok::<(), SenderError>(())
            &&& acted == sender
            &&& after.start == receiver.start
            &&& receiver.head() <= after.head() <= higher(receiver.head(), from.front())
            &&& after.has(x) <==> receiver.has(x) || (range_set::covers(list, x) && receiver.start
                <= x < delivery::window_end(receiver))
        }),
    decreases list.len(),
{
    if list.len() == 0 {
        assert(data.skip(pos).len() == 0);
        assert(pos == data.len());
        assert(!range_set::covers(list, x));
    } else {
        lemma_read_first(from, data, pos, list);
        let range = list[0];
        let chunk = wire::chunk_body(data, pos);
        let begin = receive::le_offset(chunk) as u64;
        let payload = chunk.skip(8);
        let next = pos + 2 + wire::chunk_size(data, pos);
        let one = receiver.accept(begin, payload, now);
        let rest = list.skip(1);
        lemma_sendable_rest(from, list);
        assert(range.0 < range.1 && from.start <= range.0 && range.1 <= from.front());
        receive::law_accept_keeps_valid(receiver, begin, payload, now);
        lemma_accept_head(receiver, begin, payload, now);
        delivery::law_piece_adds_exactly_its_bytes(receiver, begin, payload, now, x);
        lemma_exchange_of_chunks(from, data, next, rest, one, sender, now, x);
        lemma_covers_front(list, x);
    }
}

/// A packet of a connection that knows no more of the other side's stream than was written is
/// received there to its end. The receiving side then has what it had and exactly what the
/// packet carries, as far as its ring has slots for it, and keeps what the sending side has not
/// read.
pub proof fn law_generated_packet_is_received(
    from: ConnectionState,
    to: ConnectionState,
    room: int,
    now: u64,
    x: int,
)
    requires
        from.valid(),
        to.valid(),
        connection::MIN_PACKET_SIZE <= room,
        from.next_packet(room).len() <= usize::MAX,
        sende::sizes_fit(from.next_sent(room)),
        from.receiver.head() <= to.sender.front(),
    ensures
        ({
            let (after, result) = to.take_in(from.next_packet(room), now);
            &&& result == Ok::<(), SenderError>(())
            &&& after.receiver.start == to.receiver.start
            &&& after.receiver.has(x) <==> to.receiver.has(x) || (range_set::covers(
                from.next_sent(room),
                x,
            ) && to.receiver.start <= x < delivery::window_end(to.receiver))
            &&& after.sender == if from.next_feedback(room).len() == 0 {
                to.sender
            } else {
                sende::feedback_effect(
                    to.sender,
                    wire::chunk_body(from.next_packet(room), connection::HEADER_SIZE as int),
                ).0
            }
            &&& from.next_feedback(room).len() > 0 ==> after.sender.start == if from.receiver.start
                > to.sender.start {
                from.receiver.start
            } else {
                to.sender.start
            }
        }),
{
    let packet = from.next_packet(room);
    let feedback = from.next_feedback(room);
    let sent = from.next_sent(room);
    let front = wire::le_value(packet.subrange(4, 12)) as u64;
    let announced = to.receiver.announce(front, now);
    let pos = connection::HEADER_SIZE as int;
    let at = pos + feedback.len();
    wire::lemma_le_bytes_len(from.next_seq as nat, 4);
    wire::lemma_le_bytes_len(from.sender.front() as nat, 8);
    law_planned_is_sendable(from.sender, room - connection::HEADER_SIZE - feedback.len());
    assert(packet.skip(at) =~= from.sender.chunks(sent));
    receive::law_announce_keeps_valid(to.receiver, front, now);
    let held = |y: int|
        if to.receiver.has(y) {
            to.receiver.byte(y)
        } else {
            0u8
        };
    law_announcement_keeps_agreement(to.receiver, front, now, held);
    assert(announced.has(x) <==> to.receiver.has(x));
    assert(delivery::window_end(announced) == delivery::window_end(to.receiver));
    if feedback.len() > 0 {
        lemma_feedback_first(from, room);
        let left = room - connection::HEADER_SIZE;
        let count = receive::feedback_count(
            from.receiver.missing.len(),
            if left < connection::MAX_FEEDBACK_SIZE {
                left as nat
            } else {
                connection::MAX_FEEDBACK_SIZE as nat
            },
        );
        law_feedback_is_acted_on(from.receiver, to.sender, count, x);
        let acted = sende::feedback_effect(to.sender, from.receiver.feedback(count)).0;
        lemma_exchange_of_chunks(from.sender, packet, at, sent, announced, acted, now, x);
    } else {
        assert(at == pos);
        lemma_exchange_of_chunks(from.sender, packet, at, sent, announced, to.sender, now, x);
    }
}

proof fn lemma_announce_head(state: ReceiverState, front: u64, now: u64)
    requires
        state.valid(),
    ensures
        state.head() <= state.announce(front, now).head() <= higher(state.head(), front as int),
        state.announce(front, now).head() >= front || state.announce(front, now).head()
            >= delivery::window_end(state),
        state.start < front && state.ring.len() > 1 ==> state.announce(front, now).known > 0,
{
}

proof fn lemma_effect_start(state: SenderState, chunk: Seq<u8>, pos: int)
    ensures
        sende::requeue_from(state, chunk, pos).0.start == state.start,
    decreases chunk.len() - pos,
{
    let offset = wire::le_value(chunk.subrange(pos, pos + 8)) as u64;
    let size = wire::le_value(chunk.subrange(pos + 8, pos + 10)) as u16;
    if pos != chunk.len() && pos + 10 <= chunk.len() && offset <= state.front() {
        lemma_effect_start(state.requeue(offset, size), chunk, pos + 10);
    }
}

/// What a packet of a connection does, whatever state it is received in: the receiver learns of
/// the stream up to the front that the packet names, and no further; the sender drops nothing
/// that the other side had not read when it made the packet.
pub proof fn lemma_packet_bounds(from: ConnectionState, to: ConnectionState, room: int, now: u64)
    requires
        from.valid(),
        to.receiver.valid(),
        connection::MIN_PACKET_SIZE <= room,
        from.next_packet(room).len() <= usize::MAX,
        sende::sizes_fit(from.next_sent(room)),
    ensures
        ({
            let after = to.take_in(from.next_packet(room), now).0;
            &&& after.receiver.start == to.receiver.start
            &&& to.receiver.head() <= after.receiver.head() <= higher(
                to.receiver.head(),
                from.sender.front(),
            )
            &&& to.receiver.start < from.sender.front() && to.receiver.ring.len() > 1
                ==> after.receiver.known > 0
            &&& after.receiver.head() >= from.sender.front() || after.receiver.head()
                >= delivery::window_end(to.receiver)
            &&& after.sender.start <= higher(to.sender.start, from.receiver.start)
        }),
{
    let packet = from.next_packet(room);
    let feedback = from.next_feedback(room);
    let sent = from.next_sent(room);
    let pos = connection::HEADER_SIZE as int;
    let at = pos + feedback.len();
    let front = wire::le_value(packet.subrange(4, 12)) as u64;
    let announced = to.receiver.announce(front, now);
    wire::lemma_le_bytes_len(from.next_seq as nat, 4);
    wire::lemma_le_bytes_len(from.sender.front() as nat, 8);
    wire::lemma_le_ranges();
    wire::law_number_round_trip(from.sender.front() as nat, 8);
    assert(packet.subrange(4, 12) =~= wire::le_bytes(from.sender.front() as nat, 8));
    lemma_announce_head(to.receiver, front, now);
    receive::law_announce_keeps_valid(to.receiver, front, now);
    law_planned_is_sendable(from.sender, room - connection::HEADER_SIZE - feedback.len());
    assert(packet.skip(at) =~= from.sender.chunks(sent));
    if feedback.len() > 0 {
        lemma_feedback_first(from, room);
        let chunk = wire::chunk_body(packet, pos);
        let (acted, result) = sende::feedback_effect(to.sender, chunk);
        wire::lemma_le_bytes_len(from.receiver.start as nat, 8);
        wire::law_number_round_trip(from.receiver.start as nat, 8);
        assert(chunk.take(8) =~= wire::le_bytes(from.receiver.start as nat, 8));
        lemma_effect_start(to.sender.confirm(from.receiver.start as u64), chunk, 8);
        if result is Ok {
            lemma_exchange_of_chunks(from.sender, packet, at, sent, announced, acted, now, 0);
        }
    } else {
        assert(at == pos);
        lemma_exchange_of_chunks(from.sender, packet, at, sent, announced, to.sender, now, 0);
    }
}

/// A packet tells how far the stream reaches: whoever receives it knows of the stream up to
/// there, or as far as its ring has slots, and no further than it knew or was told.
pub proof fn law_packet_tells_the_front(
    from: ConnectionState,
    to: ConnectionState,
    room: int,
    now: u64,
)
    requires
        from.valid(),
        to.receiver.valid(),
        connection::MIN_PACKET_SIZE <= room,
        from.next_packet(room).len() <= usize::MAX,
        sende::sizes_fit(from.next_sent(room)),
    ensures
        ({
            let head = to.take_in(from.next_packet(room), now).0.receiver.head();
            let slots = delivery::window_end(to.receiver);
            &&& head >= to.receiver.head()
            &&& head >= from.sender.front() || head >= slots
            &&& head == to.receiver.head() || head <= from.sender.front()
        }),
        to.receiver.start < from.sender.front() && to.receiver.ring.len() > 1 ==> to.take_in(
            from.next_packet(room),
            now,
        ).0.receiver.known > 0,
{
    lemma_packet_bounds(from, to, room, now);
}

/// Taking in a safe packet keeps the receiver consistent.
pub proof fn lemma_exchange_keeps_valid(
    receiver: ReceiverState,
    sender: SenderState,
    data: Seq<u8>,
    pos: int,
    now: u64,
)
    requires
        0 <= pos,
        receiver.valid(),
        sender.valid(),
        connection::exchange_safe(data, pos, sender.front()),
    ensures
        connection::exchange_from(receiver, sender, data, pos, now).0.valid(),
    decreases data.len() - pos,
{
    let kind = wire::chunk_kind(data, pos);
    let next = pos + 2 + wire::chunk_size(data, pos);
    let chunk = wire::chunk_body(data, pos);
    if pos + 2 > data.len() || next > data.len() {
    } else if kind == wire::CHUNK_SEGMENT {
        let begin = receive::le_offset(chunk) as u64;
        wire::lemma_le_value_range(chunk.take(8));
        wire::lemma_le_ranges();
        receive::law_accept_keeps_valid(receiver, begin, chunk.skip(8), now);
        lemma_exchange_keeps_valid(
            receiver.accept(begin, chunk.skip(8), now),
            sender,
            data,
            next,
            now,
        );
    } else if kind == wire::CHUNK_FEEDBACK {
        let (acted, result) = sende::feedback_effect(sender, chunk);
        connection::lemma_feedback_ok(sender, chunk);
        if result is Ok {
            let held = |y: int| sender.bytes[y - sender.start];
            let offset = wire::le_value(chunk.take(8)) as u64;
            assert(sends(sender, held));
            sende::law_confirmed_bytes_are_not_sent_again(sender, offset);
            law_sender_keeps_the_stream(sender, Seq::empty(), Seq::empty(), offset, 0, held);
            lemma_requeue_keeps_the_stream(sender.confirm(offset), chunk, 8, held);
            lemma_exchange_keeps_valid(receiver, acted, data, next, now);
        }
    }
}

/// No packet moves the reader on.
pub proof fn lemma_exchange_keeps_start(
    receiver: ReceiverState,
    sender: SenderState,
    data: Seq<u8>,
    pos: int,
    now: u64,
)
    ensures
        connection::exchange_from(receiver, sender, data, pos, now).0.start == receiver.start,
    decreases data.len() - pos,
{
    let kind = wire::chunk_kind(data, pos);
    let next = pos + 2 + wire::chunk_size(data, pos);
    let chunk = wire::chunk_body(data, pos);
    if pos + 2 > data.len() || next > data.len() {
    } else if kind == wire::CHUNK_SEGMENT {
        let one = receiver.accept(receive::le_offset(chunk) as u64, chunk.skip(8), now);
        lemma_exchange_keeps_start(one, sender, data, next, now);
    } else if kind == wire::CHUNK_FEEDBACK {
        let (acted, result) = sende::feedback_effect(sender, chunk);
        if result is Ok {
            lemma_exchange_keeps_start(receiver, acted, data, next, now);
        }
    }
}

/// Taking in a packet that a connection made keeps the state consistent.
pub proof fn lemma_take_in_keeps_valid(
    from: ConnectionState,
    to: ConnectionState,
    room: int,
    now: u64,
)
    requires
        from.valid(),
        to.valid(),
        connection::MIN_PACKET_SIZE <= room,
        from.next_packet(room).len() <= usize::MAX,
        sende::sizes_fit(from.next_sent(room)),
    ensures
        to.take_in(from.next_packet(room), now).0.valid(),
{
    let packet = from.next_packet(room);
    let pos = connection::HEADER_SIZE as int;
    let own = |y: int| from.sender.bytes[y - from.sender.start];
    let held = |y: int| to.sender.bytes[y - to.sender.start];
    let front = wire::le_value(packet.subrange(4, 12)) as u64;
    let announced = to.receiver.announce(front, now);
    assert(sends(from.sender, own));
    assert(sends(to.sender, held));
    law_generated_packet_carries_the_stream(from, room, own);
    law_carrying_packet_is_safe(packet, pos, own, to.sender.front());
    receive::law_announce_keeps_valid(to.receiver, front, now);
    lemma_exchange_keeps_valid(announced, to.sender, packet, pos, now);
    law_exchange_keeps_the_own_stream(announced, to.sender, packet, pos, now, held);
}

/// Once a connection has read all of the other side's stream, its next packet that has room for
/// feedback lets the other side drop the whole stream.
pub proof fn law_stream_that_was_read_is_dropped(
    from: ConnectionState,
    to: ConnectionState,
    room: int,
    now: u64,
)
    requires
        from.valid(),
        to.valid(),
        connection::HEADER_SIZE + 10 <= room,
        from.next_packet(room).len() <= usize::MAX,
        sende::sizes_fit(from.next_sent(room)),
        from.receiver.start == to.sender.front(),
        from.receiver.known == 0,
    ensures
        to.take_in(from.next_packet(room), now).0.sender.bytes.len() == 0,
        to.take_in(from.next_packet(room), now).0.sender.pending.len() == 0,
{
    let after = to.take_in(from.next_packet(room), now).0;
    law_generated_packet_is_received(from, to, room, now, 0);
    lemma_feedback_is_there(from, room);
    let held = |y: int| to.sender.bytes[y - to.sender.start];
    assert(sends(to.sender, held));
    law_exchange_keeps_the_own_stream(
        to.receiver.announce(
            wire::le_value(from.next_packet(room).subrange(4, 12)) as u64,
            now,
        ),
        to.sender,
        from.next_packet(room),
        connection::HEADER_SIZE as int,
        now,
        held,
    );
    assert(after.sender.valid());
    assert(after.sender.front() == to.sender.front());
    if after.sender.pending.len() > 0 {
        let range = after.sender.pending[0];
        assert(range.0 < range.1);
        assert(after.sender.start <= range.0 && range.1 <= after.sender.front());
    }
}

/// A packet that has room for feedback holds it.
pub proof fn lemma_feedback_is_there(state: ConnectionState, room: int)
    requires
        connection::HEADER_SIZE + 10 <= room,
    ensures
        state.next_feedback(room).len() > 0,
{
    let left = room - connection::HEADER_SIZE;
    let count = receive::feedback_count(
        state.receiver.missing.len(),
        if left < connection::MAX_FEEDBACK_SIZE {
            left as nat
        } else {
            connection::MAX_FEEDBACK_SIZE as nat
        },
    );
    let body = state.receiver.feedback(count);
    wire::lemma_le_bytes_len(wire::chunk_head(1, body.len()), 2);
}

/// Feedback makes the sender send again what is missing: every byte of a listed stretch, of its
/// first 65535 where it is longer, that the sender still keeps is then to be sent. What was to
/// be sent stays so, unless it was read; nothing that is not missing is added.
pub proof fn law_missing_bytes_are_sent_again(
    receiver: ReceiverState,
    sender: SenderState,
    count: nat,
    i: int,
    x: int,
)
    requires
        receiver.valid(),
        sender.valid(),
        receiver.head() <= sender.front(),
        count <= receiver.missing.len(),
    ensures
        ({
            let after = sende::feedback_effect(sender, receiver.feedback(count)).0;
            &&& 0 <= i < count && receiver.missing[i].begin <= x < receiver.missing[i].end && x
                < receiver.missing[i].begin + 65535 && x >= sender.start ==> range_set::covers(
                after.pending,
                x,
            )
            &&& range_set::covers(sender.pending, x) && x >= receiver.start ==> range_set::covers(
                after.pending,
                x,
            )
            &&& range_set::covers(after.pending, x) ==> x >= receiver.start
            &&& range_set::covers(after.pending, x) && !range_set::covers(sender.pending, x)
                ==> missing::missing_at(receiver.missing.take(count as int), x)
        }),
{
    let list = receiver.missing.take(count as int);
    let after = sende::feedback_effect(sender, receiver.feedback(count)).0;
    law_feedback_is_acted_on(receiver, sender, count, x);
    if 0 <= i < count && receiver.missing[i].begin <= x < receiver.missing[i].end && x
        < receiver.missing[i].begin + 65535 {
        assert(receiver.start <= receiver.missing[i].begin);
        assert(receiver.missing[i].end <= receiver.head());
        assert(list[i] == receiver.missing[i]);
        assert(asks_for(list, x));
    }
    if asks_for(list, x) {
        let k = choose|k: int|
            0 <= k < list.len() && (#[trigger] list[k]).begin <= x < list[k].begin
                + receive::asked_for(list[k]);
        assert(list[k] == receiver.missing[k]);
        assert(receiver.missing[k].begin < receiver.missing[k].end);
        assert(receiver.start <= receiver.missing[k].begin);
        assert(list[k].begin <= x < list[k].end);
    }
}

/// What is lost on the way is sent again: a packet with feedback makes the other side send the
/// missing bytes of each of the first eleven stretches that there is room to list, of their
/// first 65535 where they are longer, as far as it still keeps them.
#[verifier::rlimit(40)]
#[verifier::spinoff_prover]
pub proof fn law_lost_bytes_are_asked_for(
    from: ConnectionState,
    to: ConnectionState,
    room: int,
    now: u64,
    i: int,
    x: int,
)
    requires
        from.valid(),
        to.valid(),
        from.next_packet(room).len() <= usize::MAX,
        sende::sizes_fit(from.next_sent(room)),
        from.receiver.head() <= to.sender.front(),
        0 <= i < from.receiver.missing.len(),
        i < 11,
        12 + 2 + 8 + 10 * (i + 1) <= room,
        from.receiver.missing[i].begin <= x < from.receiver.missing[i].end,
        x < from.receiver.missing[i].begin + 65535,
        x >= to.sender.start,
    ensures
        range_set::covers(to.take_in(from.next_packet(room), now).0.sender.pending, x),
{
    let left = room - connection::HEADER_SIZE;
    let count = receive::feedback_count(
        from.receiver.missing.len(),
        if left < connection::MAX_FEEDBACK_SIZE {
            left as nat
        } else {
            connection::MAX_FEEDBACK_SIZE as nat
        },
    );
    lemma_feedback_is_there(from, room);
    lemma_feedback_first(from, room);
    law_generated_packet_is_received(from, to, room, now, x);
    law_missing_bytes_are_sent_again(from.receiver, to.sender, count, i, x);
}

/// What a packet of a connection holds: its number, the front of the stream, feedback wherever
/// there is room for it, and chunks of the stream. The feedback says how far was read and lists
/// as many missing stretches as fit in 128 bytes. The packet is filled: each stretch of what is
/// to be sent goes into it whole, unless it fills the packet to its last byte, and none is left
/// out while there is room for another chunk.
#[verifier::rlimit(40)]
#[verifier::spinoff_prover]
pub proof fn law_packet_of_a_connection_is_filled(state: ConnectionState, room: int)
    requires
        state.valid(),
        14 <= room,
        state.next_packet(room).len() <= usize::MAX,
    ensures
        ({
            let packet = state.next_packet(room);
            let sent = state.next_sent(room);
            let pending = state.sender.pending;
            &&& packet.len() <= room
            &&& packet.take(4) == wire::le_bytes(state.next_seq as nat, 4)
            &&& wire::le_value(packet.subrange(4, 12)) == state.sender.front()
            &&& room < 12 + 10 ==> packet.skip(12) == state.sender.chunks(sent)
            &&& room >= 12 + 10 ==> {
                let body = wire::chunk_body(packet, 12);
                let count = (body.len() - 8) / 10;
                let space = if room - 12 < 128 {
                    room - 12
                } else {
                    128
                };
                &&& wire::chunk_kind(packet, 12) == 1
                &&& 0 <= count <= state.receiver.missing.len()
                &&& body == state.receiver.feedback(count as nat)
                &&& count < state.receiver.missing.len() ==> 10 + 10 * (count + 1) > space
                &&& packet.skip((12 + 2 + body.len()) as int) == state.sender.chunks(sent)
            }
            &&& sent.len() <= pending.len()
            &&& sent.len() < pending.len() ==> room - packet.len() < 13
            &&& forall|i: int|
                0 <= i < sent.len() ==> {
                    &&& (#[trigger] sent[i]).0 == pending[i].0
                    &&& sent[i].0 < sent[i].1 <= pending[i].1
                    &&& sent[i].1 < pending[i].1 ==> i == sent.len() - 1 && packet.len() == room
                }
        }),
{
    let packet = state.next_packet(room);
    let sent = state.next_sent(room);
    let feedback = state.next_feedback(room);
    let left = room - 12;
    wire::lemma_le_bytes_len(state.next_seq as nat, 4);
    wire::lemma_le_bytes_len(state.sender.front() as nat, 8);
    wire::lemma_le_ranges();
    wire::law_number_round_trip(state.sender.front() as nat, 8);
    assert(packet.take(4) =~= wire::le_bytes(state.next_seq as nat, 4));
    assert(packet.subrange(4, 12) =~= wire::le_bytes(state.sender.front() as nat, 8));
    assert(packet.skip((12 + feedback.len()) as int) =~= state.sender.chunks(sent));
    if room >= 12 + 10 {
        let count = receive::feedback_count(
            state.receiver.missing.len(),
            if left < connection::MAX_FEEDBACK_SIZE {
                left as nat
            } else {
                connection::MAX_FEEDBACK_SIZE as nat
            },
        );
        let body = state.receiver.feedback(count);
        lemma_feedback_is_there(state, room);
        lemma_feedback_first(state, room);
        receive::lemma_feedback_len(state.receiver, count);
        wire::lemma_le_bytes_len(wire::chunk_head(1, body.len()), 2);
        assert(feedback.len() == 2 + body.len());
    } else {
        assert(feedback.len() == 0);
    }
    sende::law_packet_is_filled(state.sender, state.sender.pending, left - feedback.len());
}

} // verus!
