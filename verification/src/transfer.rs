//! What two connections promise together, whatever happens to them and to the packets between
//! them.

use crate::connection;
use crate::connection::ConnectionState;
use crate::delivery;
use crate::delivery::Stream;
use crate::network;
use crate::range_set;
use crate::receive;
use crate::sende;
use crate::wire;
use vstd::prelude::*;

verus! {

/// What happens to one end of a connection.
pub enum Event {
    /// A packet arrives at the time `now`.
    Arrival { packet: Seq<u8>, now: u64 },
    /// A reader with room for `room` bytes takes what there is.
    Reading { room: nat },
    /// The own stream grows by `more`.
    Writing { more: Seq<u8> },
    /// A packet is made, with room for `room` bytes.
    Sending { room: nat },
}

/// The state after an event.
pub open spec fn after(state: ConnectionState, event: Event) -> ConnectionState {
    match event {
        Event::Arrival { packet, now } => state.take_in(packet, now).0,
        Event::Reading { room } => ConnectionState {
            receiver: state.receiver.advance(state.readable(room)),
            ..state
        },
        Event::Writing { more } => ConnectionState { sender: state.sender.extend(more), ..state },
        Event::Sending { room } => ConnectionState {
            next_seq: ((state.next_seq + 1) % 0x1_0000_0000) as u32,
            sender: state.sender.after_sending(state.next_sent(room as int)),
            ..state
        },
    }
}

/// The bytes that an event hands out.
pub open spec fn handed_out(state: ConnectionState, event: Event) -> Seq<u8> {
    match event {
        Event::Reading { room } => state.receiver.ring.take(state.readable(room) as int),
        _ => Seq::empty(),
    }
}

/// The state after some events, and all bytes that they handed out.
pub open spec fn run(state: ConnectionState, events: Seq<Event>) -> (ConnectionState, Seq<u8>)
    decreases events.len(),
{
    if events.len() == 0 {
        (state, Seq::empty())
    } else {
        let (before, out) = run(state, events.drop_last());
        (after(before, events.last()), out + handed_out(before, events.last()))
    }
}

/// Every packet that arrives carries the stream.
pub open spec fn arrivals_carry(events: Seq<Event>, stream: Stream) -> bool {
    forall|i: int|
        0 <= i < events.len() ==> ((#[trigger] events[i]) matches Event::Arrival { packet, now }
            ==> network::carries(packet, connection::HEADER_SIZE as int, stream))
}

/// Whichever packets of the other side arrive, in whatever order and however often, and
/// whatever else happens in between: what the connection hands out is the other side's stream,
/// from its beginning, in order, without gaps and without repetitions.
pub proof fn law_output_is_the_stream(
    state: ConnectionState,
    events: Seq<Event>,
    stream: Stream,
)
    requires
        state.receiver.valid(),
        delivery::agrees(state.receiver, stream),
        arrivals_carry(events, stream),
    ensures
        ({
            let (last, out) = run(state, events);
            &&& last.receiver.valid()
            &&& delivery::agrees(last.receiver, stream)
            &&& last.receiver.start == state.receiver.start + out.len()
            &&& delivery::piece_of(state.receiver.start, out, stream)
        }),
    decreases events.len(),
{
    if events.len() > 0 {
        let earlier = events.drop_last();
        let event = events.last();
        assert(event == events[events.len() - 1]);
        assert forall|i: int| 0 <= i < earlier.len() implies ((#[trigger] earlier[i]) matches
            Event::Arrival { packet, now } ==> network::carries(
            packet,
            connection::HEADER_SIZE as int,
            stream,
        )) by {
            assert(earlier[i] == events[i]);
        }
        law_output_is_the_stream(state, earlier, stream);
        let (before, out) = run(state, earlier);
        match event {
            Event::Arrival { packet, now } => {
                if packet.len() >= connection::HEADER_SIZE {
                    let front = wire::le_value(packet.subrange(4, 12)) as u64;
                    network::law_announcement_keeps_agreement(before.receiver, front, now, stream);
                    network::law_exchange_keeps_agreement(
                        before.receiver.announce(front, now),
                        before.sender,
                        packet,
                        connection::HEADER_SIZE as int,
                        now,
                        stream,
                    );
                }
            },
            Event::Reading { room } => {
                let n = before.readable(room);
                let more = before.receiver.ring.take(n as int);
                if before.receiver.missing.len() > 0 {
                    assert(before.receiver.missing[0].begin < before.receiver.missing[0].end);
                    assert(before.receiver.missing[0].end <= before.receiver.head());
                    assert(before.receiver.start <= before.receiver.missing[0].begin);
                }
                receive::law_advance_keeps_valid(before.receiver, n);
                delivery::law_read_keeps_agreement(before.receiver, n, stream);
                assert(more.len() == n);
                let all = out + more;
                assert forall|i: int| 0 <= i < all.len() implies #[trigger] all[i] == stream(
                    state.receiver.start + i,
                ) by {
                    if i < out.len() {
                        assert(out[i] == stream(state.receiver.start + i));
                    } else {
                        delivery::law_read_hands_out_the_stream(
                            before.receiver,
                            stream,
                            i - out.len(),
                        );
                    }
                }
            },
            _ => {
                assert(out + handed_out(before, event) =~= out);
            },
        }
    }
}

/// The connection can take the event: what arrives is safe, what is written fits, and a packet
/// that is made has room for its own fields and chunks whose sizes can be named.
pub open spec fn takes(state: ConnectionState, event: Event) -> bool {
    match event {
        Event::Arrival { packet, now } => connection::exchange_safe(
            packet,
            connection::HEADER_SIZE as int,
            state.sender.front(),
        ),
        Event::Reading { room } => true,
        Event::Writing { more } => {
            &&& state.sender.bytes.len() + more.len() <= state.sender.cap
            &&& state.sender.front() + more.len() <= u64::MAX
        },
        Event::Sending { room } => {
            &&& connection::MIN_PACKET_SIZE <= room
            &&& sende::sizes_fit(state.next_sent(room as int))
            &&& state.next_packet(room as int).len() <= usize::MAX
        },
    }
}

/// The connection can take all the events, one after the other.
pub open spec fn takes_all(state: ConnectionState, events: Seq<Event>) -> bool
    decreases events.len(),
{
    if events.len() == 0 {
        true
    } else {
        takes_all(state, events.drop_last()) && takes(
            run(state, events.drop_last()).0,
            events.last(),
        )
    }
}

/// All bytes that the events write.
pub open spec fn written(events: Seq<Event>) -> Seq<u8>
    decreases events.len(),
{
    if events.len() == 0 {
        Seq::empty()
    } else {
        match events.last() {
            Event::Writing { more } => written(events.drop_last()) + more,
            _ => written(events.drop_last()),
        }
    }
}

proof fn lemma_sending_keeps_valid(state: ConnectionState, room: nat)
    requires
        state.valid(),
        takes(state, Event::Sending { room }),
    ensures
        after(state, Event::Sending { room }).valid(),
{
    let sent = state.next_sent(room as int);
    network::law_planned_is_sendable(
        state.sender,
        room - connection::HEADER_SIZE - state.next_feedback(room as int).len(),
    );
    assert forall|i: int| 0 <= i < sent.len() implies (#[trigger] sent[i]).0 <= sent[i].1 by {
        assert(sent[i].0 < sent[i].1);
    }
    sende::law_sent_bytes_are_taken_off(state.sender, sent);
}

/// Whatever happens to a connection, it stays consistent, and what it keeps of its own stream is
/// what was written.
pub proof fn law_own_stream_is_kept(state: ConnectionState, events: Seq<Event>, stream: Stream)
    requires
        state.valid(),
        network::sends(state.sender, stream),
        delivery::piece_of(state.sender.front(), written(events), stream),
        takes_all(state, events),
    ensures
        ({
            let last = run(state, events).0;
            &&& last.valid()
            &&& network::sends(last.sender, stream)
            &&& last.sender.front() == state.sender.front() + written(events).len()
        }),
    decreases events.len(),
{
    if events.len() > 0 {
        let earlier = events.drop_last();
        let event = events.last();
        let done = written(earlier);
        let all = written(events);
        assert forall|i: int| 0 <= i < done.len() implies #[trigger] done[i] == stream(
            state.sender.front() + i,
        ) by {
            assert(all[i] == done[i]);
        }
        law_own_stream_is_kept(state, earlier, stream);
        let before = run(state, earlier).0;
        match event {
            Event::Arrival { packet, now } => {
                if packet.len() >= connection::HEADER_SIZE {
                    let front = wire::le_value(packet.subrange(4, 12)) as u64;
                    let announced = before.receiver.announce(front, now);
                    let pos = connection::HEADER_SIZE as int;
                    receive::law_announce_keeps_valid(before.receiver, front, now);
                    network::lemma_exchange_keeps_valid(announced, before.sender, packet, pos, now);
                    network::law_exchange_keeps_the_own_stream(
                        announced,
                        before.sender,
                        packet,
                        pos,
                        now,
                        stream,
                    );
                }
            },
            Event::Reading { room } => {
                receive::law_advance_keeps_valid(before.receiver, before.readable(room));
            },
            Event::Writing { more } => {
                assert forall|i: int| 0 <= i < more.len() implies #[trigger] more[i] == stream(
                    before.sender.front() + i,
                ) by {
                    assert(all[done.len() + i] == more[i]);
                }
                sende::law_new_bytes_are_to_be_sent(before.sender, more);
                network::law_sender_keeps_the_stream(before.sender, more, Seq::empty(), 0, 0, stream);
            },
            Event::Sending { room } => {
                lemma_sending_keeps_valid(before, room);
            },
        }
    }
}

/// `packet` is one that the connection makes at event number `k`.
pub open spec fn made_at(
    state: ConnectionState,
    events: Seq<Event>,
    packet: Seq<u8>,
    k: int,
) -> bool {
    &&& 0 <= k < events.len()
    &&& events[k] matches Event::Sending { room } && packet == run(
        state,
        events.take(k),
    ).0.next_packet(room as int)
}

/// Every packet that arrives is one that the connection `other` makes while `others` happen to
/// it.
pub open spec fn arrivals_are_made(
    events: Seq<Event>,
    other: ConnectionState,
    others: Seq<Event>,
) -> bool {
    forall|i: int|
        0 <= i < events.len() ==> ((#[trigger] events[i]) matches Event::Arrival { packet, now }
            ==> exists|k: int| made_at(other, others, packet, k))
}

proof fn lemma_takes_prefix(state: ConnectionState, events: Seq<Event>, k: int)
    requires
        takes_all(state, events),
        0 <= k < events.len(),
    ensures
        takes_all(state, events.take(k)),
        takes(run(state, events.take(k)).0, events[k]),
        written(events.take(k)).is_prefix_of(written(events)),
    decreases events.len(),
{
    let earlier = events.drop_last();
    if k == events.len() - 1 {
        assert(earlier =~= events.take(k));
    } else {
        lemma_takes_prefix(state, earlier, k);
        assert(earlier.take(k) =~= events.take(k));
        assert(earlier[k] == events[k]);
    }
    assert(written(earlier).is_prefix_of(written(events)));
}

proof fn lemma_made_packets_carry(
    state: ConnectionState,
    events: Seq<Event>,
    stream: Stream,
    packet: Seq<u8>,
    k: int,
)
    requires
        state.valid(),
        network::sends(state.sender, stream),
        delivery::piece_of(state.sender.front(), written(events), stream),
        takes_all(state, events),
        made_at(state, events, packet, k),
    ensures
        network::carries(packet, connection::HEADER_SIZE as int, stream),
{
    let earlier = events.take(k);
    let done = written(earlier);
    lemma_takes_prefix(state, events, k);
    assert forall|i: int| 0 <= i < done.len() implies #[trigger] done[i] == stream(
        state.sender.front() + i,
    ) by {
        assert(written(events)[i] == done[i]);
    }
    law_own_stream_is_kept(state, earlier, stream);
    if let Event::Sending { room } = events[k] {
        network::law_generated_packet_carries_the_stream(run(state, earlier).0, room as int, stream);
    }
}

/// Between two new connections, over a network that may lose, repeat, delay and reorder packets:
/// what the one hands out is at every time a beginning of what was written to the other.
pub proof fn law_output_is_what_was_written(
    one: ConnectionState,
    events: Seq<Event>,
    other: ConnectionState,
    others: Seq<Event>,
)
    requires
        one.receiver.valid(),
        one.receiver.start == 0,
        one.receiver.known == 0,
        other.valid(),
        other.sender.front() == 0,
        takes_all(other, others),
        arrivals_are_made(events, other, others),
    ensures
        run(one, events).1.is_prefix_of(written(others)),
{
    let out = run(one, events).1;
    let all = written(others);
    let low = |x: int|
        if 0 <= x < all.len() {
            all[x]
        } else {
            0u8
        };
    let high = |x: int|
        if 0 <= x < all.len() {
            all[x]
        } else {
            1u8
        };
    lemma_output_is_piece(one, events, other, others, low);
    lemma_output_is_piece(one, events, other, others, high);
    if out.len() > all.len() {
        let i = all.len() as int;
        assert(out[i] == low(0 + i));
        assert(out[i] == high(0 + i));
    }
    assert forall|i: int| 0 <= i < out.len() implies out[i] == all[i] by {
        assert(out[i] == low(0 + i));
    }
    assert(out =~= all.take(out.len() as int));
}

proof fn lemma_output_is_piece(
    one: ConnectionState,
    events: Seq<Event>,
    other: ConnectionState,
    others: Seq<Event>,
    stream: Stream,
)
    requires
        one.receiver.valid(),
        one.receiver.start == 0,
        one.receiver.known == 0,
        other.valid(),
        other.sender.front() == 0,
        takes_all(other, others),
        arrivals_are_made(events, other, others),
        delivery::piece_of(0, written(others), stream),
    ensures
        delivery::piece_of(0, run(one, events).1, stream),
{
    delivery::law_empty_receiver_agrees(one.receiver, stream);
    assert forall|i: int| 0 <= i < events.len() implies ((#[trigger] events[i]) matches
        Event::Arrival { packet, now } ==> network::carries(
        packet,
        connection::HEADER_SIZE as int,
        stream,
    )) by {
        if let Event::Arrival { packet, now } = events[i] {
            let k = choose|k: int| made_at(other, others, packet, k);
            lemma_made_packets_carry(other, others, stream, packet, k);
        }
    }
    law_output_is_the_stream(one, events, stream);
}

/// Whatever happens to a connection that can take it, it stays consistent, and its own stream
/// reaches as far as was written.
proof fn lemma_run_valid(state: ConnectionState, events: Seq<Event>)
    requires
        state.valid(),
        takes_all(state, events),
    ensures
        run(state, events).0.valid(),
        run(state, events).0.sender.front() == state.sender.front() + written(events).len(),
{
    let all = written(events);
    let stream = |x: int|
        if x < state.sender.front() {
            state.sender.bytes[x - state.sender.start]
        } else {
            all[x - state.sender.front()]
        };
    assert(network::sends(state.sender, stream));
    assert(delivery::piece_of(state.sender.front(), all, stream));
    law_own_stream_is_kept(state, events, stream);
}

/// Reading only moves on.
proof fn lemma_start_grows(state: ConnectionState, events: Seq<Event>, k: int)
    requires
        0 <= k <= events.len(),
    ensures
        run(state, events.take(k)).0.receiver.start <= run(state, events).0.receiver.start,
    decreases events.len(),
{
    if k == events.len() {
        assert(events.take(k) =~= events);
    } else {
        let earlier = events.drop_last();
        lemma_start_grows(state, earlier, k);
        assert(earlier.take(k) =~= events.take(k));
        let before = run(state, earlier).0;
        match events.last() {
            Event::Arrival { packet, now } => {
                if packet.len() >= connection::HEADER_SIZE {
                    let front = wire::le_value(packet.subrange(4, 12)) as u64;
                    network::lemma_exchange_keeps_start(
                        before.receiver.announce(front, now),
                        before.sender,
                        packet,
                        connection::HEADER_SIZE as int,
                        now,
                    );
                }
            },
            _ => {},
        }
    }
}

/// Between two connections, over a network that may lose, repeat, delay and reorder packets: the
/// one drops nothing of its stream that was not handed out by the other, and knows no more of
/// the other's stream than was written.
pub proof fn law_sides_stay_in_step(
    one: ConnectionState,
    events: Seq<Event>,
    other: ConnectionState,
    others: Seq<Event>,
)
    requires
        one.valid(),
        other.valid(),
        one.sender.start <= other.receiver.start,
        one.receiver.head() <= other.sender.front(),
        takes_all(one, events),
        takes_all(other, others),
        arrivals_are_made(events, other, others),
    ensures
        run(one, events).0.sender.start <= run(other, others).0.receiver.start,
        run(one, events).0.receiver.head() <= run(other, others).0.sender.front(),
    decreases events.len(),
{
    lemma_run_valid(other, others);
    lemma_start_grows(other, others, 0);
    assert(others.take(0) =~= Seq::empty());
    if events.len() > 0 {
        let earlier = events.drop_last();
        let event = events.last();
        assert(event == events[events.len() - 1]);
        assert forall|i: int| 0 <= i < earlier.len() implies ((#[trigger] earlier[i]) matches
            Event::Arrival { packet, now } ==> exists|k: int|
            made_at(other, others, packet, k)) by {
            assert(earlier[i] == events[i]);
        }
        law_sides_stay_in_step(one, earlier, other, others);
        lemma_run_valid(one, earlier);
        let before = run(one, earlier).0;
        match event {
            Event::Arrival { packet, now } => {
                let k = choose|k: int| made_at(other, others, packet, k);
                lemma_takes_prefix(other, others, k);
                lemma_run_valid(other, others.take(k));
                lemma_start_grows(other, others, k);
                if let Event::Sending { room } = others[k] {
                    network::lemma_packet_bounds(run(other, others.take(k)).0, before, room as int, now);
                }
            },
            Event::Reading { room } => {
                receive::law_advance_keeps_valid(before.receiver, before.readable(room));
            },
            _ => {},
        }
    }
}

/// The state in which the writing side makes its packet in [`exchange`].
pub open spec fn told(
    writing: ConnectionState,
    reading: ConnectionState,
    back: nat,
    now: u64,
) -> ConnectionState {
    writing.take_in(reading.next_packet(back as int), now).0
}

/// The reading side after it made a packet, which the writing side received at the time `now1`,
/// and then received a packet of the writing side at the time `now2`.
pub open spec fn exchange(
    writing: ConnectionState,
    reading: ConnectionState,
    back: nat,
    room: nat,
    now1: u64,
    now2: u64,
) -> ConnectionState {
    after(reading, Event::Sending { room: back }).take_in(
        told(writing, reading, back, now1).next_packet(room as int),
        now2,
    ).0
}

/// One packet there and one back, both received, are enough to go on: where a reader has read
/// all that it can and knows of more, a packet of the reading side and then one of the writing
/// side make at least one more byte readable.
pub proof fn law_exchange_makes_progress(
    writing: ConnectionState,
    reading: ConnectionState,
    back: nat,
    room: nat,
    now1: u64,
    now2: u64,
)
    requires
        writing.valid(),
        reading.valid(),
        reading.receiver.head() <= writing.sender.front(),
        writing.sender.start <= reading.receiver.start,
        writing.receiver.head() <= reading.sender.front(),
        reading.receiver.available() == 0,
        reading.receiver.known > 0,
        connection::HEADER_SIZE + 20 <= back,
        takes(reading, Event::Sending { room: back }),
        connection::HEADER_SIZE + connection::MAX_FEEDBACK_SIZE + sende::MIN_CHUNK_ROOM <= room,
        takes(told(writing, reading, back, now1), Event::Sending { room }),
    ensures
        exchange(writing, reading, back, room, now1, now2).receiver.available() > 0,
{
    let packet = reading.next_packet(back as int);
    let asked = told(writing, reading, back, now1);
    let waiting = after(reading, Event::Sending { room: back });
    let x = reading.receiver.start;
    let left = back - connection::HEADER_SIZE;
    let count = receive::feedback_count(
        reading.receiver.missing.len(),
        if left < connection::MAX_FEEDBACK_SIZE {
            left as nat
        } else {
            connection::MAX_FEEDBACK_SIZE as nat
        },
    );
    let list = reading.receiver.missing.take(count as int);
    assert(reading.receiver.missing[0].begin == x);
    assert(reading.receiver.missing[0].begin < reading.receiver.missing[0].end);
    assert(reading.receiver.missing[0].end <= reading.receiver.head());
    assert(list[0] == reading.receiver.missing[0]);
    assert(network::asks_for(list, x));
    network::lemma_feedback_is_there(reading, back as int);
    network::lemma_feedback_first(reading, back as int);
    network::law_generated_packet_is_received(reading, writing, back as int, now1, x);
    network::law_feedback_is_acted_on(reading.receiver, writing.sender, count, x);
    network::lemma_take_in_keeps_valid(reading, writing, back as int, now1);
    network::lemma_packet_bounds(reading, writing, back as int, now1);
    lemma_sending_keeps_valid(reading, back);
    lemma_first_sent(asked, room as int, x);
    network::law_generated_packet_is_received(asked, waiting, room as int, now2, x);
    network::lemma_take_in_keeps_valid(asked, waiting, room as int, now2);
    let last = exchange(writing, reading, back, room, now1, now2);
    assert(last.receiver.has(x));
    delivery::law_what_was_received_can_be_read(last.receiver, x + 1);
}

/// The oldest byte that is kept, if it is to be sent, is in the next packet.
proof fn lemma_first_sent(state: ConnectionState, room: int, x: int)
    requires
        state.valid(),
        x == state.sender.start,
        range_set::covers(state.sender.pending, x),
        connection::HEADER_SIZE + connection::MAX_FEEDBACK_SIZE + sende::MIN_CHUNK_ROOM <= room,
    ensures
        range_set::covers(state.next_sent(room), x),
{
    let pending = state.sender.pending;
    let feedback = state.next_feedback(room);
    let sent = state.next_sent(room);
    let count = receive::feedback_count(
        state.receiver.missing.len(),
        connection::MAX_FEEDBACK_SIZE as nat,
    );
    let body = state.receiver.feedback(count);
    receive::lemma_feedback_len(state.receiver, count);
    wire::lemma_le_bytes_len(wire::chunk_head(1, body.len()), 2);
    assert(feedback.len() <= connection::MAX_FEEDBACK_SIZE);
    let left = room - connection::HEADER_SIZE - feedback.len();
    let i = choose|i: int| 0 <= i < pending.len() && (#[trigger] pending[i]).0 <= x < pending[i].1;
    assert(pending[0].0 < pending[0].1);
    assert(state.sender.start <= pending[0].0);
    if i > 0 {
        assert(pending[0].1 < pending[i].0);
    }
    assert(pending[0].0 == x);
    sende::lemma_plan(state.sender, pending, left);
    assert(sent.len() > 0);
    assert(sent[0].0 == pending[0].0 && sent[0].0 < sent[0].1);
}

/// However the transfer between two connections went so far: where the reader has read all that
/// it can and knows of more, one packet back and one packet there, both received, make at least
/// one more byte readable.
pub proof fn law_transfer_can_go_on(
    one: ConnectionState,
    events: Seq<Event>,
    other: ConnectionState,
    others: Seq<Event>,
    back: nat,
    room: nat,
    now1: u64,
    now2: u64,
)
    requires
        one.valid(),
        other.valid(),
        one.sender.start <= other.receiver.start,
        one.receiver.head() <= other.sender.front(),
        other.receiver.head() <= one.sender.front(),
        takes_all(one, events),
        takes_all(other, others),
        arrivals_are_made(events, other, others),
        arrivals_are_made(others, one, events),
        other.sender.start <= one.receiver.start,
        run(other, others).0.receiver.available() == 0,
        run(other, others).0.receiver.known > 0,
        connection::HEADER_SIZE + 20 <= back,
        takes(run(other, others).0, Event::Sending { room: back }),
        connection::HEADER_SIZE + connection::MAX_FEEDBACK_SIZE + sende::MIN_CHUNK_ROOM <= room,
        takes(
            told(run(one, events).0, run(other, others).0, back, now1),
            Event::Sending { room },
        ),
    ensures
        exchange(
            run(one, events).0,
            run(other, others).0,
            back,
            room,
            now1,
            now2,
        ).receiver.available() > 0,
{
    lemma_run_valid(one, events);
    lemma_run_valid(other, others);
    law_sides_stay_in_step(one, events, other, others);
    law_sides_stay_in_step(other, others, one, events);
    law_exchange_makes_progress(
        run(one, events).0,
        run(other, others).0,
        back,
        room,
        now1,
        now2,
    );
}

/// A reader of a connection gets all there is before the first gap, or as much as there is room
/// for: where a byte is there and room for one, it gets a byte, and it leaves nothing behind
/// that it has room for. Nothing else changes.
pub proof fn law_reader_leaves_nothing_behind(state: ConnectionState, room: nat)
    requires
        state.receiver.valid(),
    ensures
        ({
            let out = handed_out(state, Event::Reading { room });
            let next = after(state, Event::Reading { room });
            &&& out.len() <= room
            &&& out.len() == room || !state.receiver.has(state.receiver.start + out.len())
            &&& forall|i: int|
                0 <= i < out.len() ==> #[trigger] out[i] == state.receiver.byte(
                    state.receiver.start + i,
                ) && state.receiver.has(state.receiver.start + i)
            &&& room > 0 && state.receiver.has(state.receiver.start) ==> out.len() > 0
            &&& next.receiver.start == state.receiver.start + out.len()
            &&& next == (ConnectionState { receiver: next.receiver, ..state })
        }),
{
    let n = state.readable(room);
    delivery::law_read_leaves_nothing_behind(state.receiver, room);
    delivery::law_available_is_the_longest_run(state.receiver);
    if state.receiver.missing.len() > 0 {
        assert(state.receiver.missing[0].begin < state.receiver.missing[0].end);
        assert(state.receiver.missing[0].end <= state.receiver.head());
        assert(state.receiver.start <= state.receiver.missing[0].begin);
    }
    assert(state.receiver.ring.take(n as int).len() == n);
    assert forall|x: int|
        state.receiver.start <= x < state.receiver.start + n implies #[trigger] state.receiver.has(
        x,
    ) by {}
}

/// The events of a reader that reads again and again, each time with room for so many bytes.
pub open spec fn readings(rooms: Seq<nat>) -> Seq<Event> {
    Seq::new(rooms.len(), |i: int| Event::Reading { room: rooms[i] })
}

/// A reader that reads on gets everything that was received before the first gap, each byte once
/// and in order, however it cuts its reads.
#[verifier::rlimit(40)]
#[verifier::spinoff_prover]
pub proof fn law_reader_gets_everything(state: ConnectionState, rooms: Seq<nat>)
    requires
        state.receiver.valid(),
    ensures
        ({
            let (last, out) = run(state, readings(rooms));
            &&& last.receiver.valid()
            &&& last.receiver.start == state.receiver.start + out.len()
            &&& last.receiver.available() == state.receiver.available() - out.len()
            &&& forall|i: int|
                0 <= i < out.len() ==> #[trigger] out[i] == state.receiver.byte(
                    state.receiver.start + i,
                )
            &&& out.len() < state.receiver.available() ==> out.len() == room_in_all(rooms)
        }),
    decreases rooms.len(),
{
    if rooms.len() > 0 {
        let earlier = rooms.drop_last();
        assert(readings(rooms).drop_last() =~= readings(earlier));
        assert(readings(rooms).last() == (Event::Reading { room: rooms.last() }));
        law_reader_gets_everything(state, earlier);
        let (before, out) = run(state, readings(earlier));
        let more = handed_out(before, Event::Reading { room: rooms.last() });
        let held = |x: int| state.receiver.byte(x);
        law_reader_leaves_nothing_behind(before, rooms.last());
        if before.receiver.missing.len() > 0 {
            assert(before.receiver.missing[0].begin < before.receiver.missing[0].end);
            assert(before.receiver.missing[0].end <= before.receiver.head());
            assert(before.receiver.start <= before.receiver.missing[0].begin);
        }
        receive::law_advance_keeps_valid(before.receiver, before.readable(rooms.last()));
        delivery::law_available_is_the_longest_run(state.receiver);
        delivery::law_available_is_the_longest_run(before.receiver);
        assert(delivery::agrees(state.receiver, held));
        assert(arrivals_carry(readings(earlier), held));
        law_output_is_the_stream(state, readings(earlier), held);
        let all = out + more;
        assert forall|i: int| 0 <= i < all.len() implies #[trigger] all[i] == state.receiver.byte(
            state.receiver.start + i,
        ) by {
            if i >= out.len() {
                let k = i - out.len();
                assert(more[k] == before.receiver.byte(before.receiver.start + k));
                assert(before.receiver.has(before.receiver.start + k));
                assert(before.receiver.byte(before.receiver.start + k) == held(
                    before.receiver.start + k,
                ));
            }
        }
        assert(run(state, readings(rooms)).1 == all);
    }
}

/// How much room some reads have together.
pub open spec fn room_in_all(rooms: Seq<nat>) -> nat
    decreases rooms.len(),
{
    if rooms.len() == 0 {
        0
    } else {
        room_in_all(rooms.drop_last()) + rooms.last()
    }
}

} // verus!
