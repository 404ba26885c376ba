//! What the packets of a sender add up to.

use crate::network;
use crate::range_set;
use crate::receive;
use crate::sende;
use crate::sende::SenderState;
use crate::wire;
use vstd::prelude::*;

verus! {

/// The smallest buffer in which a packet carries something.
pub const MIN_CARRYING_SIZE: usize = 17;

/// The largest buffer in which no chunk gets too long for its head.
pub const MAX_CARRYING_SIZE: usize = 2053;

/// What is done with a sender.
pub enum Step {
    /// The stream grows by `more`.
    Write { more: Seq<u8> },
    /// A packet is made, with room for `room` bytes.
    Generate { room: nat },
}

/// The state after some steps, and the packets that they made.
pub open spec fn outcome(state: SenderState, steps: Seq<Step>) -> (SenderState, Seq<Seq<u8>>)
    decreases steps.len(),
{
    if steps.len() == 0 {
        (state, Seq::empty())
    } else {
        let (before, packets) = outcome(state, steps.drop_last());
        match steps.last() {
            Step::Write { more } => (before.extend(more), packets),
            Step::Generate { room } => (
                before.after_packet(room as int),
                packets.push(before.packet(room as int)),
            ),
        }
    }
}

/// What is written fits, and every packet has room for something.
pub open spec fn allowed(state: SenderState, steps: Seq<Step>) -> bool
    decreases steps.len(),
{
    if steps.len() == 0 {
        true
    } else {
        let before = outcome(state, steps.drop_last()).0;
        allowed(state, steps.drop_last()) && match steps.last() {
            Step::Write { more } => {
                &&& before.bytes.len() + more.len() <= before.cap
                &&& before.front() + more.len() <= u64::MAX
            },
            Step::Generate { room } => MIN_CARRYING_SIZE <= room <= MAX_CARRYING_SIZE,
        }
    }
}

/// All bytes that the steps write.
pub open spec fn written(steps: Seq<Step>) -> Seq<u8>
    decreases steps.len(),
{
    if steps.len() == 0 {
        Seq::empty()
    } else {
        match steps.last() {
            Step::Write { more } => written(steps.drop_last()) + more,
            Step::Generate { room } => written(steps.drop_last()),
        }
    }
}

/// How much room each of the packets had.
pub open spec fn rooms(steps: Seq<Step>) -> Seq<nat>
    decreases steps.len(),
{
    if steps.len() == 0 {
        Seq::empty()
    } else {
        match steps.last() {
            Step::Write { more } => rooms(steps.drop_last()),
            Step::Generate { room } => rooms(steps.drop_last()).push(room),
        }
    }
}

/// What the chunks of a packet carry from `pos` on.
pub open spec fn payload(packet: Seq<u8>, pos: int) -> Seq<u8>
    decreases packet.len() - pos,
{
    let next = pos + 2 + wire::chunk_size(packet, pos);
    if pos + 2 > packet.len() || next > packet.len() {
        Seq::empty()
    } else {
        wire::chunk_body(packet, pos).skip(8) + payload(packet, next)
    }
}

/// From `pos` on the packet holds nothing but whole segment chunks, of which the first has the
/// stream offset `offset`, and each other one the offset at which the one before it ends.
pub open spec fn offsets_follow(packet: Seq<u8>, pos: int, offset: int) -> bool
    decreases packet.len() - pos,
{
    let next = pos + 2 + wire::chunk_size(packet, pos);
    let chunk = wire::chunk_body(packet, pos);
    if pos + 2 > packet.len() || next > packet.len() {
        pos == packet.len()
    } else {
        &&& wire::chunk_kind(packet, pos) == wire::CHUNK_SEGMENT
        &&& receive::segment_ok(chunk)
        &&& receive::le_offset(chunk) == offset
        &&& offsets_follow(packet, next, offset + chunk.len() - 8)
    }
}

/// What the chunks of all packets carry.
pub open spec fn all_payload(packets: Seq<Seq<u8>>) -> Seq<u8>
    decreases packets.len(),
{
    if packets.len() == 0 {
        Seq::empty()
    } else {
        all_payload(packets.drop_last()) + payload(packets.last(), 4)
    }
}

/// The stream offset of each chunk is the number of bytes that the chunks before it carry.
pub open spec fn all_offsets_follow(packets: Seq<Seq<u8>>) -> bool
    decreases packets.len(),
{
    if packets.len() == 0 {
        true
    } else {
        all_offsets_follow(packets.drop_last()) && offsets_follow(
            packets.last(),
            4,
            all_payload(packets.drop_last()).len() as int,
        )
    }
}

/// A sender that has taken in nothing.
pub open spec fn is_new(state: SenderState) -> bool {
    &&& state.valid()
    &&& state.start == 0
    &&& state.bytes.len() == 0
    &&& state.pending.len() == 0
    &&& state.next_seq == 0
}

/// Everything from the offset `sent` on is to be sent, and nothing before it.
#[verifier::opaque]
spec fn to_be_sent_from(state: SenderState, sent: int) -> bool {
    &&& state.start <= sent <= state.front()
    &&& forall|x: int| #[trigger]
        range_set::covers(state.pending, x) <==> sent <= x < state.front()
}

/// The stretches of the next packet: one, or none where there is nothing to be sent.
spec fn next_stretch(state: SenderState, sent: int, room: int) -> Seq<(u64, u64)> {
    if sent == state.front() {
        Seq::empty()
    } else if state.front() - sent < room - 14 {
        seq![(sent as u64, state.front() as u64)]
    } else {
        seq![(sent as u64, (sent + room - 14) as u64)]
    }
}

proof fn lemma_plan_is_next_stretch(state: SenderState, sent: int, room: int)
    requires
        state.valid(),
        to_be_sent_from(state, sent),
        MIN_CARRYING_SIZE <= room,
    ensures
        sende::plan(state.pending, room - 4) == next_stretch(state, sent, room),
{
    reveal(to_be_sent_from);
    let list = if sent == state.front() {
        Seq::<(u64, u64)>::empty()
    } else {
        seq![(sent as u64, state.front() as u64)]
    };
    assert forall|x: int| #[trigger] range_set::covers(list, x) <==> sent <= x < state.front() by {
        if sent <= x < state.front() {
            assert(list[0].0 <= x < list[0].1);
        }
    }
    range_set::law_offsets_determine_ranges(state.pending, list);
    if sent < state.front() {
        let left = room - 4;
        let (begin, end) = state.pending[0];
        let size = if end - begin + 8 < left - 2 {
            end - begin + 8
        } else {
            left - 2
        };
        assert(state.pending.skip(1) =~= Seq::empty());
        assert(sende::plan(state.pending.skip(1), left - 2 - size) =~= Seq::empty());
        assert(sende::plan(state.pending, left) =~= next_stretch(state, sent, room));
    }
}

/// `packet` carries what follows what was sent, and `after` is the state once it was made.
spec fn carries_on(
    state: SenderState,
    sent: int,
    packet: Seq<u8>,
    after: SenderState,
    room: int,
) -> bool {
    let more = payload(packet, 4);
    &&& sent + more.len() <= state.front()
    &&& sent < state.front() ==> more.len() > 0
    &&& more == state.bytes.subrange(sent - state.start, sent - state.start + more.len())
    &&& offsets_follow(packet, 4, sent)
    &&& packet.take(4) == wire::le_bytes(state.next_seq as nat, 4)
    &&& 4 <= packet.len() <= room
    &&& packet.len() == 4 <==> sent == state.front()
    &&& after.valid()
    &&& after.start == state.start
    &&& after.bytes == state.bytes
    &&& after.next_seq as int == (state.next_seq + 1) % 0x1_0000_0000
    &&& to_be_sent_from(after, sent + more.len())
}

/// The next packet carries what follows what was sent, and nothing else.
proof fn lemma_next_packet(state: SenderState, sent: int, room: int)
    requires
        state.valid(),
        to_be_sent_from(state, sent),
        MIN_CARRYING_SIZE <= room <= MAX_CARRYING_SIZE,
    ensures
        carries_on(state, sent, state.packet(room), state.after_packet(room), room),
{
    reveal(to_be_sent_from);
    let packet = state.packet(room);
    let list = next_stretch(state, sent, room);
    lemma_plan_is_next_stretch(state, sent, room);
    wire::lemma_le_bytes_len(state.next_seq as nat, 4);
    assert(packet.take(4) =~= wire::le_bytes(state.next_seq as nat, 4));
    assert(packet.skip(4) =~= state.chunks(list));
    sende::law_sent_bytes_are_taken_off(state, list);
    let after = state.after_packet(room);
    if sent == state.front() {
        assert(state.chunks(list) =~= Seq::empty());
        assert(payload(packet, 4) =~= Seq::empty());
        assert(state.bytes.subrange(sent - state.start, sent - state.start) =~= Seq::empty());
        assert forall|x: int| #[trigger] range_set::covers(after.pending, x) <==> sent <= x
            < state.front() by {
            assert(!range_set::covers(list, x));
            assert(range_set::covers(after.pending, x) <==> range_set::covers(state.pending, x));
        }
    } else {
        let range = list[0];
        let size = range.1 - range.0 + 8;
        assert(network::sendable(state, list));
        sende::lemma_chunk_len(state, range);
        assert(list.drop_last() =~= Seq::empty());
        assert(state.chunks(list.drop_last()) =~= Seq::empty());
        assert(state.chunks(list) =~= state.chunk(range));
        network::lemma_read_first(state, packet, 4, list);
        let next = 4 + 2 + size;
        assert(list.skip(1) =~= Seq::empty());
        assert(state.chunks(list.skip(1)) =~= Seq::empty());
        assert(packet.skip(next).len() == 0);
        assert(next == packet.len());
        assert(payload(packet, next) =~= Seq::empty());
        assert(payload(packet, 4) =~= state.stretch(range));
        assert(offsets_follow(packet, next, sent + (size - 8)));
        assert forall|x: int| #[trigger] range_set::covers(after.pending, x) <==> sent + (size - 8)
            <= x < state.front() by {
            assert(range_set::covers(list, x) <==> range.0 <= x < range.1) by {
                if range.0 <= x < range.1 {
                    assert(list[0].0 <= x < list[0].1);
                }
            }
            assert(range_set::covers(after.pending, x) <==> range_set::covers(state.pending, x)
                && !range_set::covers(list, x));
        }
    }
}

/// Every packet has its number, and is no larger than its buffer.
pub open spec fn numbered_and_fitting(packets: Seq<Seq<u8>>, sizes: Seq<nat>) -> bool {
    &&& packets.len() == sizes.len()
    &&& forall|k: int|
        0 <= k < packets.len() ==> (#[trigger] packets[k]).take(4) == wire::le_bytes(
            (k % 0x1_0000_0000) as nat,
            4,
        ) && packets[k].len() <= sizes[k]
}

/// What holds after some steps.
spec fn reached(
    last: SenderState,
    packets: Seq<Seq<u8>>,
    stream: Seq<u8>,
    sizes: Seq<nat>,
) -> bool {
    let carried = all_payload(packets);
    &&& last.valid()
    &&& last.start == 0
    &&& last.bytes == stream
    &&& to_be_sent_from(last, carried.len() as int)
    &&& carried == stream.take(carried.len() as int)
    &&& all_offsets_follow(packets)
    &&& last.next_seq as int == packets.len() as int % 0x1_0000_0000
    &&& numbered_and_fitting(packets, sizes)
}

proof fn lemma_write_step(
    before: SenderState,
    packets: Seq<Seq<u8>>,
    stream: Seq<u8>,
    sizes: Seq<nat>,
    more: Seq<u8>,
)
    requires
        reached(before, packets, stream, sizes),
        before.bytes.len() + more.len() <= before.cap,
        before.front() + more.len() <= u64::MAX,
    ensures
        reached(before.extend(more), packets, stream + more, sizes),
{
    reveal(to_be_sent_from);
    let last = before.extend(more);
    let carried = all_payload(packets);
    sende::law_new_bytes_are_to_be_sent(before, more);
    assert(carried =~= (stream + more).take(carried.len() as int));
    assert forall|x: int| #[trigger] range_set::covers(last.pending, x) <==> carried.len() <= x
        < last.front() by {
        assert(range_set::covers(before.pending, x) <==> carried.len() <= x < before.front());
    }
}

proof fn lemma_one_more_packet(made: Seq<Seq<u8>>, packet: Seq<u8>, stream: Seq<u8>)
    requires
        all_payload(made).len() + payload(packet, 4).len() <= stream.len(),
        all_payload(made) == stream.take(all_payload(made).len() as int),
        payload(packet, 4) == stream.subrange(
            all_payload(made).len() as int,
            (all_payload(made).len() + payload(packet, 4).len()) as int,
        ),
        all_offsets_follow(made),
        offsets_follow(packet, 4, all_payload(made).len() as int),
    ensures
        all_payload(made.push(packet)).len() == all_payload(made).len() + payload(packet, 4).len(),
        all_payload(made.push(packet)) == stream.take(all_payload(made.push(packet)).len() as int),
        all_offsets_follow(made.push(packet)),
{
    let packets = made.push(packet);
    assert(packets.drop_last() =~= made);
    assert(packets.last() == packet);
    assert(all_payload(packets) == all_payload(made) + payload(packet, 4));
    assert(all_payload(packets) =~= stream.take(all_payload(packets).len() as int));
}

proof fn lemma_one_more_number(
    made: Seq<Seq<u8>>,
    packet: Seq<u8>,
    sizes: Seq<nat>,
    room: nat,
)
    requires
        numbered_and_fitting(made, sizes),
        packet.take(4) == wire::le_bytes((made.len() as int % 0x1_0000_0000) as nat, 4),
        packet.len() <= room,
    ensures
        numbered_and_fitting(made.push(packet), sizes.push(room)),
{
    let packets = made.push(packet);
    assert forall|k: int| 0 <= k < packets.len() implies (#[trigger] packets[k]).take(4)
        == wire::le_bytes((k % 0x1_0000_0000) as nat, 4) && packets[k].len() <= sizes.push(
        room,
    )[k] by {
        if k < made.len() {
            assert(packets[k] == made[k]);
        }
    }
}

proof fn lemma_generate_step(
    before: SenderState,
    made: Seq<Seq<u8>>,
    stream: Seq<u8>,
    sizes: Seq<nat>,
    packet: Seq<u8>,
    after: SenderState,
    room: nat,
)
    requires
        reached(before, made, stream, sizes),
        carries_on(before, all_payload(made).len() as int, packet, after, room as int),
    ensures
        reached(after, made.push(packet), stream, sizes.push(room)),
{
    lemma_one_more_packet(made, packet, stream);
    lemma_one_more_number(made, packet, sizes, room);
}

proof fn lemma_outcome(state: SenderState, steps: Seq<Step>)
    requires
        is_new(state),
        allowed(state, steps),
    ensures
        reached(
            outcome(state, steps).0,
            outcome(state, steps).1,
            written(steps),
            rooms(steps),
        ),
    decreases steps.len(),
{
    if steps.len() == 0 {
        reveal(to_be_sent_from);
        assert(state.bytes =~= Seq::empty());
        assert forall|x: int| #[trigger] range_set::covers(state.pending, x) <==> 0 <= x
            < state.front() by {}
        assert(written(steps).take(0) =~= Seq::empty());
    } else {
        let earlier = steps.drop_last();
        lemma_outcome(state, earlier);
        let (before, made) = outcome(state, earlier);
        match steps.last() {
            Step::Write { more } => {
                lemma_write_step(before, made, written(earlier), rooms(earlier), more);
            },
            Step::Generate { room } => {
                lemma_next_packet(before, all_payload(made).len() as int, room as int);
                lemma_generate_step(
                    before,
                    made,
                    written(earlier),
                    rooms(earlier),
                    before.packet(room as int),
                    before.after_packet(room as int),
                    room,
                );
            },
        }
    }
}

/// Whatever is written to a new sender, and however packets are made in between: the packets
/// carry what was written from its beginning on, each byte once and in order, each chunk under
/// the offset at which its bytes stand; they are numbered from 0 on, modulo 2^32; none is larger
/// than its buffer.
pub proof fn law_packets_carry_each_byte_once(state: SenderState, steps: Seq<Step>)
    requires
        is_new(state),
        allowed(state, steps),
    ensures
        ({
            let packets = outcome(state, steps).1;
            let carried = all_payload(packets);
            &&& carried.len() <= written(steps).len()
            &&& carried == written(steps).take(carried.len() as int)
            &&& all_offsets_follow(packets)
            &&& numbered_and_fitting(packets, rooms(steps))
        }),
{
    reveal(to_be_sent_from);
    lemma_outcome(state, steps);
}

/// A packet is no longer than its number exactly where the packets before it carry everything
/// that was written. Until then each packet carries more of it.
pub proof fn law_empty_packet_means_all_was_sent(state: SenderState, steps: Seq<Step>, room: nat)
    requires
        is_new(state),
        allowed(state, steps),
        MIN_CARRYING_SIZE <= room <= MAX_CARRYING_SIZE,
    ensures
        ({
            let (last, packets) = outcome(state, steps);
            let packet = last.packet(room as int);
            &&& packet.len() == 4 <==> all_payload(packets) == written(steps)
            &&& packet.len() > 4 ==> payload(packet, 4).len() > 0
        }),
{
    reveal(to_be_sent_from);
    let (last, packets) = outcome(state, steps);
    let carried = all_payload(packets);
    lemma_outcome(state, steps);
    lemma_next_packet(last, carried.len() as int, room as int);
    if carried.len() == written(steps).len() {
        assert(carried =~= written(steps));
    }
}

} // verus!
