//! What a receiver promises about the stream that it puts together.

use crate::missing;
use crate::receive;
use crate::receive::ReceiverState;
use crate::wire;
use vstd::prelude::*;

verus! {

/// A stream, by the byte at each offset.
pub type Stream = spec_fn(int) -> u8;

/// Every byte that was received is the stream's byte at its offset.
pub open spec fn agrees(state: ReceiverState, stream: Stream) -> bool {
    forall|x: int| #[trigger] state.has(x) ==> state.byte(x) == stream(x)
}

/// `payload` is what the stream holds from `begin` on.
pub open spec fn piece_of(begin: int, payload: Seq<u8>, stream: Stream) -> bool {
    forall|i: int| 0 <= i < payload.len() ==> #[trigger] payload[i] == stream(begin + i)
}

/// One past the last stream offset that the ring has a slot for.
pub open spec fn window_end(state: ReceiverState) -> int {
    state.start + state.ring.len() - 1
}

/// A receiver that has received nothing agrees with every stream.
pub proof fn law_empty_receiver_agrees(state: ReceiverState, stream: Stream)
    requires
        state.known == 0,
    ensures
        agrees(state, stream),
{
}

pub proof fn lemma_missing_at_push(
    list: Seq<missing::MissingSegment>,
    m: missing::MissingSegment,
    x: int,
)
    ensures
        missing::missing_at(list.push(m), x) <==> missing::missing_at(list, x) || m.begin <= x
            < m.end,
{
    let more = list.push(m);
    if missing::missing_at(list, x) {
        let i = choose|i: int| 0 <= i < list.len() && (#[trigger] list[i]).begin <= x < list[i].end;
        assert(more[i] == list[i]);
    }
    if m.begin <= x < m.end {
        assert(more[list.len() as int] == m);
    }
    if missing::missing_at(more, x) {
        let i = choose|i: int| 0 <= i < more.len() && (#[trigger] more[i]).begin <= x < more[i].end;
        if i < list.len() {
            assert(list[i] == more[i]);
        }
    }
}

/// Taking in a piece adds exactly those of its bytes that were not read yet and that the
/// ring has a slot for; no byte that was received is lost.
pub proof fn law_piece_adds_exactly_its_bytes(
    state: ReceiverState,
    begin: u64,
    payload: Seq<u8>,
    now: u64,
    x: int,
)
    requires
        state.valid(),
        begin + payload.len() <= u64::MAX,
    ensures
        state.accept(begin, payload, now).has(x) <==> state.has(x) || (begin <= x < begin
            + payload.len() && state.start <= x < window_end(state)),
{
    let end = begin + payload.len();
    let next = state.accept(begin, payload, now);
    if end > state.start {
        let from = if begin < state.start {
            state.start
        } else {
            begin as int
        };
        let cut = missing::cut_all(state.missing, from as u64, end as u64, now);
        if state.missing.len() > 0 {
            assert(state.missing.last() == state.missing[state.missing.len() - 1]);
            assert(state.missing.last().end <= state.head());
        }
        missing::law_cut_removes_exactly_the_received(
            state.missing,
            from as u64,
            end as u64,
            now,
            x,
        );
        lemma_missing_at_push(
            cut,
            missing::MissingSegment {
                begin: state.head() as u64,
                end: state.resume(from) as u64,
                timestamp: now,
            },
            x,
        );
        lemma_missing_is_known(state, x);
    }
}

/// Only known bytes are missing.
proof fn lemma_missing_is_known(state: ReceiverState, x: int)
    requires
        state.valid(),
    ensures
        missing::missing_at(state.missing, x) ==> state.start <= x < state.head(),
{
    if missing::missing_at(state.missing, x) {
        let i = choose|i: int|
            0 <= i < state.missing.len() && (#[trigger] state.missing[i]).begin <= x
                < state.missing[i].end;
        assert(state.start <= state.missing[i].begin);
    }
}

/// A receiver that takes in a piece of the stream keeps agreeing with the stream.
pub proof fn law_piece_keeps_agreement(
    state: ReceiverState,
    begin: u64,
    payload: Seq<u8>,
    now: u64,
    stream: Stream,
)
    requires
        state.valid(),
        begin + payload.len() <= u64::MAX,
        agrees(state, stream),
        piece_of(begin as int, payload, stream),
    ensures
        agrees(state.accept(begin, payload, now), stream),
{
    let next = state.accept(begin, payload, now);
    let end = begin + payload.len();
    receive::law_accept_keeps_valid(state, begin, payload, now);
    if end > state.start {
        let from = if begin < state.start {
            state.start
        } else {
            begin as int
        };
        let tail = state.resume(from);
        if state.missing.len() > 0 {
            assert(state.missing.last() == state.missing[state.missing.len() - 1]);
            assert(state.missing.last().end <= state.head());
        }
        assert forall|x: int| #[trigger] next.has(x) implies next.byte(x) == stream(x) by {
            law_piece_adds_exactly_its_bytes(state, begin, payload, now, x);
            if from <= x < end {
                assert(payload[x - begin] == stream(begin + (x - begin)));
            }
            if state.has(x) {
                assert(state.byte(x) == stream(x));
            }
        }
    }
}

/// What is handed out next is the stream, in order and without gaps.
pub proof fn law_read_hands_out_the_stream(state: ReceiverState, stream: Stream, i: int)
    requires
        state.valid(),
        agrees(state, stream),
        0 <= i < state.available(),
    ensures
        state.ring.take(state.available() as int)[i] == stream(state.start + i),
{
    let x = state.start + i;
    if missing::missing_at(state.missing, x) {
        missing::law_first_is_the_earliest_missing(state.missing, x);
    }
    if state.missing.len() > 0 {
        assert(state.missing[0].begin < state.missing[0].end);
    }
    assert(state.has(x));
    assert(state.byte(x) == stream(x));
}

/// Everything from the next byte to be read up to the first missing one can be read.
pub proof fn law_available_is_the_longest_run(state: ReceiverState)
    requires
        state.valid(),
    ensures
        forall|x: int|
            state.start <= x < state.start + state.available() ==> #[trigger] state.has(x),
        !state.has(state.start + state.available()),
{
    assert forall|x: int| state.start <= x < state.start + state.available() implies
    #[trigger] state.has(x) by {
        if missing::missing_at(state.missing, x) {
            missing::law_first_is_the_earliest_missing(state.missing, x);
        }
        if state.missing.len() > 0 {
            assert(state.missing[0].begin < state.missing[0].end);
        }
    }
    if state.missing.len() > 0 {
        assert(state.missing[0].begin < state.missing[0].end);
        assert(missing::missing_at(state.missing, state.missing[0].begin as int));
    }
}

/// Once everything up to `end` was received, all of it can be read.
pub proof fn law_what_was_received_can_be_read(state: ReceiverState, end: int)
    requires
        state.valid(),
        forall|x: int| state.start <= x < end ==> #[trigger] state.has(x),
    ensures
        state.available() >= end - state.start,
{
    law_available_is_the_longest_run(state);
}

/// Reading keeps the agreement with the stream and loses no byte that was not read.
pub proof fn law_read_keeps_agreement(state: ReceiverState, n: nat, stream: Stream)
    requires
        state.valid(),
        n <= state.available(),
        agrees(state, stream),
    ensures
        agrees(state.advance(n), stream),
        forall|x: int| #[trigger]
            state.advance(n).has(x) <==> state.has(x) && x >= state.start + n,
{
    let next = state.advance(n);
    receive::law_advance_keeps_valid(state, n);
    assert forall|x: int| #[trigger] next.has(x) implies next.byte(x) == stream(x) by {
        assert(state.has(x));
        assert(state.byte(x) == stream(x));
        assert(next.byte(x) == state.byte(x));
    }
}

/// In whatever order two pieces arrive, the same bytes have been received afterwards.
pub proof fn law_order_of_arrival_does_not_matter(
    state: ReceiverState,
    begin1: u64,
    payload1: Seq<u8>,
    now1: u64,
    begin2: u64,
    payload2: Seq<u8>,
    now2: u64,
    x: int,
)
    requires
        state.valid(),
        begin1 + payload1.len() <= u64::MAX,
        begin2 + payload2.len() <= u64::MAX,
    ensures
        state.accept(begin1, payload1, now1).accept(begin2, payload2, now2).has(x)
            <==> state.accept(begin2, payload2, now2).accept(begin1, payload1, now1).has(x),
{
    let one = state.accept(begin1, payload1, now1);
    let two = state.accept(begin2, payload2, now2);
    receive::law_accept_keeps_valid(state, begin1, payload1, now1);
    receive::law_accept_keeps_valid(state, begin2, payload2, now2);
    law_piece_adds_exactly_its_bytes(state, begin1, payload1, now1, x);
    law_piece_adds_exactly_its_bytes(state, begin2, payload2, now2, x);
    law_piece_adds_exactly_its_bytes(one, begin2, payload2, now2, x);
    law_piece_adds_exactly_its_bytes(two, begin1, payload1, now1, x);
}

/// Every segment chunk of `data` from `pos` on that is taken in holds a piece of the stream.
pub open spec fn packet_agrees(data: Seq<u8>, pos: int, stream: Stream) -> bool
    decreases data.len() - pos,
{
    let next = pos + 2 + wire::chunk_size(data, pos);
    if pos + 2 > data.len() || next > data.len() || wire::chunk_kind(data, pos)
        != wire::CHUNK_SEGMENT {
        true
    } else {
        let chunk = wire::chunk_body(data, pos);
        piece_of(receive::le_offset(chunk) as int, chunk.skip(8), stream) && packet_agrees(
            data,
            next,
            stream,
        )
    }
}

/// A receiver that takes in a packet whose chunks are pieces of the stream keeps agreeing
/// with the stream, even where the packet is faulty further on, and loses no byte that it
/// had received.
pub proof fn law_packet_keeps_agreement(
    state: ReceiverState,
    data: Seq<u8>,
    pos: int,
    now: u64,
    stream: Stream,
)
    requires
        0 <= pos,
        state.valid(),
        agrees(state, stream),
        receive::segments_ok(data, pos),
        packet_agrees(data, pos, stream),
    ensures
        receive::receive_from(state, data, pos, now).0.valid(),
        agrees(receive::receive_from(state, data, pos, now).0, stream),
        receive::receive_from(state, data, pos, now).0.start == state.start,
        forall|x: int| #[trigger]
            state.has(x) ==> receive::receive_from(state, data, pos, now).0.has(x),
    decreases data.len() - pos,
{
    let next = pos + 2 + wire::chunk_size(data, pos);
    if pos + 2 > data.len() || next > data.len() || wire::chunk_kind(data, pos)
        != wire::CHUNK_SEGMENT {
    } else {
        let chunk = wire::chunk_body(data, pos);
        let begin = receive::le_offset(chunk) as u64;
        wire::lemma_le_value_range(chunk.take(8));
        wire::lemma_le_ranges();
        receive::law_accept_keeps_valid(state, begin, chunk.skip(8), now);
        law_piece_keeps_agreement(state, begin, chunk.skip(8), now, stream);
        let one = state.accept(begin, chunk.skip(8), now);
        law_packet_keeps_agreement(one, data, next, now, stream);
        assert forall|x: int| #[trigger] state.has(x) implies receive::receive_from(
            state,
            data,
            pos,
            now,
        ).0.has(x) by {
            law_piece_adds_exactly_its_bytes(state, begin, chunk.skip(8), now, x);
            assert(one.has(x));
        }
    }
}

proof fn lemma_cut_again(
    list: Seq<missing::MissingSegment>,
    begin: u64,
    end: u64,
    now1: u64,
    now2: u64,
)
    requires
        missing::in_order(list),
        begin <= end,
    ensures
        missing::cut_all(missing::cut_all(list, begin, end, now1), begin, end, now2)
            == missing::cut_all(list, begin, end, now1),
        forall|i: int|
            0 <= i < missing::cut_all(list, begin, end, now1).len() ==> (
            #[trigger] missing::cut_all(list, begin, end, now1)[i]).end <= begin
                || missing::cut_all(list, begin, end, now1)[i].begin >= end,
    decreases list.len(),
{
    let cut = missing::cut_all(list, begin, end, now1);
    lemma_cut_apart(list, begin, end, now1);
    missing::lemma_cut_all_concat(cut, 0, begin, end, now2);
    assert(cut.take(0) =~= Seq::empty());
    assert(missing::cut_all(cut.take(0), begin, end, now2) + cut.skip(0) =~= cut);
}

proof fn lemma_cut_apart(list: Seq<missing::MissingSegment>, begin: u64, end: u64, now: u64)
    requires
        missing::in_order(list),
        begin <= end,
    ensures
        forall|i: int|
            0 <= i < missing::cut_all(list, begin, end, now).len() ==> (
            #[trigger] missing::cut_all(list, begin, end, now)[i]).end <= begin
                || missing::cut_all(list, begin, end, now)[i].begin >= end,
    decreases list.len(),
{
    if list.len() > 0 {
        let rest = list.drop_last();
        lemma_cut_apart(rest, begin, end, now);
        let left = missing::cut_all(rest, begin, end, now);
        let right = missing::leftover(list.last(), begin, end, now);
        let all = missing::cut_all(list, begin, end, now);
        assert(all == left + right);
        assert forall|i: int| 0 <= i < all.len() implies (#[trigger] all[i]).end <= begin
            || all[i].begin >= end by {
            if i < left.len() {
                assert(all[i] == left[i]);
            } else {
                assert(all[i] == right[i - left.len()]);
            }
        }
    }
}

/// Receiving a piece once more changes nothing. Where the piece is too long for the ring, it
/// must repeat what was received before it, up to the end of the last gap that it fills.
pub proof fn law_duplicates_change_nothing(
    state: ReceiverState,
    begin: u64,
    payload: Seq<u8>,
    now1: u64,
    now2: u64,
)
    requires
        state.valid(),
        begin + payload.len() <= u64::MAX,
        begin + payload.len() <= window_end(state) || forall|x: int|
            begin <= x < state.resume(begin as int) && #[trigger] state.has(x)
                ==> payload[x - begin] == state.byte(x),
    ensures
        state.accept(begin, payload, now1).accept(begin, payload, now2) == state.accept(
            begin,
            payload,
            now1,
        ),
{
    let end = begin + payload.len();
    if end > state.start {
        let from = if begin < state.start {
            state.start
        } else {
            begin as int
        };
        let one = state.accept(begin, payload, now1);
        let two = one.accept(begin, payload, now2);
        let cut = missing::cut_all(state.missing, from as u64, end as u64, now1);
        receive::law_accept_keeps_valid(state, begin, payload, now1);
        if state.missing.len() > 0 {
            assert(state.missing.last() == state.missing[state.missing.len() - 1]);
            assert(state.missing.last().end <= state.head());
        }
        lemma_cut_again(state.missing, from as u64, end as u64, now1, now2);
        missing::lemma_cut_all_within(
            state.missing,
            from as u64,
            end as u64,
            now1,
            state.start,
            state.head(),
        );
        assert forall|i: int| 0 <= i < one.missing.len() implies (#[trigger] one.missing[i]).end
            <= from || one.missing[i].begin >= end by {
            if i < cut.len() {
                assert(one.missing[i] == cut[i]);
            }
        }
        missing::lemma_cut_all_concat(one.missing, 0, from as u64, end as u64, now2);
        assert(one.missing.take(0) =~= Seq::empty());
        assert(missing::cut_all(one.missing, from as u64, end as u64, now2) =~= one.missing);
        if one.missing.len() > 0 {
            assert(one.missing.last() == one.missing[one.missing.len() - 1]);
        }
        assert forall|i: int| 0 <= i < one.ring.len() implies two.ring[i] == one.ring[i] by {
            let x = one.start + i;
            if from <= x < end {
                lemma_missing_apart(one.missing, from, end, x);
                if !missing::missing_at(state.missing, x) && x < state.head() {
                    assert(state.has(x));
                }
            }
        }
        assert(two.ring =~= one.ring);
        assert(two =~= one);
    }
}

proof fn lemma_missing_apart(
    list: Seq<missing::MissingSegment>,
    begin: int,
    end: int,
    x: int,
)
    requires
        begin <= x < end,
        forall|i: int|
            0 <= i < list.len() ==> (#[trigger] list[i]).end <= begin || list[i].begin >= end,
    ensures
        !missing::missing_at(list, x),
{
}

/// A read hands out all there is before the first gap, or as much as there is room for: it
/// leaves nothing behind that it has room for. Where a byte is there and room for one, it hands
/// out a byte.
pub proof fn law_read_leaves_nothing_behind(state: ReceiverState, room: nat)
    requires
        state.valid(),
    ensures
        state.readable(room) <= room,
        state.readable(room) == room || !state.has(state.start + state.readable(room)),
        forall|x: int|
            state.start <= x < state.start + state.readable(room) ==> #[trigger] state.has(x),
        room > 0 && state.has(state.start) ==> state.readable(room) > 0,
        state.advance(state.readable(room)).start == state.start + state.readable(room),
        state.advance(state.readable(room)).missing == state.missing,
        state.advance(state.readable(room)).head() == state.head(),
{
    law_available_is_the_longest_run(state);
    receive::law_advance_keeps_valid(state, state.readable(room));
}

/// The state after some reads, each with room for so many bytes, and all that they handed out.
pub open spec fn after_reads(state: ReceiverState, rooms: Seq<nat>) -> (ReceiverState, Seq<u8>)
    decreases rooms.len(),
{
    if rooms.len() == 0 {
        (state, Seq::empty())
    } else {
        let n = state.readable(rooms[0]);
        let (last, out) = after_reads(state.advance(n), rooms.skip(1));
        (last, state.ring.take(n as int) + out)
    }
}

/// How much room some reads have together.
pub open spec fn total_room(rooms: Seq<nat>) -> nat
    decreases rooms.len(),
{
    if rooms.len() == 0 {
        0
    } else {
        rooms[0] + total_room(rooms.skip(1))
    }
}

/// However it is cut into reads, a reader gets what was received before the first gap, each byte
/// once and in order: all of it, or as much as the reads have room for together.
pub proof fn law_reads_hand_out_everything(state: ReceiverState, rooms: Seq<nat>)
    requires
        state.valid(),
    ensures
        ({
            let (last, out) = after_reads(state, rooms);
            &&& out.len() <= state.available()
            &&& out.len() == total_room(rooms) || (out.len() == state.available() && out.len()
                <= total_room(rooms))
            &&& forall|i: int|
                0 <= i < out.len() ==> #[trigger] out[i] == state.byte(state.start + i)
            &&& last.start == state.start + out.len()
            &&& last.valid()
        }),
    decreases rooms.len(),
{
    if rooms.len() > 0 {
        let n = state.readable(rooms[0]);
        let next = state.advance(n);
        receive::law_advance_keeps_valid(state, n);
        law_reads_hand_out_everything(next, rooms.skip(1));
        if state.missing.len() > 0 {
            assert(state.missing[0].begin < state.missing[0].end);
            assert(state.missing[0].end <= state.head());
            assert(state.start <= state.missing[0].begin);
        }
        let (last, rest) = after_reads(next, rooms.skip(1));
        let out = after_reads(state, rooms).1;
        assert(next.available() == state.available() - n);
        assert forall|i: int| 0 <= i < out.len() implies #[trigger] out[i] == state.byte(
            state.start + i,
        ) by {
            if i >= n {
                assert(rest[i - n] == next.byte(next.start + (i - n)));
            }
        }
    }
}

} // verus!
