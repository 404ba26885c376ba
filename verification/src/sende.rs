//! Cuts a stream into packets.

use crate::circ;
use crate::error::{ErrorKind, SenderError};
use crate::pipe::CircRead;
use crate::range_set;
use crate::range_set::{Edge, RangeSet, StreamRange};
use crate::sequence::Sequence;
use crate::wire;
use circbuf::CircBuf;
use vstd::prelude::*;

verus! {

/// A chunk is only started where this many bytes are left for it.
pub const MIN_CHUNK_ROOM: usize = 13;

/// A piece of the stream.
#[derive(Clone, Copy, Debug, PartialEq, Eq, Structural)]
pub struct Segment {
    /// Offset from the start of the stream.
    pub offset: u64,
    pub size: usize,
}

/// The offset that an edge names.
pub open spec fn edge_offset(edge: Edge) -> int {
    match edge {
        Edge::Included(x) => x as int,
        Edge::Excluded(x) => x as int,
        Edge::Unbounded => 0,
    }
}

/// The first offset that a range with the edge `start` holds.
pub open spec fn first_offset(start: Edge) -> int {
    match start {
        Edge::Included(s) => s as int,
        Edge::Excluded(s) => s + 1,
        Edge::Unbounded => 0,
    }
}

/// The offset after the last one that a range with the edge `end` holds.
pub open spec fn past_offset(end: Edge) -> int {
    match end {
        Edge::Included(e) => e + 1,
        Edge::Excluded(e) => e as int,
        Edge::Unbounded => 0,
    }
}

impl Segment {
    /// The piece that a range with two edges stands for.
    pub fn from(range: &StreamRange) -> (r: Segment)
        requires
            range.start !is Unbounded,
            range.end !is Unbounded,
            edge_offset(range.start) <= edge_offset(range.end),
            first_offset(range.start) <= u64::MAX,
            0 <= past_offset(range.end) - first_offset(range.start) <= usize::MAX,
        ensures
            r.offset == first_offset(range.start),
            r.size == past_offset(range.end) - first_offset(range.start),
    {
        match (range.start, range.end) {
            (Edge::Included(s), Edge::Included(e)) => {
                Segment { offset: s, size: (e - s) as usize + 1 }
            },
            (Edge::Included(s), Edge::Excluded(e)) => {
                Segment { offset: s, size: (e - s) as usize }
            },
            (Edge::Excluded(s), Edge::Excluded(e)) => {
                Segment { offset: s + 1, size: (e - s - 1) as usize }
            },
            (Edge::Excluded(s), Edge::Included(e)) => {
                Segment { offset: s + 1, size: (e - s) as usize }
            },
            _ => Segment { offset: 0, size: 0 },
        }
    }
}

/// What a [`Sender`] holds.
#[verifier::ext_equal]
pub struct SenderState {
    /// Stream offset of the oldest byte that is kept.
    pub start: int,
    /// The bytes of the stream from there on.
    pub bytes: Seq<u8>,
    /// How many bytes can be kept.
    pub cap: nat,
    /// Which stretches of the stream are still to be sent.
    pub pending: Seq<(u64, u64)>,
    /// The number of the next packet.
    pub next_seq: u32,
}

impl SenderState {
    /// Stream offset of the end of what was written so far.
    pub open spec fn front(self) -> int {
        self.start + self.bytes.len()
    }

    pub open spec fn valid(self) -> bool {
        &&& 0 <= self.start
        &&& self.front() <= u64::MAX
        &&& self.bytes.len() <= self.cap < isize::MAX
        &&& range_set::canonical(self.pending)
        &&& range_within(self.pending, self.start, self.front())
    }

    /// The stretch of the stream from `range.0` up to `range.1`.
    pub open spec fn stretch(self, range: (u64, u64)) -> Seq<u8> {
        self.bytes.subrange(range.0 - self.start, range.1 - self.start)
    }

    /// The chunk that carries a stretch of the stream.
    pub open spec fn chunk(self, range: (u64, u64)) -> Seq<u8> {
        wire::chunk_bytes(
            wire::CHUNK_SEGMENT as nat,
            wire::le_bytes(range.0 as nat, 8) + self.stretch(range),
        )
    }

    /// The chunks that carry some stretches of the stream.
    pub open spec fn chunks(self, list: Seq<(u64, u64)>) -> Seq<u8>
        decreases list.len(),
    {
        if list.len() == 0 {
            Seq::empty()
        } else {
            self.chunks(list.drop_last()) + self.chunk(list.last())
        }
    }

    /// The state after `read` more bytes of the stream came in.
    pub open spec fn extend(self, more: Seq<u8>) -> SenderState {
        SenderState {
            bytes: self.bytes + more,
            pending: if more.len() > 0 {
                range_set::plus(
                    self.pending,
                    self.front() as u64,
                    (self.front() + more.len()) as u64,
                )
            } else {
                self.pending
            },
            ..self
        }
    }

    /// The state after everything before the stream offset `offset` was confirmed.
    pub open spec fn confirm(self, offset: u64) -> SenderState {
        if offset <= self.start {
            self
        } else {
            SenderState {
                start: offset as int,
                bytes: self.bytes.skip(offset - self.start),
                pending: range_set::minus(self.pending, 0, offset),
                ..self
            }
        }
    }

    /// The state after `size` bytes from the stream offset `offset` on, as far as they are
    /// kept, were marked to be sent again.
    pub open spec fn requeue(self, offset: u64, size: u16) -> SenderState {
        let begin = if offset < self.start {
            self.start
        } else {
            offset as int
        };
        let end = if offset + size > self.front() {
            self.front()
        } else {
            offset + size
        };
        if begin < end {
            SenderState {
                pending: range_set::plus(self.pending, begin as u64, end as u64),
                ..self
            }
        } else {
            self
        }
    }

    /// The state after a packet that carries `sent` was made.
    pub open spec fn after_sending(self, sent: Seq<(u64, u64)>) -> SenderState {
        SenderState { pending: range_set::minus_all(self.pending, sent), ..self }
    }

    /// The packet that is made where there is room for `room` bytes.
    pub open spec fn packet(self, room: int) -> Seq<u8> {
        packet_bytes(self, plan(self.pending, room - 4))
    }

    /// The state after that packet was made.
    pub open spec fn after_packet(self, room: int) -> SenderState {
        SenderState {
            next_seq: ((self.next_seq + 1) % 0x1_0000_0000) as u32,
            ..self.after_sending(plan(self.pending, room - 4))
        }
    }
}

/// What the stretches to be sent again that a feedback chunk lists from `pos` on lead to: the
/// new state, and what stopped it, if anything.
pub open spec fn requeue_from(state: SenderState, chunk: Seq<u8>, pos: int) -> (
    SenderState,
    Result<(), SenderError>,
)
    decreases chunk.len() - pos,
{
    let offset = wire::le_value(chunk.subrange(pos, pos + 8)) as u64;
    let size = wire::le_value(chunk.subrange(pos + 8, pos + 10)) as u16;
    if pos == chunk.len() {
        (state, Ok(()))
    } else if pos + 10 > chunk.len() {
        (state, Err(SenderError::IoError { kind: ErrorKind::UnexpectedEof }))
    } else if offset > state.front() {
        (state, Err(SenderError::InvalidOffset { head: state.front() as u64 }))
    } else {
        requeue_from(state.requeue(offset, size), chunk, pos + 10)
    }
}

/// What a feedback chunk leads to: the new state, and what stopped it, if anything.
pub open spec fn feedback_effect(state: SenderState, chunk: Seq<u8>) -> (
    SenderState,
    Result<(), SenderError>,
) {
    let offset = wire::le_value(chunk.take(8)) as u64;
    if chunk.len() < 8 {
        (state, Err(SenderError::IoError { kind: ErrorKind::UnexpectedEof }))
    } else if offset > state.front() {
        (state, Err(SenderError::InvalidOffset { head: state.front() as u64 }))
    } else {
        requeue_from(state.confirm(offset), chunk, 8)
    }
}

/// All ranges lie between `low` and `high`.
pub open spec fn range_within(list: Seq<(u64, u64)>, low: int, high: int) -> bool {
    forall|i: int| 0 <= i < list.len() ==> low <= (#[trigger] list[i]).0 && list[i].1 <= high
}

/// Which stretches of `pending` go into chunks, where there is room for `left` bytes: one
/// after the other, as long as there is enough room for another chunk; the last one may be
/// cut short.
pub open spec fn plan(pending: Seq<(u64, u64)>, left: int) -> Seq<(u64, u64)>
    decreases pending.len(),
{
    if pending.len() == 0 || left < MIN_CHUNK_ROOM {
        Seq::empty()
    } else {
        let (begin, end) = pending[0];
        let size = if end - begin + 8 < left - 2 {
            end - begin + 8
        } else {
            left - 2
        };
        seq![(begin, (begin + size - 8) as u64)] + plan(pending.skip(1), left - 2 - size)
    }
}

/// Each range of `parts` is a part of the range of `list` at the same place, from its
/// beginning on.
pub open spec fn parts_of(parts: Seq<(u64, u64)>, list: Seq<(u64, u64)>) -> bool {
    &&& parts.len() <= list.len()
    &&& forall|i: int|
        0 <= i < parts.len() ==> (#[trigger] parts[i]).0 == list[i].0 && parts[i].0 < parts[i].1
            && parts[i].1 <= list[i].1
}

/// `after` holds exactly those offsets of `before` that are not in `sent`.
pub open spec fn taken_off(
    before: Seq<(u64, u64)>,
    sent: Seq<(u64, u64)>,
    after: Seq<(u64, u64)>,
) -> bool {
    forall|x: int| #[trigger]
        range_set::covers(after, x) <==> range_set::covers(before, x) && !range_set::covers(
            sent,
            x,
        )
}

/// The chunk head can hold the size of each chunk.
pub open spec fn sizes_fit(list: Seq<(u64, u64)>) -> bool {
    forall|i: int|
        0 <= i < list.len() ==> (#[trigger] list[i]).1 - list[i].0 + 8 < wire::CHUNK_SIZE_LIMIT
}

/// Copies what the buffer holds from `offset` on to `dest` at `at`, up to `size` bytes, and
/// returns how many there were.
pub fn write_from_offset(
    buffer: &CircBuf,
    offset: usize,
    dest: &mut [u8],
    at: usize,
    size: usize,
) -> (r: usize)
    requires
        circ::circ_slots(*buffer) > 0,
        at + size <= old(dest)@.len(),
    ensures
        ({
            let held = circ::circ_bytes(*buffer);
            let n = if offset >= held.len() {
                0
            } else if size < held.len() - offset {
                size as int
            } else {
                held.len() - offset
            };
            &&& r == n
            &&& final(dest)@ == wire::overwrite(
                old(dest)@,
                at as int,
                if n == 0 {
                    Seq::empty()
                } else {
                    held.subrange(offset as int, offset + n)
                },
            )
        }),
{
    let ghost held = circ::circ_bytes(*buffer);
    let ghost dest0 = dest@;
    let total: usize = dest.len();
    assert(at + size <= total);
    let len: usize = circ::len(buffer);
    if offset >= len {
        assert(dest@ =~= wire::overwrite(dest0, at as int, Seq::empty()));
        return 0;
    }
    let (first, second) = circ::get_bytes(buffer);
    let len0: usize = first.len();
    let len1: usize = second.len();
    assert(held =~= first@ + second@);
    let off0: usize = if offset < len0 {
        offset
    } else {
        len0
    };
    let off1: usize = if offset < len0 {
        0
    } else {
        offset - len0
    };
    let n0: usize = if size < len0 - off0 {
        size
    } else {
        len0 - off0
    };
    let n1: usize = if size - n0 < len1 - off1 {
        size - n0
    } else {
        len1 - off1
    };
    let part0: &[u8] = &first[off0..off0 + n0];
    let part1: &[u8] = &second[off1..off1 + n1];
    wire::copy_into(dest, at, part0);
    wire::copy_into(dest, at + n0, part1);
    proof {
        wire::lemma_overwrite_append(dest0, at as int, part0@, part1@);
        let n = n0 + n1;
        if n == 0 {
            assert(part0@ + part1@ =~= Seq::empty());
        } else {
            assert(part0@ + part1@ =~= held.subrange(offset as int, offset + n));
        }
    }
    n0 + n1
}

/// Sends a stream in packets and keeps it until it is confirmed.
pub struct Sender {
    buffer: CircBuf,
    segments: RangeSet,
    buffer_start_offset: u64,
    packet_seq: Sequence,
}

impl View for Sender {
    type V = SenderState;

    closed spec fn view(&self) -> SenderState {
        SenderState {
            start: self.buffer_start_offset as int,
            bytes: circ::circ_bytes(self.buffer),
            cap: circ::circ_cap(self.buffer),
            pending: range_set::range_list(self.segments),
            next_seq: self.packet_seq@,
        }
    }
}

proof fn lemma_covered_within(list: Seq<(u64, u64)>, x: int, low: int, high: int)
    requires
        range_within(list, low, high),
        range_set::covers(list, x),
    ensures
        low <= x < high,
{
    let i = choose|i: int| 0 <= i < list.len() && (#[trigger] list[i]).0 <= x < list[i].1;
}

proof fn lemma_covers_push(list: Seq<(u64, u64)>, range: (u64, u64), x: int)
    ensures
        range_set::covers(list.push(range), x) <==> range_set::covers(list, x) || range.0 <= x
            < range.1,
{
    let more = list.push(range);
    if range_set::covers(list, x) {
        let i = choose|i: int| 0 <= i < list.len() && (#[trigger] list[i]).0 <= x < list[i].1;
        assert(more[i] == list[i]);
    }
    if range.0 <= x < range.1 {
        assert(more[list.len() as int] == range);
    }
    if range_set::covers(more, x) {
        let i = choose|i: int| 0 <= i < more.len() && (#[trigger] more[i]).0 <= x < more[i].1;
        if i < list.len() {
            assert(list[i] == more[i]);
        }
    }
}

proof fn lemma_within_from_cover(list: Seq<(u64, u64)>, low: int, high: int)
    requires
        range_set::canonical(list),
        forall|x: int| #[trigger] range_set::covers(list, x) ==> low <= x < high,
    ensures
        range_within(list, low, high),
{
    assert forall|i: int| 0 <= i < list.len() implies low <= (#[trigger] list[i]).0 && list[i].1
        <= high by {
        assert(list[i].0 < list[i].1);
        assert(range_set::covers(list, list[i].0 as int));
        assert(range_set::covers(list, list[i].1 - 1));
    }
}

/// The length of a chunk.
pub proof fn lemma_chunk_len(state: SenderState, range: (u64, u64))
    requires
        state.start <= range.0 <= range.1 <= state.front(),
    ensures
        state.chunk(range).len() == range.1 - range.0 + 10,
{
    wire::lemma_le_bytes_len(range.0 as nat, 8);
    let body = wire::le_bytes(range.0 as nat, 8) + state.stretch(range);
    wire::lemma_le_bytes_len(wire::chunk_head(0, body.len()), 2);
}

/// The planned stretches are parts of what is pending, in the same order.
pub proof fn lemma_plan(state: SenderState, pending: Seq<(u64, u64)>, left: int)
    requires
        range_set::canonical(pending),
        range_within(pending, state.start, state.front()),
        state.front() <= u64::MAX,
    ensures
        range_within(plan(pending, left), state.start, state.front()),
        parts_of(plan(pending, left), pending),
    decreases pending.len(),
{
    if pending.len() > 0 && left >= MIN_CHUNK_ROOM {
        let (begin, end) = pending[0];
        let size = if end - begin + 8 < left - 2 {
            end - begin + 8
        } else {
            left - 2
        };
        let rest = pending.skip(1);
        assert(begin == pending[0].0 && end == pending[0].1);
        assert forall|i: int| 0 <= i < rest.len() implies (#[trigger] rest[i]).0 < rest[i].1
            && state.start <= rest[i].0 && rest[i].1 <= state.front() by {
            assert(rest[i] == pending[i + 1]);
        }
        assert(range_set::canonical(rest));
        lemma_plan(state, rest, left - 2 - size);
        let p = plan(pending, left);
        let q = plan(rest, left - 2 - size);
        assert(p =~= seq![(begin, (begin + size - 8) as u64)] + q);
        assert(p.len() <= pending.len());
        assert forall|i: int| 0 <= i < p.len() implies (#[trigger] p[i]).0 == pending[i].0
            && p[i].0 < p[i].1 && p[i].1 <= pending[i].1 && state.start <= p[i].0 && p[i].1
            <= state.front() by {
            if i > 0 {
                assert(p[i] == q[i - 1]);
                assert(rest[i - 1] == pending[i]);
            }
        }
    }
}

/// The chunks that carry some stretches are the chunk of the first one and those of the rest.
pub proof fn lemma_chunks_front(state: SenderState, list: Seq<(u64, u64)>)
    requires
        list.len() > 0,
    ensures
        state.chunks(list) == state.chunk(list[0]) + state.chunks(list.skip(1)),
    decreases list.len(),
{
    let rest = list.skip(1);
    if list.len() == 1 {
        assert(list.drop_last() =~= Seq::empty());
        assert(rest =~= Seq::empty());
        assert(state.chunks(list.drop_last()) =~= Seq::empty());
        assert(state.chunks(list) =~= state.chunk(list[0]) + state.chunks(rest));
    } else {
        lemma_chunks_front(state, list.drop_last());
        assert(list.drop_last().skip(1) =~= rest.drop_last());
        assert(list.drop_last()[0] == list[0]);
        assert(rest.last() == list.last());
        assert(state.chunks(list) =~= state.chunk(list[0]) + (state.chunks(rest.drop_last())
            + state.chunk(rest.last())));
    }
}

/// The chunks for what is planned fill no more room than there is.
proof fn lemma_plan_fits(state: SenderState, pending: Seq<(u64, u64)>, left: int)
    requires
        range_set::canonical(pending),
        range_within(pending, state.start, state.front()),
        state.front() <= u64::MAX,
        0 <= left,
    ensures
        state.chunks(plan(pending, left)).len() <= left,
    decreases pending.len(),
{
    if pending.len() > 0 && left >= MIN_CHUNK_ROOM {
        let (begin, end) = pending[0];
        let size = if end - begin + 8 < left - 2 {
            end - begin + 8
        } else {
            left - 2
        };
        let rest = pending.skip(1);
        let list = plan(pending, left);
        assert(begin == pending[0].0 && end == pending[0].1);
        assert forall|i: int| 0 <= i < rest.len() implies (#[trigger] rest[i]).0 < rest[i].1
            && state.start <= rest[i].0 && rest[i].1 <= state.front() by {
            assert(rest[i] == pending[i + 1]);
        }
        assert(range_set::canonical(rest));
        lemma_plan_fits(state, rest, left - 2 - size);
        assert(list.skip(1) =~= plan(rest, left - 2 - size));
        lemma_chunks_front(state, list);
        lemma_chunk_len(state, list[0]);
    }
}

proof fn lemma_chunks_prefix(state: SenderState, list: Seq<(u64, u64)>, k: int)
    requires
        0 <= k <= list.len(),
    ensures
        state.chunks(list.take(k)).len() <= state.chunks(list).len(),
    decreases list.len(),
{
    if k == list.len() {
        assert(list.take(k) =~= list);
    } else {
        lemma_chunks_prefix(state, list.drop_last(), k);
        assert(list.drop_last().take(k) =~= list.take(k));
    }
}

impl Sender {
    pub closed spec fn wf(&self) -> bool {
        &&& self@.valid()
        &&& circ::circ_slots(self.buffer) > 0
    }

    /// What the sender holds is consistent.
    pub proof fn lemma_valid(&self)
        requires
            self.wf(),
        ensures
            self@.valid(),
    {
    }

    /// A sender at the beginning of the stream. It keeps one byte less than the smallest
    /// power of two that is not below `buffer_capacity`.
    pub fn new(buffer_capacity: usize) -> (r: Sender)
        requires
            buffer_capacity <= isize::MAX / 2 + 1,
        ensures
            r.wf(),
            r@.start == 0,
            r@.bytes == Seq::<u8>::empty(),
            circ::rounds_up_to(buffer_capacity as nat, r@.cap + 1),
            r@.pending == Seq::<(u64, u64)>::empty(),
            r@.next_seq == 0,
    {
        let r = Sender {
            buffer: circ::with_capacity(buffer_capacity),
            segments: RangeSet::new(),
            buffer_start_offset: 0,
            packet_seq: Sequence::new(),
        };
        proof {
            circ::lemma_rounded(
                buffer_capacity as nat,
                circ::circ_slots(r.buffer),
                (isize::MAX / 2 + 1) as nat,
            );
        }
        r
    }

    /// Takes in what the source has, as far as there is room, and marks it to be sent.
    /// Returns how many bytes that was.
    pub fn write_from<S: CircRead>(&mut self, source: &mut S) -> (r: Result<usize, ErrorKind>)
        requires
            old(self).wf(),
            old(source).next_read(
                old(self)@.cap,
                (old(self)@.cap - old(self)@.bytes.len()) as nat,
            ) matches Ok(more) ==> old(self)@.front() + more.len() <= u64::MAX,
        ensures
            final(self).wf(),
            match old(source).next_read(
                old(self)@.cap,
                (old(self)@.cap - old(self)@.bytes.len()) as nat,
            ) {
                Ok(more) => {
                    &&& r == Ok::<usize, ErrorKind>(more.len() as usize)
                    &&& final(self)@ == old(self)@.extend(more)
                },
                Err(error) => {
                    &&& r == Err::<usize, ErrorKind>(error)
                    &&& final(self)@ == old(self)@
                },
            },
    {
        let ghost pre = self@;
        let begin: u64 = self.buffer_start_offset + circ::len(&self.buffer) as u64;
        let read: usize = match source.read(&mut self.buffer) {
            Ok(read) => read,
            Err(error) => {
                return Err(error);
            },
        };
        if read > 0 {
            let ghost before = range_set::range_list(self.segments);
            self.segments.insert(begin, begin + read as u64);
            proof {
                let after = range_set::range_list(self.segments);
                range_set::lemma_plus(before, begin, (begin + read) as u64, after);
                assert forall|x: int| #[trigger] range_set::covers(after, x) implies pre.start <= x
                    < begin + read by {
                    if range_set::covers(before, x) {
                        lemma_covered_within(before, x, pre.start, pre.front());
                    }
                }
                lemma_within_from_cover(after, pre.start, begin + read);
            }
        }
        Ok(read)
    }

    /// How many bytes are kept.
    pub fn len(&self) -> (r: usize)
        ensures
            r == self@.bytes.len(),
    {
        circ::len(&self.buffer)
    }

    /// How many more bytes can be taken in.
    pub fn buffer_free(&self) -> (r: usize)
        requires
            self.wf(),
        ensures
            r == self@.cap - self@.bytes.len(),
    {
        circ::cap(&self.buffer) - circ::len(&self.buffer)
    }

    /// Whether something is still to be sent.
    pub fn have_data_to_send(&self) -> (r: bool)
        ensures
            r == (self@.pending.len() > 0),
    {
        self.segments.len() > 0
    }

    /// Stream offset of the end of what was written so far.
    pub fn stream_front(&self) -> (r: u64)
        requires
            self.wf(),
        ensures
            r == self@.front(),
    {
        self.buffer_start_offset + circ::len(&self.buffer) as u64
    }

    /// Which stretches of what is to be sent go into chunks, where there is room for `room` bytes.
    fn planned(&self, room: usize) -> (r: Vec<(u64, u64)>)
        requires
            self.wf(),
        ensures
            r@ == plan(self@.pending, room as int),
    {
        let ghost list = self@.pending;
        let ghost all = plan(list, room as int);
        let count: usize = self.segments.len();
        let mut chosen: Vec<(u64, u64)> = Vec::new();
        let mut left: usize = room;
        let mut i: usize = 0;
        proof {
            assert(list.skip(0) =~= list);
            assert(chosen@ + plan(list.skip(0), left as int) =~= all);
        }
        while i < count && left >= MIN_CHUNK_ROOM
            invariant
                self@.valid(),
                list == self@.pending,
                i <= count == list.len(),
                all == chosen@ + plan(list.skip(i as int), left as int),
            decreases count - i,
        {
            let range: StreamRange = self.segments.get(i);
            proof {
                assert(list[i as int].0 < list[i as int].1);
                assert(self@.start <= list[i as int].0 && list[i as int].1 <= self@.front());
            }
            let segment: Segment = Segment::from(&range);
            let size: usize = if segment.size + 8 < left - 2 {
                segment.size + 8
            } else {
                left - 2
            };
            let stretch: (u64, u64) = (segment.offset, segment.offset + (size - 8) as u64);
            proof {
                let rest = list.skip(i as int);
                assert(rest[0] == list[i as int]);
                assert(rest.skip(1) =~= list.skip(i + 1));
                let next = plan(list.skip(i + 1), left - 2 - size);
                assert(plan(rest, left as int) =~= seq![stretch] + next);
                assert(all =~= chosen@.push(stretch) + next);
            }
            chosen.push(stretch);
            left = left - 2 - size;
            i += 1;
        }
        proof {
            assert(plan(list.skip(i as int), left as int) =~= Seq::empty());
            assert(chosen@ =~= all);
        }
        chosen
    }

    /// Tells whether the chunks that [`Sender::make_chunk_payload`] would make in `room` bytes
    /// are all short enough for a chunk head to hold their size.
    pub fn payload_fits(&self, room: usize) -> (r: bool)
        requires
            self.wf(),
        ensures
            r == sizes_fit(plan(self@.pending, room as int)),
    {
        let stretches: Vec<(u64, u64)> = self.planned(room);
        proof {
            lemma_plan(self@, self@.pending, room as int);
        }
        let mut i: usize = 0;
        while i < stretches.len()
            invariant
                i <= stretches@.len(),
                parts_of(stretches@, self@.pending),
                stretches@ == plan(self@.pending, room as int),
                sizes_fit(stretches@.take(i as int)),
            decreases stretches.len() - i,
        {
            let (begin, end) = stretches[i];
            assert(stretches@[i as int].0 < stretches@[i as int].1);
            if end - begin >= wire::CHUNK_SIZE_LIMIT as u64 - 8 {
                return false;
            }
            assert forall|k: int| 0 <= k < i + 1 implies (#[trigger] stretches@.take(i + 1)[k]).1
                - stretches@.take(i + 1)[k].0 + 8 < wire::CHUNK_SIZE_LIMIT by {
                if k < i {
                    assert(stretches@.take(i + 1)[k] == stretches@.take(i as int)[k]);
                }
            }
            i += 1;
        }
        assert(stretches@.take(i as int) =~= stretches@);
        true
    }

    /// Fills the rest of `buf` from `at` on with chunks that carry what is to be sent, oldest
    /// first, and takes that off the list. Returns how many bytes were used.
    pub fn make_chunk_payload(&mut self, buf: &mut [u8], at: usize) -> (r: usize)
        requires
            old(self).wf(),
            at <= old(buf)@.len(),
            sizes_fit(plan(old(self)@.pending, old(buf)@.len() - at)),
        ensures
            final(self).wf(),
            ({
                let sent = plan(old(self)@.pending, old(buf)@.len() - at);
                let chunks = old(self)@.chunks(sent);
                &&& r == chunks.len()
                &&& at + r <= old(buf)@.len()
                &&& final(buf)@ == wire::overwrite(old(buf)@, at as int, chunks)
                &&& final(self)@ == old(self)@.after_sending(sent)
                &&& taken_off(old(self)@.pending, sent, final(self)@.pending)
            }),
    {
        let ghost pre = self@;
        let ghost buf0 = buf@;
        let total: usize = buf.len();
        let sent: Vec<(u64, u64)> = self.planned(total - at);
        let mut pos: usize = at;
        let mut i: usize = 0;
        proof {
            lemma_plan(pre, pre.pending, total - at);
            lemma_plan_fits(pre, pre.pending, total - at);
            assert(sent@.take(0) =~= Seq::empty());
            assert(buf@ =~= wire::overwrite(buf0, at as int, pre.chunks(sent@.take(0))));
        }
        while i < sent.len()
            invariant
                pre.valid(),
                circ::circ_slots(self.buffer) > 0,
                self@ == pre,
                i <= sent@.len(),
                parts_of(sent@, pre.pending),
                range_within(sent@, pre.start, pre.front()),
                sizes_fit(sent@),
                at + pre.chunks(sent@).len() <= total,
                total == buf@.len() == buf0.len(),
                pos == at + pre.chunks(sent@.take(i as int)).len(),
                buf@ == wire::overwrite(buf0, at as int, pre.chunks(sent@.take(i as int))),
            decreases sent.len() - i,
        {
            let (begin, end) = sent[i];
            let ghost chosen = sent@[i as int];
            let ghost done = sent@.take(i as int);
            let ghost buf1 = buf@;
            proof {
                assert(chosen.0 < chosen.1 && pre.start <= chosen.0 && chosen.1 <= pre.front());
                assert(chosen.1 - chosen.0 + 8 < wire::CHUNK_SIZE_LIMIT);
                lemma_chunk_len(pre, chosen);
                assert(sent@.take(i + 1).drop_last() =~= done);
                lemma_chunks_prefix(pre, sent@, i + 1);
            }
            let payload_size: usize = (end - begin) as usize;
            let size: usize = payload_size + 8;
            proof {
                wire::lemma_le_bytes_len(size as nat, 2);
                wire::lemma_le_bytes_len(begin as nat, 8);
            }
            wire::write_u16(buf, pos, size as u16);
            wire::write_u64(buf, pos + 2, begin);
            let _ = write_from_offset(
                &self.buffer,
                (begin - self.buffer_start_offset) as usize,
                buf,
                pos + 10,
                payload_size,
            );
            proof {
                let head = wire::le_bytes(size as nat, 2);
                let offset = wire::le_bytes(begin as nat, 8);
                let payload = pre.stretch(chosen);
                assert(wire::chunk_head(0, (offset + payload).len()) == size);
                wire::lemma_overwrite_append(buf1, pos as int, head, offset);
                wire::lemma_overwrite_append(buf1, pos as int, head + offset, payload);
                assert(head + offset + payload =~= pre.chunk(chosen));
                wire::lemma_overwrite_append(
                    buf0,
                    at as int,
                    pre.chunks(done),
                    pre.chunk(chosen),
                );
            }
            pos = pos + 2 + size;
            i += 1;
        }
        assert(sent@.take(i as int) =~= sent@);
        let mut j: usize = 0;
        while j < sent.len()
            invariant
                pre.valid(),
                circ::circ_slots(self.buffer) > 0,
                j <= sent@.len(),
                range_within(sent@, pre.start, pre.front()),
                forall|k: int| 0 <= k < sent@.len() ==> (#[trigger] sent@[k]).0 < sent@[k].1,
                self@ == (SenderState { pending: self@.pending, ..pre }),
                range_set::canonical(self@.pending),
                self@.pending == range_set::minus_all(pre.pending, sent@.take(j as int)),
                range_within(self@.pending, pre.start, pre.front()),
                taken_off(pre.pending, sent@.take(j as int), self@.pending),
            decreases sent.len() - j,
        {
            let (begin, end) = sent[j];
            let ghost before = self@.pending;
            self.segments.remove(begin, end);
            proof {
                let after = self@.pending;
                range_set::lemma_minus(before, begin, end, after);
                assert(sent@.take(j + 1).drop_last() =~= sent@.take(j as int));
                assert forall|x: int| #[trigger] range_set::covers(after, x) implies pre.start <= x
                    < pre.front() by {
                    lemma_covered_within(before, x, pre.start, pre.front());
                }
                lemma_within_from_cover(after, pre.start, pre.front());
                assert forall|x: int| #[trigger] range_set::covers(after, x)
                    <==> range_set::covers(pre.pending, x) && !range_set::covers(
                    sent@.take(j + 1),
                    x,
                ) by {
                    lemma_covers_push(sent@.take(j as int), sent@[j as int], x);
                    assert(sent@.take(j as int).push(sent@[j as int]) =~= sent@.take(j + 1));
                    assert(range_set::covers(after, x) <==> range_set::covers(before, x) && !(begin
                        <= x < end));
                    assert(range_set::covers(before, x) <==> range_set::covers(pre.pending, x)
                        && !range_set::covers(sent@.take(j as int), x));
                }
            }
            j += 1;
        }
        assert(sent@.take(j as int) =~= sent@);
        pos - at
    }

    /// Writes a packet into `buf`: its number, and chunks with as much of what is to be sent
    /// as fits. Returns the size of the packet.
    pub fn generate(&mut self, buf: &mut [u8]) -> (r: Result<usize, SenderError>)
        requires
            old(self).wf(),
            sizes_fit(plan(old(self)@.pending, old(buf)@.len() - 4)),
        ensures
            final(self).wf(),
            if old(buf)@.len() < 6 {
                &&& r == Err::<usize, _>(SenderError::BufferTooSmall)
                &&& final(self)@ == old(self)@
                &&& final(buf)@ == old(buf)@
            } else {
                let room = old(buf)@.len() as int;
                let packet = old(self)@.packet(room);
                &&& r == Ok::<usize, SenderError>(packet.len() as usize)
                &&& packet.len() <= room
                &&& final(buf)@ == wire::overwrite(old(buf)@, 0, packet)
                &&& final(self)@ == old(self)@.after_packet(room)
                &&& taken_off(
                    old(self)@.pending,
                    plan(old(self)@.pending, room - 4),
                    final(self)@.pending,
                )
            },
    {
        if buf.len() < 6 {
            return Err(SenderError::BufferTooSmall);
        }
        let ghost pre = self@;
        let ghost buf0 = buf@;
        let seq: u32 = self.packet_seq.next();
        let ghost mid = self@;
        wire::write_u32(buf, 0, seq);
        let used: usize = self.make_chunk_payload(buf, 4);
        proof {
            let sent = plan(pre.pending, buf0.len() - 4);
            let number = wire::le_bytes(seq as nat, 4);
            wire::lemma_le_bytes_len(seq as nat, 4);
            lemma_chunks_same(pre, mid, sent);
            wire::lemma_overwrite_append(buf0, 0, number, pre.chunks(sent));
        }
        Ok(4 + used)
    }

    /// Drops everything before the stream offset `offset`, which the other side has read.
    /// Returns how many bytes that was.
    pub fn confirm_read(&mut self, offset: u64) -> (r: Result<usize, SenderError>)
        requires
            old(self).wf(),
        ensures
            final(self).wf(),
            if offset > old(self)@.front() {
                &&& r == Err::<usize, _>(
                    SenderError::InvalidOffset { head: old(self)@.front() as u64 },
                )
                &&& final(self)@ == old(self)@
            } else {
                &&& r == Ok::<usize, SenderError>(
                    if offset <= old(self)@.start {
                        0
                    } else {
                        (offset - old(self)@.start) as usize
                    },
                )
                &&& final(self)@ == old(self)@.confirm(offset)
            },
    {
        let ghost pre = self@;
        let front: u64 = self.stream_front();
        if offset > front {
            return Err(SenderError::InvalidOffset { head: front });
        }
        if offset <= self.buffer_start_offset {
            return Ok(0);
        }
        let advance: usize = (offset - self.buffer_start_offset) as usize;
        let _ = circ::advance_read(&mut self.buffer, advance);
        self.buffer_start_offset = offset;
        self.segments.remove(0, offset);
        proof {
            let after = self@.pending;
            range_set::lemma_minus(pre.pending, 0, offset, after);
            assert forall|x: int| #[trigger] range_set::covers(after, x) implies offset <= x
                < pre.front() by {
                lemma_covered_within(pre.pending, x, pre.start, pre.front());
            }
            lemma_within_from_cover(after, offset as int, pre.front());
        }
        Ok(advance)
    }

    /// Marks `size` bytes from the stream offset `offset` on, as far as they are kept, to be
    /// sent again.
    pub fn resend(&mut self, offset: u64, size: u16) -> (r: Result<(), SenderError>)
        requires
            old(self).wf(),
        ensures
            final(self).wf(),
            if offset > old(self)@.front() {
                &&& r == Err::<(), _>(
                    SenderError::InvalidOffset { head: old(self)@.front() as u64 },
                )
                &&& final(self)@ == old(self)@
            } else {
                &&& r == Ok::<(), SenderError>(())
                &&& final(self)@ == old(self)@.requeue(offset, size)
            },
    {
        let ghost pre = self@;
        let front: u64 = self.stream_front();
        if offset > front {
            return Err(SenderError::InvalidOffset { head: front });
        }
        let begin: u64 = if offset < self.buffer_start_offset {
            self.buffer_start_offset
        } else {
            offset
        };
        let end: u64 = if size as u64 > front - offset {
            front
        } else {
            offset + size as u64
        };
        if begin < end {
            self.segments.insert(begin, end);
            proof {
                let after = self@.pending;
                range_set::lemma_plus(pre.pending, begin, end, after);
                assert forall|x: int| #[trigger] range_set::covers(after, x) implies pre.start <= x
                    < pre.front() by {
                    if range_set::covers(pre.pending, x) {
                        lemma_covered_within(pre.pending, x, pre.start, pre.front());
                    }
                }
                lemma_within_from_cover(after, pre.start, pre.front());
            }
        }
        Ok(())
    }

    /// Acts on a feedback chunk: the stream offset up to which the other side has read, and a
    /// list of stretches that it misses.
    pub fn read_chunk_feedback(&mut self, chunk: &[u8]) -> (r: Result<(), SenderError>)
        requires
            old(self).wf(),
        ensures
            final(self).wf(),
            (final(self)@, r) == feedback_effect(old(self)@, chunk@),
            final(self)@.front() == old(self)@.front(),
    {
        let confirmed: u64 = match wire::read_u64(chunk) {
            Some(confirmed) => confirmed,
            None => {
                return Err(SenderError::IoError { kind: ErrorKind::UnexpectedEof });
            },
        };
        match self.confirm_read(confirmed) {
            Ok(_) => {},
            Err(error) => {
                return Err(error);
            },
        }
        let mut pos: usize = 8;
        while pos < chunk.len()
            invariant
                8 <= pos <= chunk@.len(),
                self.wf(),
                self@.front() == old(self)@.front(),
                feedback_effect(old(self)@, chunk@) == requeue_from(self@, chunk@, pos as int),
            decreases chunk@.len() - pos,
        {
            let rest: &[u8] = &chunk[pos..chunk.len()];
            if rest.len() < 10 {
                return Err(SenderError::IoError { kind: ErrorKind::UnexpectedEof });
            }
            assert(rest@.take(8) =~= chunk@.subrange(pos as int, pos + 8));
            let tail: &[u8] = &rest[8..rest.len()];
            assert(tail@.take(2) =~= chunk@.subrange(pos + 8, pos + 10));
            match (wire::read_u64(rest), wire::read_u16(tail)) {
                (Some(offset), Some(size)) => {
                    match self.resend(offset, size) {
                        Ok(_) => {},
                        Err(error) => {
                            return Err(error);
                        },
                    }
                },
                _ => {
                    return Err(SenderError::IoError { kind: ErrorKind::UnexpectedEof });
                },
            }
            pos = pos + 10;
        }
        Ok(())
    }
}

/// Taking in more of the stream keeps the state consistent and marks exactly the new bytes to
/// be sent.
pub proof fn law_new_bytes_are_to_be_sent(state: SenderState, more: Seq<u8>)
    requires
        state.valid(),
        state.front() + more.len() <= u64::MAX,
        state.bytes.len() + more.len() <= state.cap,
    ensures
        state.extend(more).valid(),
        forall|x: int| #[trigger]
            range_set::covers(state.extend(more).pending, x) <==> range_set::covers(
                state.pending,
                x,
            ) || state.front() <= x < state.front() + more.len(),
{
    let begin = state.front() as u64;
    let end = (state.front() + more.len()) as u64;
    if more.len() > 0 {
        range_set::law_plus(state.pending, begin, end);
        let after = state.extend(more).pending;
        assert forall|x: int| #[trigger] range_set::covers(after, x) implies state.start <= x
            < end by {
            if range_set::covers(state.pending, x) {
                lemma_covered_within(state.pending, x, state.start, state.front());
            }
        }
        lemma_within_from_cover(after, state.start, end as int);
    }
}

/// A confirmation keeps the state consistent, and takes exactly what it confirms off the list
/// of what is to be sent.
pub proof fn law_confirmed_bytes_are_not_sent_again(state: SenderState, offset: u64)
    requires
        state.valid(),
        offset <= state.front(),
    ensures
        state.confirm(offset).valid(),
        state.confirm(offset).front() == state.front(),
        forall|x: int| #[trigger]
            range_set::covers(state.confirm(offset).pending, x) <==> range_set::covers(
                state.pending,
                x,
            ) && offset <= x,
{
    let after = state.confirm(offset).pending;
    if offset > state.start {
        range_set::law_minus(state.pending, 0, offset);
        assert forall|x: int| #[trigger] range_set::covers(after, x) <==> range_set::covers(
            state.pending,
            x,
        ) && offset <= x by {
            if range_set::covers(state.pending, x) {
                lemma_covered_within(state.pending, x, state.start, state.front());
            }
        }
        assert forall|x: int| #[trigger] range_set::covers(after, x) implies offset <= x
            < state.front() by {
            lemma_covered_within(state.pending, x, state.start, state.front());
        }
        lemma_within_from_cover(after, offset as int, state.front());
    } else {
        assert forall|x: int| #[trigger] range_set::covers(after, x) implies offset <= x by {
            lemma_covered_within(state.pending, x, state.start, state.front());
        }
    }
}

/// A request to send bytes again keeps the state consistent, and marks exactly those of them to
/// be sent that are still kept.
pub proof fn law_requested_bytes_are_sent_again(state: SenderState, offset: u64, size: u16)
    requires
        state.valid(),
    ensures
        state.requeue(offset, size).valid(),
        forall|x: int| #[trigger]
            range_set::covers(state.requeue(offset, size).pending, x) <==> range_set::covers(
                state.pending,
                x,
            ) || (offset <= x < offset + size && state.start <= x < state.front()),
{
    let after = state.requeue(offset, size).pending;
    let begin = if offset < state.start {
        state.start
    } else {
        offset as int
    };
    let end = if offset + size > state.front() {
        state.front()
    } else {
        offset + size
    };
    if begin < end {
        range_set::law_plus(state.pending, begin as u64, end as u64);
        assert forall|x: int| #[trigger] range_set::covers(after, x) implies state.start <= x
            < state.front() by {
            if range_set::covers(state.pending, x) {
                lemma_covered_within(state.pending, x, state.start, state.front());
            }
        }
        lemma_within_from_cover(after, state.start, state.front());
    }
}

/// Making a packet keeps the state consistent, and takes exactly what the packet carries off
/// the list of what is to be sent.
pub proof fn law_sent_bytes_are_taken_off(state: SenderState, sent: Seq<(u64, u64)>)
    requires
        state.valid(),
        forall|i: int| 0 <= i < sent.len() ==> (#[trigger] sent[i]).0 <= sent[i].1,
    ensures
        state.after_sending(sent).valid(),
        taken_off(state.pending, sent, state.after_sending(sent).pending),
        forall|x: int| #[trigger]
            range_set::covers(state.after_sending(sent).pending, x) <==> range_set::covers(
                state.pending,
                x,
            ) && !range_set::covers(sent, x),
    decreases sent.len(),
{
    if sent.len() > 0 {
        let head = sent.drop_last();
        let range = sent.last();
        assert(range == sent[sent.len() - 1]);
        law_sent_bytes_are_taken_off(state, head);
        let before = state.after_sending(head).pending;
        let after = state.after_sending(sent).pending;
        range_set::law_minus(before, range.0, range.1);
        assert forall|x: int| #[trigger] range_set::covers(after, x) <==> range_set::covers(
            state.pending,
            x,
        ) && !range_set::covers(sent, x) by {
            lemma_covers_push(head, range, x);
            assert(head.push(range) =~= sent);
            assert(range_set::covers(before, x) <==> range_set::covers(state.pending, x)
                && !range_set::covers(head, x));
        }
        assert forall|x: int| #[trigger] range_set::covers(after, x) implies state.start <= x
            < state.front() by {
            lemma_covered_within(state.pending, x, state.start, state.front());
        }
        lemma_within_from_cover(after, state.start, state.front());
    }
}

/// A packet with the number of `state` that carries `sent`.
pub open spec fn packet_bytes(state: SenderState, sent: Seq<(u64, u64)>) -> Seq<u8> {
    wire::le_bytes(state.next_seq as nat, 4) + state.chunks(sent)
}

pub proof fn lemma_chunks_same(a: SenderState, b: SenderState, list: Seq<(u64, u64)>)
    requires
        a.start == b.start,
        a.bytes == b.bytes,
    ensures
        a.chunks(list) == b.chunks(list),
    decreases list.len(),
{
    if list.len() > 0 {
        lemma_chunks_same(a, b, list.drop_last());
    }
}

/// The offset `x` lies on the inner side of the edge at which a range starts.
pub open spec fn after_start(start: Edge, x: int) -> bool {
    match start {
        Edge::Included(s) => s <= x,
        Edge::Excluded(s) => s < x,
        Edge::Unbounded => true,
    }
}

/// The offset `x` lies on the inner side of the edge at which a range ends.
pub open spec fn before_end(end: Edge, x: int) -> bool {
    match end {
        Edge::Included(e) => x <= e,
        Edge::Excluded(e) => x < e,
        Edge::Unbounded => true,
    }
}

/// The piece for a range holds the same offsets as the range.
pub proof fn law_segment_holds_what_its_range_holds(start: Edge, end: Edge, x: int)
    requires
        start !is Unbounded,
        end !is Unbounded,
    ensures
        first_offset(start) <= x < past_offset(end) <==> after_start(start, x) && before_end(end, x),
{
}

/// A packet is filled with what is to be sent, oldest first: each stretch goes into it whole,
/// unless it fills the packet to its last byte, and none is left out while there is room for
/// another chunk.
pub proof fn law_packet_is_filled(state: SenderState, pending: Seq<(u64, u64)>, left: int)
    requires
        range_set::canonical(pending),
        range_within(pending, state.start, state.front()),
        state.front() <= u64::MAX,
        0 <= left,
    ensures
        ({
            let sent = plan(pending, left);
            let used = state.chunks(sent).len();
            &&& used <= left
            &&& sent.len() <= pending.len()
            &&& sent.len() < pending.len() ==> left - used < 13
            &&& forall|i: int|
                0 <= i < sent.len() ==> {
                    &&& (#[trigger] sent[i]).0 == pending[i].0
                    &&& sent[i].0 < sent[i].1 <= pending[i].1
                    &&& sent[i].1 < pending[i].1 ==> i == sent.len() - 1 && used == left
                }
        }),
    decreases pending.len(),
{
    let sent = plan(pending, left);
    lemma_plan_fits(state, pending, left);
    if pending.len() > 0 && left >= MIN_CHUNK_ROOM {
        let (begin, end) = pending[0];
        let size = if end - begin + 8 < left - 2 {
            end - begin + 8
        } else {
            left - 2
        };
        let rest = pending.skip(1);
        let later = plan(rest, left - 2 - size);
        assert(begin == pending[0].0 && end == pending[0].1);
        assert forall|i: int| 0 <= i < rest.len() implies (#[trigger] rest[i]).0 < rest[i].1
            && state.start <= rest[i].0 && rest[i].1 <= state.front() by {
            assert(rest[i] == pending[i + 1]);
        }
        assert(range_set::canonical(rest));
        law_packet_is_filled(state, rest, left - 2 - size);
        assert(sent.skip(1) =~= later);
        lemma_chunks_front(state, sent);
        lemma_chunk_len(state, sent[0]);
        let used = state.chunks(sent).len();
        assert(used == 2 + size + state.chunks(later).len());
        assert forall|i: int| 0 <= i < sent.len() implies {
            &&& (#[trigger] sent[i]).0 == pending[i].0
            &&& sent[i].0 < sent[i].1 <= pending[i].1
            &&& sent[i].1 < pending[i].1 ==> i == sent.len() - 1 && used == left
        } by {
            if i > 0 {
                assert(sent[i] == later[i - 1]);
                assert(rest[i - 1] == pending[i]);
            } else if sent[0].1 < pending[0].1 {
                assert(later =~= Seq::empty());
            }
        }
    }
}

/// A chunk is short enough exactly where its size fits in the eleven bits of its head.
pub proof fn law_sizes_fit_where_heads_can_hold_them(state: SenderState, list: Seq<(u64, u64)>)
    requires
        range_within(list, state.start, state.front()),
        forall|i: int| 0 <= i < list.len() ==> (#[trigger] list[i]).0 <= list[i].1,
    ensures
        sizes_fit(list) <==> forall|i: int|
            0 <= i < list.len() ==> (#[trigger] state.chunk(list[i])).len() - 2 <= 0x7ff,
{
    assert forall|i: int| 0 <= i < list.len() implies (#[trigger] state.chunk(list[i])).len()
        == list[i].1 - list[i].0 + 10 by {
        assert(list[i].0 <= list[i].1);
        lemma_chunk_len(state, list[i]);
    }
    if forall|i: int| 0 <= i < list.len() ==> (#[trigger] state.chunk(list[i])).len() - 2 <= 0x7ff {
        assert forall|i: int| 0 <= i < list.len() implies (#[trigger] list[i]).1 - list[i].0 + 8
            < 2048 by {
            assert(state.chunk(list[i]).len() - 2 <= 0x7ff);
        }
    }
    if sizes_fit(list) {
        assert forall|i: int| 0 <= i < list.len() implies (#[trigger] state.chunk(list[i])).len()
            - 2 <= 0x7ff by {
            assert(list[i].1 - list[i].0 + 8 < 2048);
        }
    }
}

/// How the kept part of the stream changes: it grows by what is taken in, loses what is
/// confirmed from its beginning, and nothing else changes it.
pub proof fn law_kept_part_changes_only_at_its_ends(
    state: SenderState,
    more: Seq<u8>,
    sent: Seq<(u64, u64)>,
    offset: u64,
    size: u16,
    room: int,
)
    requires
        state.valid(),
        offset <= state.front(),
    ensures
        state.extend(more).start == state.start,
        state.extend(more).bytes == state.bytes + more,
        state.extend(more).next_seq == state.next_seq,
        state.extend(more).cap == state.cap,
        offset >= state.start ==> state.confirm(offset).start == offset
            && state.confirm(offset).bytes == state.bytes.skip(offset - state.start),
        offset < state.start ==> state.confirm(offset) == state,
        state.confirm(offset).next_seq == state.next_seq,
        state.confirm(offset).cap == state.cap,
        state.requeue(offset, size) == (SenderState {
            pending: state.requeue(offset, size).pending,
            ..state
        }),
        state.after_sending(sent) == (SenderState {
            pending: state.after_sending(sent).pending,
            ..state
        }),
        state.after_packet(room) == (SenderState {
            pending: state.after_packet(room).pending,
            next_seq: if state.next_seq == u32::MAX {
                0
            } else {
                (state.next_seq + 1) as u32
            },
            ..state
        }),
{
    if offset == state.start {
        assert(state.bytes.skip(0) =~= state.bytes);
    }
}

/// Offsets and sizes as they stand in a feedback chunk.
pub open spec fn request_bytes(requests: Seq<(u64, u16)>) -> Seq<u8>
    decreases requests.len(),
{
    if requests.len() == 0 {
        Seq::empty()
    } else {
        wire::le_bytes(requests[0].0 as nat, 8) + wire::le_bytes(requests[0].1 as nat, 2)
            + request_bytes(requests.skip(1))
    }
}

/// The state after some requests, up to the first one that begins beyond the front of the
/// stream, and whether there was none such.
pub open spec fn after_requests(state: SenderState, requests: Seq<(u64, u16)>) -> (
    SenderState,
    bool,
)
    decreases requests.len(),
{
    if requests.len() == 0 {
        (state, true)
    } else if requests[0].0 > state.front() {
        (state, false)
    } else {
        after_requests(state.requeue(requests[0].0, requests[0].1), requests.skip(1))
    }
}

/// Every request in a feedback chunk is acted on, one after the other, up to the first one that
/// begins beyond the front of the stream or is not all there.
pub proof fn law_requests_are_acted_on_one_by_one(
    state: SenderState,
    chunk: Seq<u8>,
    pos: int,
    requests: Seq<(u64, u16)>,
    tail: Seq<u8>,
)
    requires
        0 <= pos <= chunk.len(),
        chunk.skip(pos) == request_bytes(requests) + tail,
        tail.len() < 10,
        state.front() <= u64::MAX,
        0 <= state.start,
    ensures
        requeue_from(state, chunk, pos).0 == after_requests(state, requests).0,
        requeue_from(state, chunk, pos).1 == if !after_requests(state, requests).1 {
            Err::<(), SenderError>(SenderError::InvalidOffset { head: state.front() as u64 })
        } else if tail.len() > 0 {
            Err::<(), SenderError>(SenderError::IoError { kind: ErrorKind::UnexpectedEof })
        } else {
            Ok::<(), SenderError>(())
        },
    decreases requests.len(),
{
    if requests.len() == 0 {
        assert(request_bytes(requests) + tail =~= tail);
        assert(chunk.skip(pos).len() == tail.len());
    } else {
        let (offset, size) = requests[0];
        let rest = requests.skip(1);
        let first = wire::le_bytes(offset as nat, 8) + wire::le_bytes(size as nat, 2);
        wire::lemma_le_bytes_len(offset as nat, 8);
        wire::lemma_le_bytes_len(size as nat, 2);
        wire::lemma_le_ranges();
        wire::law_number_round_trip(offset as nat, 8);
        wire::law_number_round_trip(size as nat, 2);
        assert(offset == requests[0].0 && size == requests[0].1);
        let whole = first + (request_bytes(rest) + tail);
        assert(chunk.skip(pos) =~= whole);
        assert(chunk.subrange(pos, pos + 8) =~= chunk.skip(pos).take(8));
        assert(whole.take(8) =~= wire::le_bytes(offset as nat, 8));
        assert(chunk.subrange(pos + 8, pos + 10) =~= chunk.skip(pos).subrange(8, 10));
        assert(whole.subrange(8, 10) =~= wire::le_bytes(size as nat, 2));
        assert(chunk.skip(pos + 10) =~= chunk.skip(pos).skip(10));
        assert(whole.skip(10) =~= request_bytes(rest) + tail);
        if offset <= state.front() {
            let next = state.requeue(offset, size);
            assert(next.front() == state.front());
            law_requests_are_acted_on_one_by_one(next, chunk, pos + 10, rest, tail);
        }
    }
}

/// A feedback chunk is acted on from its beginning: first what it confirms is dropped, then its
/// requests are acted on. One that is too short to confirm anything, or that confirms what was
/// never written, changes nothing.
pub proof fn law_feedback_confirms_first(
    state: SenderState,
    confirmed: u64,
    requests: Seq<(u64, u16)>,
    tail: Seq<u8>,
    short: Seq<u8>,
)
    requires
        state.valid(),
        tail.len() < 10,
        short.len() < 8,
    ensures
        ({
            let chunk = wire::le_bytes(confirmed as nat, 8) + request_bytes(requests) + tail;
            let (after, result) = feedback_effect(state, chunk);
            &&& confirmed > state.front() ==> after == state && result == Err::<(), SenderError>(
                SenderError::InvalidOffset { head: state.front() as u64 },
            )
            &&& confirmed <= state.front() ==> {
                let (acted, all) = after_requests(state.confirm(confirmed), requests);
                &&& after == acted
                &&& result == if !all {
                    Err::<(), SenderError>(
                        SenderError::InvalidOffset { head: state.front() as u64 },
                    )
                } else if tail.len() > 0 {
                    Err::<(), SenderError>(SenderError::IoError { kind: ErrorKind::UnexpectedEof })
                } else {
                    Ok::<(), SenderError>(())
                }
            }
        }),
        feedback_effect(state, short) == (
            state,
            Err::<(), SenderError>(SenderError::IoError { kind: ErrorKind::UnexpectedEof }),
        ),
{
    let chunk = wire::le_bytes(confirmed as nat, 8) + request_bytes(requests) + tail;
    wire::lemma_le_bytes_len(confirmed as nat, 8);
    wire::lemma_le_ranges();
    wire::law_number_round_trip(confirmed as nat, 8);
    assert(chunk.take(8) =~= wire::le_bytes(confirmed as nat, 8));
    assert(chunk.skip(8) =~= request_bytes(requests) + tail);
    if confirmed <= state.front() {
        law_confirmed_bytes_are_not_sent_again(state, confirmed);
        law_requests_are_acted_on_one_by_one(
            state.confirm(confirmed),
            chunk,
            8,
            requests,
            tail,
        );
    }
}

/// A packet of a sender holds its number and chunks, and is filled: each stretch of what is to
/// be sent goes into it whole, unless it fills the packet to its last byte, and none is left out
/// while there is room for another chunk. What it carries, and nothing else, is then no longer
/// to be sent.
#[verifier::rlimit(40)]
#[verifier::spinoff_prover]
pub proof fn law_packet_of_a_sender_is_filled(state: SenderState, room: int)
    requires
        state.valid(),
        6 <= room,
    ensures
        ({
            let packet = state.packet(room);
            let sent = plan(state.pending, room - 4);
            let pending = state.pending;
            let after = state.after_packet(room);
            &&& packet.len() <= room
            &&& packet.take(4) == wire::le_bytes(state.next_seq as nat, 4)
            &&& packet.skip(4) == state.chunks(sent)
            &&& sent.len() <= pending.len()
            &&& sent.len() < pending.len() ==> room - packet.len() < 13
            &&& forall|i: int|
                0 <= i < sent.len() ==> {
                    &&& (#[trigger] sent[i]).0 == pending[i].0
                    &&& sent[i].0 < sent[i].1 <= pending[i].1
                    &&& sent[i].1 < pending[i].1 ==> i == sent.len() - 1 && packet.len() == room
                }
            &&& after.valid()
            &&& forall|x: int| #[trigger]
                range_set::covers(after.pending, x) <==> range_set::covers(pending, x)
                    && !range_set::covers(sent, x)
        }),
{
    let packet = state.packet(room);
    let sent = plan(state.pending, room - 4);
    wire::lemma_le_bytes_len(state.next_seq as nat, 4);
    assert(packet.take(4) =~= wire::le_bytes(state.next_seq as nat, 4));
    assert(packet.skip(4) =~= state.chunks(sent));
    law_packet_is_filled(state, state.pending, room - 4);
    assert forall|i: int| 0 <= i < sent.len() implies (#[trigger] sent[i]).0 <= sent[i].1 by {
        assert(sent[i].0 < sent[i].1);
    }
    law_sent_bytes_are_taken_off(state, sent);
}

/// What stands in a chunk: the stream offset at which its bytes stand, and those bytes.
pub proof fn law_chunk_carries_its_stretch(state: SenderState, range: (u64, u64))
    requires
        state.valid(),
        state.start <= range.0 <= range.1 <= state.front(),
        range.1 - range.0 + 8 < 2048,
    ensures
        ({
            let chunk = state.chunk(range);
            &&& chunk.len() == 2 + 8 + (range.1 - range.0)
            &&& chunk[0] == (range.1 - range.0 + 8) % 256
            &&& chunk[1] == (range.1 - range.0 + 8) / 256
            &&& wire::le_value(chunk.subrange(2, 10)) == range.0
            &&& forall|x: int|
                range.0 <= x < range.1 ==> chunk[10 + (x - range.0)]
                    == #[trigger] state.bytes[x - state.start]
        }),
{
    let offset = wire::le_bytes(range.0 as nat, 8);
    let body = offset + state.stretch(range);
    let chunk = state.chunk(range);
    wire::lemma_le_bytes_len(range.0 as nat, 8);
    wire::lemma_le_ranges();
    wire::law_number_round_trip(range.0 as nat, 8);
    lemma_chunk_len(state, range);
    wire::law_chunk_layout(0, body);
    assert(chunk.subrange(2, 10) =~= offset);
    assert forall|x: int| range.0 <= x < range.1 implies chunk[10 + (x - range.0)]
        == #[trigger] state.bytes[x - state.start] by {
        assert(chunk.skip(2)[8 + (x - range.0)] == body[8 + (x - range.0)]);
    }
}

} // verus!
