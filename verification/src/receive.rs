//! Puts the pieces of a stream back together.

use crate::error::{ErrorKind, ReceiveError};
use crate::missing;
use crate::missing::{MissingSegment, MissingSegments};
use crate::ochen_circus_buf;
use crate::ochen_circus_buf::OchenCircusBuf;
use crate::wire;
use crate::wire::ChunkStep;
use vstd::prelude::*;

verus! {

/// How many slots the ring of a [`Receiver`] has by default.
pub const DEFAULT_RECEIVE_CAPACITY: usize = 1_048_576;

/// What a [`Receiver`] holds.
#[verifier::ext_equal]
pub struct ReceiverState {
    /// Stream offset of the next byte to be read.
    pub start: int,
    /// All slots, from the next byte to be read on.
    pub ring: Seq<u8>,
    /// How many slots belong to the known part of the stream, received or missing.
    pub known: nat,
    /// Which parts of the known part are missing.
    pub missing: Seq<MissingSegment>,
}

impl ReceiverState {
    /// Stream offset of the end of the known part.
    pub open spec fn head(self) -> int {
        self.start + self.known
    }

    pub open spec fn valid(self) -> bool {
        &&& 0 < self.ring.len() <= isize::MAX
        &&& self.known < self.ring.len()
        &&& 0 <= self.start
        &&& self.head() <= u64::MAX
        &&& missing::in_order(self.missing)
        &&& missing::within(self.missing, self.start, self.head())
    }

    /// The byte at stream offset `x` is known and was received.
    pub open spec fn has(self, x: int) -> bool {
        &&& self.start <= x < self.head()
        &&& !missing::missing_at(self.missing, x)
    }

    /// The byte that stands in the slot for stream offset `x`.
    pub open spec fn byte(self, x: int) -> u8 {
        self.ring[x - self.start]
    }

    /// How many bytes can be read before the first missing one.
    pub open spec fn available(self) -> nat {
        if self.missing.len() > 0 {
            (self.missing[0].begin - self.start) as nat
        } else {
            self.known
        }
    }

    /// How many bytes a reader with room for `room` bytes gets.
    pub open spec fn readable(self, room: nat) -> nat {
        if room < self.available() {
            room
        } else {
            self.available()
        }
    }

    /// Where the part of a piece that starts at `from` and goes beyond the head starts to
    /// be stored as it is: after the last gap that it fills.
    pub open spec fn resume(self, from: int) -> int {
        if self.missing.len() > 0 && self.missing.last().end > from {
            self.missing.last().end as int
        } else {
            from
        }
    }

    /// How many bytes of a piece that goes beyond the head, from `from` up to `end`, the
    /// ring has room for.
    pub open spec fn stored(self, from: int, end: int) -> int {
        let room = self.ring.len() - 1 - (from - self.start);
        if room <= 0 {
            0
        } else if end - from < room {
            end - from
        } else {
            room
        }
    }

    /// The state after the piece `payload` of the stream, which begins at stream offset
    /// `begin`, arrived at the time `now`.
    ///
    /// Of the bytes that were not read yet, those that were missing are filled in. What
    /// goes beyond the head is stored as far as there is room; the stretch that was skipped
    /// over, if any, becomes missing.
    pub open spec fn accept(self, begin: u64, payload: Seq<u8>, now: u64) -> ReceiverState {
        let end = begin + payload.len();
        if end <= self.start {
            self
        } else {
            let from = if begin < self.start {
                self.start
            } else {
                begin as int
            };
            let tail = self.resume(from);
            let extra = if end > self.head() {
                self.stored(tail, end)
            } else {
                0
            };
            let cut = missing::cut_all(self.missing, from as u64, end as u64, now);
            ReceiverState {
                start: self.start,
                ring: Seq::new(
                    self.ring.len(),
                    |i: int|
                        {
                            let x = self.start + i;
                            if from <= x < end && (missing::missing_at(self.missing, x) || tail <= x
                                < tail + extra) {
                                payload[x - begin]
                            } else {
                                self.ring[i]
                            }
                        },
                ),
                known: if extra > 0 {
                    (tail + extra - self.start) as nat
                } else {
                    self.known
                },
                missing: if extra > 0 && tail > self.head() {
                    cut.push(
                        MissingSegment {
                            begin: self.head() as u64,
                            end: tail as u64,
                            timestamp: now,
                        },
                    )
                } else {
                    cut
                },
            }
        }
    }

    /// The state after it was learnt, at the time `now`, that the stream reaches up to the
    /// offset `front`. What the ring has slots for becomes known, and is missing.
    pub open spec fn announce(self, front: u64, now: u64) -> ReceiverState {
        let reach = if front - self.start < self.ring.len() - 1 {
            front as int
        } else {
            self.start + self.ring.len() - 1
        };
        if reach > self.head() {
            ReceiverState {
                known: (reach - self.start) as nat,
                missing: self.missing.push(
                    MissingSegment {
                        begin: self.head() as u64,
                        end: reach as u64,
                        timestamp: now,
                    },
                ),
                ..self
            }
        } else {
            self
        }
    }

    /// The data of the feedback chunk that lists the first `count` missing stretches.
    pub open spec fn feedback(self, count: nat) -> Seq<u8> {
        wire::le_bytes(self.start as nat, 8) + feedback_entries(self.missing.take(count as int))
    }

    /// The state after the first `n` bytes were read.
    pub open spec fn advance(self, n: nat) -> ReceiverState {
        ReceiverState {
            start: self.start + n,
            ring: ochen_circus_buf::rotate(self.ring, n as int),
            known: (self.known - n) as nat,
            missing: self.missing,
        }
    }
}

/// No feedback chunk lists more missing stretches than this.
pub const MAX_FEEDBACK_ENTRIES: usize = 203;

/// How many bytes of `item` a feedback chunk asks for: all, or as many as it can name.
pub open spec fn asked_for(item: MissingSegment) -> nat {
    if item.end - item.begin > 0xffff {
        0xffff
    } else {
        (item.end - item.begin) as nat
    }
}

/// A missing stretch as it stands in a feedback chunk.
pub open spec fn feedback_entry(item: MissingSegment) -> Seq<u8> {
    wire::le_bytes(item.begin as nat, 8) + wire::le_bytes(asked_for(item), 2)
}

/// Missing stretches as they stand in a feedback chunk.
pub open spec fn feedback_entries(list: Seq<MissingSegment>) -> Seq<u8>
    decreases list.len(),
{
    if list.len() == 0 {
        Seq::empty()
    } else {
        feedback_entries(list.drop_last()) + feedback_entry(list.last())
    }
}

/// How many of `missing` stretches a feedback chunk of up to `room` bytes lists.
pub open spec fn feedback_count(missing: nat, room: nat) -> nat {
    let fitting = if (room - 10) / 10 < MAX_FEEDBACK_ENTRIES {
        (room - 10) / 10
    } else {
        MAX_FEEDBACK_ENTRIES as int
    };
    if missing < fitting {
        missing
    } else {
        fitting as nat
    }
}

/// Missing stretches take ten bytes each in a feedback chunk.
pub proof fn lemma_entries_len(list: Seq<MissingSegment>)
    ensures
        feedback_entries(list).len() == 10 * list.len(),
    decreases list.len(),
{
    if list.len() > 0 {
        lemma_entries_len(list.drop_last());
        wire::lemma_le_bytes_len(list.last().begin as nat, 8);
        wire::lemma_le_bytes_len(asked_for(list.last()), 2);
    }
}

pub proof fn lemma_feedback_len(state: ReceiverState, count: nat)
    requires
        count <= state.missing.len(),
    ensures
        state.feedback(count).len() == 8 + 10 * count,
{
    wire::lemma_le_bytes_len(state.start as nat, 8);
    lemma_entries_len(state.missing.take(count as int));
}

/// Reassembles a stream from pieces that arrive in any order.
pub struct Receiver {
    missing: MissingSegments,
    buffer: OchenCircusBuf,
    buffer_start_offset: u64,
}

impl View for Receiver {
    type V = ReceiverState;

    closed spec fn view(&self) -> ReceiverState {
        ReceiverState {
            start: self.buffer_start_offset as int,
            ring: self.buffer.ring(),
            known: self.buffer.readable(),
            missing: self.missing@,
        }
    }
}

proof fn lemma_count(list: Seq<MissingSegment>, low: int, high: int)
    requires
        missing::in_order(list),
        missing::within(list, low, high),
        low <= high,
    ensures
        list.len() <= high - low,
    decreases list.len(),
{
    if list.len() > 0 {
        let rest = list.drop_last();
        let m = list[list.len() - 1];
        assert forall|i: int| 0 <= i < rest.len() implies low <= (#[trigger] rest[i]).begin
            && rest[i].end <= m.begin by {
            assert(list[i].end <= list[list.len() - 1].begin);
        }
        assert(missing::in_order(rest));
        lemma_count(rest, low, m.begin as int);
    }
}

proof fn lemma_missing_at_step(list: Seq<MissingSegment>, k: int, x: int)
    requires
        0 <= k < list.len(),
    ensures
        missing::missing_at(list.take(k + 1), x) <==> missing::missing_at(list.take(k), x)
            || list[k].begin <= x < list[k].end,
{
    let a = list.take(k);
    let b = list.take(k + 1);
    if missing::missing_at(a, x) {
        let i = choose|i: int| 0 <= i < a.len() && (#[trigger] a[i]).begin <= x < a[i].end;
        assert(b[i] == a[i]);
    }
    if list[k].begin <= x < list[k].end {
        assert(b[k] == list[k]);
    }
    if missing::missing_at(b, x) {
        let i = choose|i: int| 0 <= i < b.len() && (#[trigger] b[i]).begin <= x < b[i].end;
        if i < k {
            assert(a[i] == b[i]);
        }
    }
}

proof fn lemma_missing_at_prefix(list: Seq<MissingSegment>, k: int, x: int)
    requires
        missing::in_order(list),
        0 <= k < list.len(),
        x < list[k].begin,
    ensures
        missing::missing_at(list, x) <==> missing::missing_at(list.take(k), x),
{
    let a = list.take(k);
    if missing::missing_at(a, x) {
        let i = choose|i: int| 0 <= i < a.len() && (#[trigger] a[i]).begin <= x < a[i].end;
        assert(list[i] == a[i]);
    }
    if missing::missing_at(list, x) {
        let i = choose|i: int| 0 <= i < list.len() && (#[trigger] list[i]).begin <= x < list[i].end;
        if i > k {
            assert(list[k].end <= list[i].begin);
            assert(list[k].begin < list[k].end);
        }
        assert(a[i] == list[i]);
    }
}

/// `ring`, whose first slot stands for the stream offset `start`, with the gaps of `list`
/// filled as far as `data`, which stands at the stream offset `from`, covers them.
#[verifier::opaque]
pub open spec fn filled(
    ring: Seq<u8>,
    start: int,
    from: int,
    data: Seq<u8>,
    list: Seq<MissingSegment>,
) -> Seq<u8> {
    Seq::new(
        ring.len(),
        |i: int|
            if from <= start + i < from + data.len() && missing::missing_at(list, start + i) {
                data[start + i - from]
            } else {
                ring[i]
            },
    )
}

proof fn lemma_filled_none(ring: Seq<u8>, start: int, from: int, data: Seq<u8>)
    ensures
        filled(ring, start, from, data, Seq::empty()) == ring,
{
    reveal(filled);
    assert(filled(ring, start, from, data, Seq::empty()) =~= ring);
}

proof fn lemma_filled_len(
    ring: Seq<u8>,
    start: int,
    from: int,
    data: Seq<u8>,
    list: Seq<MissingSegment>,
)
    ensures
        filled(ring, start, from, data, list).len() == ring.len(),
{
    reveal(filled);
}

/// Filling the gap number `k` is writing the part of `data` that it covers.
proof fn lemma_filled_step(
    ring: Seq<u8>,
    start: int,
    from: int,
    data: Seq<u8>,
    list: Seq<MissingSegment>,
    k: int,
    begin: int,
    end: int,
)
    requires
        0 <= k < list.len(),
        start <= from <= begin <= end <= from + data.len(),
        end - start <= ring.len(),
        begin == if list[k].begin > from {
            list[k].begin as int
        } else {
            from
        },
        end == if list[k].end < from + data.len() {
            list[k].end as int
        } else {
            from + data.len()
        },
    ensures
        wire::overwrite(
            filled(ring, start, from, data, list.take(k)),
            begin - start,
            data.subrange(begin - from, end - from),
        ) == filled(ring, start, from, data, list.take(k + 1)),
{
    reveal(filled);
    let a = wire::overwrite(
        filled(ring, start, from, data, list.take(k)),
        begin - start,
        data.subrange(begin - from, end - from),
    );
    let b = filled(ring, start, from, data, list.take(k + 1));
    assert forall|i: int| 0 <= i < ring.len() implies a[i] == b[i] by {
        lemma_missing_at_step(list, k, start + i);
    }
    assert(a =~= b);
}

/// A gap that `data` does not reach changes nothing.
proof fn lemma_filled_skip(
    ring: Seq<u8>,
    start: int,
    from: int,
    data: Seq<u8>,
    list: Seq<MissingSegment>,
    k: int,
)
    requires
        0 <= k < list.len(),
        list[k].end <= from,
    ensures
        filled(ring, start, from, data, list.take(k)) == filled(
            ring,
            start,
            from,
            data,
            list.take(k + 1),
        ),
{
    reveal(filled);
    let a = filled(ring, start, from, data, list.take(k));
    let b = filled(ring, start, from, data, list.take(k + 1));
    assert forall|i: int| 0 <= i < ring.len() implies a[i] == b[i] by {
        lemma_missing_at_step(list, k, start + i);
    }
    assert(a =~= b);
}

/// Gaps from number `k` on, all of which begin after `data`, change nothing.
proof fn lemma_filled_rest(
    ring: Seq<u8>,
    start: int,
    from: int,
    data: Seq<u8>,
    list: Seq<MissingSegment>,
    k: int,
)
    requires
        missing::in_order(list),
        0 <= k <= list.len(),
        k < list.len() ==> list[k].begin >= from + data.len(),
    ensures
        filled(ring, start, from, data, list.take(k)) == filled(ring, start, from, data, list),
{
    reveal(filled);
    if k == list.len() {
        assert(list.take(k) =~= list);
    } else {
        let a = filled(ring, start, from, data, list.take(k));
        let b = filled(ring, start, from, data, list);
        assert forall|i: int| 0 <= i < ring.len() implies a[i] == b[i] by {
            if start + i < from + data.len() {
                lemma_missing_at_prefix(list, k, start + i);
            }
        }
        assert(a =~= b);
    }
}

/// The stretches of `list` that were met before number `k` leave no more pieces than
/// there are bytes before it.
proof fn lemma_cut_count(
    list: Seq<MissingSegment>,
    k: int,
    begin: u64,
    end: u64,
    now: u64,
    low: int,
)
    requires
        missing::in_order(list),
        0 <= k < list.len(),
        begin <= end,
        forall|i: int| 0 <= i < list.len() ==> low <= (#[trigger] list[i]).begin,
    ensures
        missing::cut_all(list.take(k), begin, end, now).len() <= list[k].begin - low,
{
    let done = list.take(k);
    let high = list[k].begin as int;
    assert forall|i: int| 0 <= i < done.len() implies low <= (#[trigger] done[i]).begin
        && done[i].end <= high by {
        assert(list[i].end <= list[k].begin);
    }
    assert(missing::in_order(done));
    missing::lemma_cut_all_within(done, begin, end, now, low, high);
    missing::law_cut_keeps_order(done, begin, end, now);
    assert(low <= list[k].begin);
    lemma_count(missing::cut_all(done, begin, end, now), low, high);
}

proof fn lemma_cut_rest(list: Seq<MissingSegment>, k: int, begin: u64, end: u64, now: u64)
    requires
        missing::in_order(list),
        0 <= k <= list.len(),
        k < list.len() ==> list[k].begin >= end,
    ensures
        missing::cut_all(list.take(k), begin, end, now) + list.skip(k) == missing::cut_all(
            list,
            begin,
            end,
            now,
        ),
{
    assert forall|i: int| k <= i < list.len() implies (#[trigger] list[i]).end <= begin
        || list[i].begin >= end by {
        if i > k {
            assert(list[k].end <= list[i].begin);
            assert(list[k].begin < list[k].end);
        }
    }
    missing::lemma_cut_all_concat(list, k, begin, end, now);
}

/// Fills the gaps of `missing` that `data`, which stands at the stream offset `from`, covers,
/// and returns the stream offset up to which `data` needs no further filling.
#[verifier::rlimit(40)]
#[verifier::spinoff_prover]
fn fill_gaps(
    missing: &mut MissingSegments,
    buffer: &mut OchenCircusBuf,
    start: u64,
    from: u64,
    data: &[u8],
    now: u64,
) -> (r: u64)
    requires
        old(buffer).wf(),
        0 < old(buffer).slots(),
        start <= from,
        from + data@.len() <= u64::MAX,
        start + old(buffer).readable() <= u64::MAX,
        missing::in_order(old(missing)@),
        missing::within(old(missing)@, start as int, start + old(buffer).readable()),
    ensures
        final(buffer).wf(),
        final(buffer).readable() == old(buffer).readable(),
        final(missing)@ == missing::cut_all(old(missing)@, from, (from + data@.len()) as u64, now),
        final(buffer).ring() == filled(
            old(buffer).ring(),
            start as int,
            from as int,
            data@,
            old(missing)@,
        ),
        from <= r <= from + data@.len(),
        from + data@.len() > start + old(buffer).readable() ==> r == if old(missing)@.len() > 0
            && old(missing)@.last().end > from {
            old(missing)@.last().end
        } else {
            from
        },
{
    let ghost list = missing@;
    let ghost ring0 = buffer.ring();
    let ghost known = buffer.readable();
    let segment_end: u64 = from + data.len() as u64;
    let mut segment_begin: u64 = from;
    let mut segment_data: &[u8] = data;
    let mut missing_iter = missing.missing_iter();
    let ghost outcome = final(missing_iter.segments)@;
    let ghost mut k: int = 0;
    proof {
        buffer.lemma_bounds();
        assert(list.take(0) =~= Seq::empty());
        assert(missing_iter.segments@ =~= missing::cut_all(list.take(0), from, segment_end, now)
            + list.skip(0));
        lemma_filled_none(ring0, start as int, from as int, data@);
    }
    loop
        invariant_except_break
            0 <= k <= list.len(),
            segment_data@ == data@.skip(segment_begin - from),
            missing_iter.segments@ == missing::cut_all(list.take(k), from, segment_end, now)
                + list.skip(k),
            missing_iter.next == missing::cut_all(list.take(k), from, segment_end, now).len(),
            segment_begin == if k > 0 && list[k - 1].end > from {
                list[k - 1].end
            } else {
                from
            },
            segment_begin < segment_end || segment_begin == from,
            buffer.ring() == filled(ring0, start as int, from as int, data@, list.take(k)),
        invariant
            missing::in_order(list),
            missing::within(list, start as int, start + known),
            segment_end == from + data@.len(),
            start <= from <= segment_begin <= segment_end,
            buffer.wf(),
            buffer.readable() == known,
            known < ring0.len() <= isize::MAX,
            start + known <= u64::MAX,
            final(missing_iter.segments)@ == outcome,
        ensures
            missing_iter.segments@ == missing::cut_all(list, from, segment_end, now),
            buffer.ring() == filled(ring0, start as int, from as int, data@, list),
            segment_end > start + known ==> segment_begin == if list.len() > 0 && list.last().end
                > from {
                list.last().end
            } else {
                from
            },
        decreases list.len() - k,
    {
        let item: MissingSegment = match missing_iter.next() {
            Some(item) => *item,
            None => {
                proof {
                    assert(k == list.len());
                    lemma_cut_rest(list, k, from, segment_end, now);
                    lemma_filled_rest(ring0, start as int, from as int, data@, list, k);
                }
                break;
            },
        };
        let ghost before = missing::cut_all(list.take(k), from, segment_end, now);
        proof {
            assert(item == list[k]);
            missing::lemma_cut_all_step(list, k, from, segment_end, now);
            assert(k > 0 ==> list[k - 1].end <= item.begin);
            lemma_filled_len(ring0, start as int, from as int, data@, list.take(k));
        }
        if item.end <= segment_begin {
            proof {
                assert(missing_iter.segments@ =~= before + seq![item] + list.skip(k + 1));
                lemma_filled_skip(ring0, start as int, from as int, data@, list, k);
                k = k + 1;
            }
            continue;
        }
        if item.begin >= segment_end {
            proof {
                lemma_cut_rest(list, k, from, segment_end, now);
                lemma_filled_rest(ring0, start as int, from as int, data@, list, k);
            }
            break;
        }
        if item.begin > segment_begin {
            let shift: usize = (item.begin - segment_begin) as usize;
            segment_begin = item.begin;
            segment_data = &segment_data[shift..segment_data.len()];
        }
        assert(segment_data@ =~= data@.skip(segment_begin - from));
        let write_end: u64 = if item.end < segment_end {
            item.end
        } else {
            segment_end
        };
        let to_write_size: usize = (write_end - segment_begin) as usize;
        let buf_offset: usize = (segment_begin - start) as usize;
        proof {
            lemma_cut_count(list, k, from, segment_end, now, start as int);
            lemma_filled_step(
                ring0,
                start as int,
                from as int,
                data@,
                list,
                k,
                segment_begin as int,
                write_end as int,
            );
        }
        let part: &[u8] = &segment_data[0..to_write_size];
        assert(part@ =~= data@.subrange(segment_begin - from, write_end - from));
        let written: usize = buffer.write_data_at_read_offset(buf_offset, part);
        assert(part@.take(written as int) =~= part@);
        missing_iter.cut_range(segment_begin, write_end, now);
        assert(missing_iter.segments@ =~= before + missing::leftover(item, from, segment_end, now)
            + list.skip(k + 1));
        segment_begin = write_end;
        segment_data = &segment_data[to_write_size..segment_data.len()];
        assert(segment_data@ =~= data@.skip(segment_begin - from));
        proof {
            k = k + 1;
        }
        if segment_data.len() == 0 {
            proof {
                assert(k < list.len() ==> list[k - 1].end <= list[k].begin);
                lemma_cut_rest(list, k, from, segment_end, now);
                lemma_filled_rest(ring0, start as int, from as int, data@, list, k);
            }
            break;
        }
    }
    segment_begin
}

/// A segment chunk holds its stream offset, and its payload ends within the stream's range.
pub open spec fn segment_ok(chunk: Seq<u8>) -> bool {
    &&& chunk.len() >= 8
    &&& le_offset(chunk) + chunk.len() - 8 <= u64::MAX
}

/// The stream offset at the front of a chunk.
pub open spec fn le_offset(chunk: Seq<u8>) -> nat {
    wire::le_value(chunk.take(8))
}

/// Every segment chunk from `pos` on that would be taken in can be.
pub open spec fn segments_ok(data: Seq<u8>, pos: int) -> bool
    decreases data.len() - pos,
{
    let next = pos + 2 + wire::chunk_size(data, pos);
    if pos + 2 > data.len() || next > data.len() || wire::chunk_kind(data, pos)
        != wire::CHUNK_SEGMENT {
        true
    } else {
        segment_ok(wire::chunk_body(data, pos)) && segments_ok(data, next)
    }
}

/// What [`Receiver::receive_packet`] makes of the chunks of `data` from `pos` on: the new
/// state, and how many bytes were used or what stopped it.
pub open spec fn receive_from(state: ReceiverState, data: Seq<u8>, pos: int, now: u64) -> (
    ReceiverState,
    Result<usize, ReceiveError>,
)
    decreases data.len() - pos,
{
    let kind = wire::chunk_kind(data, pos);
    let size = wire::chunk_size(data, pos);
    let next = pos + 2 + size;
    if pos + 2 > data.len() {
        (state, Ok(pos as usize))
    } else if next > data.len() {
        (
            state,
            Err(
                ReceiveError::ChunkEndsAbruptly {
                    chunk_type: kind as usize,
                    size: size as usize,
                    offset: (pos + 2) as usize,
                    left: (data.len() - pos - 2) as usize,
                },
            ),
        )
    } else if kind != wire::CHUNK_SEGMENT {
        (state, Err(ReceiveError::UnknownChunk { chunk_type: kind as usize, size: size as usize }))
    } else {
        let chunk = wire::chunk_body(data, pos);
        receive_from(
            state.accept(le_offset(chunk) as u64, chunk.skip(8), now),
            data,
            next,
            now,
        )
    }
}

proof fn lemma_same_tail(state: ReceiverState, a: Seq<u8>, b: Seq<u8>, pos: int, now: u64)
    requires
        4 <= pos,
        a.len() == b.len(),
        a.skip(4) == b.skip(4),
    ensures
        segments_ok(a, pos) == segments_ok(b, pos),
        receive_from(state, a, pos, now) == receive_from(state, b, pos, now),
    decreases a.len() - pos,
{
    if pos + 2 <= a.len() {
        wire::lemma_same_chunk(a, b, 4, pos);
        let next = pos + 2 + wire::chunk_size(a, pos);
        if next <= a.len() && wire::chunk_kind(a, pos) == wire::CHUNK_SEGMENT {
            let chunk = wire::chunk_body(a, pos);
            let one = state.accept(le_offset(chunk) as u64, chunk.skip(8), now);
            lemma_same_tail(one, a, b, next, now);
        }
    }
}

/// A packet's number does not matter: packets that differ in nothing else are received alike,
/// in whatever order they arrive.
pub proof fn law_packet_number_does_not_matter(
    state: ReceiverState,
    a: Seq<u8>,
    b: Seq<u8>,
    now: u64,
)
    requires
        4 <= a.len() == b.len(),
        a.skip(4) == b.skip(4),
    ensures
        segments_ok(a, 4) == segments_ok(b, 4),
        receive_from(state, a, 4, now) == receive_from(state, b, 4, now),
{
    lemma_same_tail(state, a, b, 4, now);
}

/// Tells whether a segment chunk can be taken in.
pub fn is_segment_ok(chunk: &[u8]) -> (r: bool)
    ensures
        r == segment_ok(chunk@),
{
    match wire::read_u64(chunk) {
        None => false,
        Some(begin) => {
            proof {
                wire::lemma_le_value_range(chunk@.take(8));
                wire::lemma_le_ranges();
            }
            (chunk.len() - 8) as u64 <= u64::MAX - begin
        },
    }
}

/// Reading bytes that are available keeps the receiver consistent.
pub proof fn law_advance_keeps_valid(state: ReceiverState, n: nat)
    requires
        state.valid(),
        n <= state.available(),
    ensures
        state.advance(n).valid(),
        state.advance(n).head() == state.head(),
{
    let next = state.advance(n);
    if state.missing.len() > 0 {
        assert(state.missing[0].begin < state.missing[0].end);
        assert forall|i: int| 0 <= i < next.missing.len() implies next.start <= (
        #[trigger] next.missing[i]).begin && next.missing[i].end <= next.head() by {
            if i > 0 {
                assert(state.missing[0].end <= state.missing[i].begin);
            }
        }
    }
}

/// Learning how far the stream reaches keeps the receiver consistent.
pub proof fn law_announce_keeps_valid(state: ReceiverState, front: u64, now: u64)
    requires
        state.valid(),
    ensures
        state.announce(front, now).valid(),
{
    let next = state.announce(front, now);
    let old_list = state.missing;
    if next.missing.len() > old_list.len() {
        assert forall|i: int, j: int| 0 <= i < j < next.missing.len() implies (
        #[trigger] next.missing[i]).end <= (#[trigger] next.missing[j]).begin by {
            assert(next.missing[i] == old_list[i]);
            if j < old_list.len() {
                assert(next.missing[j] == old_list[j]);
            }
        }
        assert forall|i: int| 0 <= i < next.missing.len() implies (#[trigger] next.missing[i]).begin
            < next.missing[i].end && next.start <= next.missing[i].begin && next.missing[i].end
            <= next.head() by {
            if i < old_list.len() {
                assert(next.missing[i] == old_list[i]);
            }
        }
    }
}

/// Taking in a piece of the stream keeps the receiver consistent.
pub proof fn law_accept_keeps_valid(state: ReceiverState, begin: u64, payload: Seq<u8>, now: u64)
    requires
        state.valid(),
        begin + payload.len() <= u64::MAX,
    ensures
        state.accept(begin, payload, now).valid(),
        state.accept(begin, payload, now).ring.len() == state.ring.len(),
        state.accept(begin, payload, now).start == state.start,
        state.accept(begin, payload, now).head() >= state.head(),
{
    let end = begin + payload.len();
    if end > state.start {
        let from = if begin < state.start {
            state.start
        } else {
            begin as int
        };
        let next = state.accept(begin, payload, now);
        let tail = state.resume(from);
        let cut = missing::cut_all(state.missing, from as u64, end as u64, now);
        if state.missing.len() > 0 {
            assert(state.missing.last() == state.missing[state.missing.len() - 1]);
            assert(state.missing.last().end <= state.head());
        }
        missing::law_cut_keeps_order(state.missing, from as u64, end as u64, now);
        missing::lemma_cut_all_within(
            state.missing,
            from as u64,
            end as u64,
            now,
            state.start,
            state.head(),
        );
        assert(next.head() >= state.head());
        assert(missing::within(next.missing, next.start, next.head())) by {
            assert forall|i: int| 0 <= i < next.missing.len() implies next.start <= (
            #[trigger] next.missing[i]).begin && next.missing[i].end <= next.head() by {
                if i < cut.len() {
                    assert(next.missing[i] == cut[i]);
                }
            }
        }
        assert(missing::in_order(next.missing)) by {
            assert forall|i: int, j: int| 0 <= i < j < next.missing.len() implies (
            #[trigger] next.missing[i]).end <= (#[trigger] next.missing[j]).begin by {
                assert(next.missing[i] == cut[i]);
                if j < cut.len() {
                    assert(next.missing[j] == cut[j]);
                }
            }
            assert forall|i: int| 0 <= i < next.missing.len() implies (
            #[trigger] next.missing[i]).begin < next.missing[i].end by {
                if i < cut.len() {
                    assert(next.missing[i] == cut[i]);
                }
            }
        }
    }
}

/// The slots after a piece arrived: its gaps filled, then what goes beyond the head stored.
proof fn lemma_accepted_ring(state: ReceiverState, begin: u64, payload: Seq<u8>, now: u64)
    requires
        state.valid(),
        begin + payload.len() <= u64::MAX,
        begin + payload.len() > state.start,
    ensures
        ({
            let end = begin + payload.len();
            let from = if begin < state.start {
                state.start
            } else {
                begin as int
            };
            let tail = state.resume(from);
            let data = payload.skip(from - begin);
            let gaps = filled(state.ring, state.start, from, data, state.missing);
            let next = state.accept(begin, payload, now);
            let extra = state.stored(tail, end);
            if end > state.head() && extra > 0 {
                next.ring == wire::overwrite(
                    gaps,
                    tail - state.start,
                    payload.skip(tail - begin).take(extra),
                )
            } else {
                next.ring == gaps
            }
        }),
{
    reveal(filled);
    let end = begin + payload.len();
    let from = if begin < state.start {
        state.start
    } else {
        begin as int
    };
    let tail = state.resume(from);
    let data = payload.skip(from - begin);
    let gaps = filled(state.ring, state.start, from, data, state.missing);
    let next = state.accept(begin, payload, now);
    let extra = state.stored(tail, end);
    if state.missing.len() > 0 {
        assert(state.missing.last() == state.missing[state.missing.len() - 1]);
        assert(state.missing.last().end <= state.head());
    }
    if end > state.head() && extra > 0 {
        assert(next.ring =~= wire::overwrite(
            gaps,
            tail - state.start,
            payload.skip(tail - begin).take(extra),
        ));
    } else {
        assert(next.ring =~= gaps);
    }
}

impl Receiver {
    pub closed spec fn wf(&self) -> bool {
        &&& self.buffer.wf()
        &&& self@.valid()
    }

    /// What the receiver holds is consistent.
    pub proof fn lemma_valid(&self)
        requires
            self.wf(),
        ensures
            self@.valid(),
            self@.start <= u64::MAX,
    {
    }

    /// A receiver at the beginning of the stream, with a ring of the default capacity.
    pub fn new() -> (r: Receiver)
        ensures
            r.wf(),
            r@.start == 0,
            r@.known == 0,
            r@.missing == Seq::<MissingSegment>::empty(),
            r@.ring == Seq::new(DEFAULT_RECEIVE_CAPACITY as nat, |i: int| 0u8),
            r@.ring.len() == 1024 * 1024,
    {
        Receiver::with_capacity(DEFAULT_RECEIVE_CAPACITY)
    }

    /// A receiver at the beginning of the stream, with a ring of `capacity` slots.
    pub fn with_capacity(capacity: usize) -> (r: Receiver)
        requires
            0 < capacity <= isize::MAX,
        ensures
            r.wf(),
            r@.start == 0,
            r@.known == 0,
            r@.missing == Seq::<MissingSegment>::empty(),
            r@.ring == Seq::new(capacity as nat, |i: int| 0u8),
    {
        let r = Receiver {
            missing: MissingSegments::new(),
            buffer: OchenCircusBuf::with_capacity(capacity),
            buffer_start_offset: 0,
        };
        proof {
            r.buffer.lemma_bounds();
        }
        r
    }

    /// Takes in a segment chunk: a stream offset and the bytes of the stream from there on.
    pub fn read_chunk_segment(&mut self, chunk: &[u8], now: u64) -> (r: Result<usize, ReceiveError>)
        requires
            old(self).wf(),
            segment_ok(chunk@),
        ensures
            final(self).wf(),
            r == Ok::<usize, ReceiveError>(0),
            final(self)@ == old(self)@.accept(le_offset(chunk@) as u64, chunk@.skip(8), now),
    {
        let begin: u64 = match wire::read_u64(chunk) {
            Some(begin) => begin,
            None => {
                return Ok(0);
            },
        };
        let payload: &[u8] = &chunk[8..chunk.len()];
        let ghost pre = self@;
        let ghost whole = chunk@.skip(8);
        proof {
            self.buffer.lemma_bounds();
            wire::lemma_le_value_range(chunk@.take(8));
            wire::lemma_le_ranges();
            assert(payload@ =~= whole);
            law_accept_keeps_valid(pre, begin, whole, now);
        }
        let start: u64 = self.buffer_start_offset;
        let segment_end: u64 = begin + payload.len() as u64;
        if segment_end <= start {
            return Ok(0);
        }
        let mut from: u64 = begin;
        let mut data: &[u8] = payload;
        if begin < start {
            let shift: usize = (start - begin) as usize;
            from = start;
            data = &payload[shift..payload.len()];
        }
        assert(data@ =~= whole.skip(from - begin));
        let buffer_head: u64 = start + self.buffer.len() as u64;
        let tail: u64 = fill_gaps(&mut self.missing, &mut self.buffer, start, from, data, now);
        proof {
            lemma_filled_len(pre.ring, start as int, from as int, data@, pre.missing);
            self.buffer.lemma_bounds();
            missing::lemma_cut_all_within(
                pre.missing,
                from,
                segment_end,
                now,
                pre.start,
                pre.head(),
            );
        }
        let last_slot: u64 = (self.buffer.capacity() - 1) as u64;
        if segment_end > buffer_head && tail - start < last_slot && tail < segment_end {
            let skip: usize = (tail - from) as usize;
            let rest: &[u8] = &data[skip..data.len()];
            let written: usize = self.buffer.write_data_at_read_offset(
                (tail - start) as usize,
                rest,
            );
            proof {
                assert(rest@ =~= whole.skip(tail - begin));
                assert(written == pre.stored(tail as int, segment_end as int));
                lemma_accepted_ring(pre, begin, whole, now);
            }
            if tail > buffer_head {
                let _ = self.missing.insert(buffer_head, tail, now);
            }
        } else {
            proof {
                lemma_accepted_ring(pre, begin, whole, now);
            }
        }
        assert(self@ =~= pre.accept(begin, whole, now));
        Ok(0)
    }

    /// Tells whether every segment chunk that [`Receiver::receive_packet`] would take in from
    /// `data` holds its stream offset and ends within the stream's range.
    pub fn packet_is_safe(data: &[u8]) -> (r: bool)
        ensures
            r == segments_ok(data@, 4),
    {
        if data.len() < 4 {
            return true;
        }
        let mut pos: usize = 4;
        loop
            invariant
                4 <= pos <= data@.len(),
                segments_ok(data@, 4) == segments_ok(data@, pos as int),
            decreases data@.len() - pos,
        {
            match wire::next_chunk(data, pos) {
                ChunkStep::Chunk { kind, begin, end } => {
                    if kind != wire::CHUNK_SEGMENT {
                        return true;
                    }
                    let chunk: &[u8] = &data[begin..end];
                    assert(chunk@ =~= wire::chunk_body(data@, pos as int));
                    if !is_segment_ok(chunk) {
                        return false;
                    }
                    pos = end;
                },
                _ => {
                    return true;
                },
            }
        }
    }

    /// Takes in the chunks of a packet at the time `now`, and returns how many bytes of the
    /// packet were used. Stops at the first chunk that ends abruptly or is of an unknown
    /// type; the chunks before it stay taken in.
    pub fn receive_packet(&mut self, data: &[u8], now: u64) -> (r: Result<usize, ReceiveError>)
        requires
            old(self).wf(),
            segments_ok(data@, 4),
        ensures
            final(self).wf(),
            if data@.len() < 4 {
                &&& r == Err::<usize, _>(ReceiveError::NoSequence)
                &&& final(self)@ == old(self)@
            } else {
                (final(self)@, r) == receive_from(old(self)@, data@, 4, now)
            },
    {
        match wire::read_u32(data) {
            Some(_packet_seq) => {},
            None => {
                return Err(ReceiveError::NoSequence);
            },
        }
        let mut pos: usize = 4;
        loop
            invariant
                4 <= pos <= data@.len(),
                self.wf(),
                segments_ok(data@, pos as int),
                receive_from(old(self)@, data@, 4, now) == receive_from(self@, data@, pos as int, now),
            decreases data@.len() - pos,
        {
            match wire::next_chunk(data, pos) {
                ChunkStep::End => {
                    return Ok(pos);
                },
                ChunkStep::Truncated { kind, size, offset, left } => {
                    return Err(
                        ReceiveError::ChunkEndsAbruptly { chunk_type: kind, size, offset, left },
                    );
                },
                ChunkStep::Chunk { kind, begin, end } => {
                    if kind != wire::CHUNK_SEGMENT {
                        return Err(
                            ReceiveError::UnknownChunk { chunk_type: kind, size: end - begin },
                        );
                    }
                    let chunk: &[u8] = &data[begin..end];
                    assert(chunk@ =~= wire::chunk_body(data@, pos as int));
                    let _ = self.read_chunk_segment(chunk, now);
                    pos = end;
                },
            }
        }
    }

    /// How many bytes can be read at once, before the first missing one.
    pub fn data_to_read(&self) -> (r: usize)
        requires
            self.wf(),
        ensures
            r == self@.available(),
    {
        proof {
            self.buffer.lemma_bounds();
            if self.missing@.len() > 0 {
                assert(self.missing@[0].begin < self.missing@[0].end);
            }
        }
        match self.missing.first() {
            Some(offset) => (offset - self.buffer_start_offset) as usize,
            None => self.buffer.len(),
        }
    }

    /// Hands out the next bytes of the stream, up to the first missing one or to the end of
    /// `buf`, and returns how many there were.
    pub fn read(&mut self, buf: &mut [u8]) -> (r: Result<usize, ErrorKind>)
        requires
            old(self).wf(),
        ensures
            final(self).wf(),
            ({
                let n = old(self)@.readable(old(buf)@.len());
                &&& r == Ok::<usize, ErrorKind>(n as usize)
                &&& final(buf)@ == wire::overwrite(old(buf)@, 0, old(self)@.ring.take(n as int))
                &&& final(self)@ == old(self)@.advance(n)
            }),
    {
        let ghost pre = self@;
        let ghost buf0 = buf@;
        let size: usize = self.data_to_read();
        proof {
            self.buffer.lemma_bounds();
            if pre.missing.len() > 0 {
                assert(pre.missing[0].begin < pre.missing[0].end);
            }
        }
        let to_copy: usize = if buf.len() < size {
            buf.len()
        } else {
            size
        };
        let parts = self.buffer.get_data();
        let first: &[u8] = parts[0];
        let second: &[u8] = parts[1];
        let copy_first: usize = if to_copy < first.len() {
            to_copy
        } else {
            first.len()
        };
        wire::copy_into(buf, 0, &first[0..copy_first]);
        let copy_second: usize = to_copy - copy_first;
        wire::copy_into(buf, copy_first, &second[0..copy_second]);
        proof {
            let all = first@ + second@;
            assert(all =~= pre.ring.take(pre.known as int));
            assert forall|i: int| 0 <= i < to_copy implies all[i] == pre.ring[i] by {}
            assert(buf@ =~= wire::overwrite(buf0, 0, pre.ring.take(to_copy as int)));
        }
        self.buffer.consume(to_copy);
        self.buffer_start_offset = self.buffer_start_offset + to_copy as u64;
        proof {
            let c = pre.ring.len() as int;
            vstd::arithmetic::div_mod::lemma_small_mod(to_copy as nat, c as nat);
            vstd::arithmetic::div_mod::lemma_small_mod((pre.known - to_copy) as nat, c as nat);
            law_advance_keeps_valid(pre, to_copy as nat);
        }
        Ok(to_copy)
    }

    /// Learns at the time `now` that the stream reaches up to the offset `stream_front`.
    pub fn update_stream_front(&mut self, stream_front: u64, now: u64)
        requires
            old(self).wf(),
        ensures
            final(self).wf(),
            final(self)@ == old(self)@.announce(stream_front, now),
    {
        let ghost pre = self@;
        proof {
            self.buffer.lemma_bounds();
            law_announce_keeps_valid(pre, stream_front, now);
        }
        let start: u64 = self.buffer_start_offset;
        if stream_front <= start {
            return;
        }
        let last_slot: u64 = (self.buffer.capacity() - 1) as u64;
        let reach: u64 = if stream_front - start < last_slot {
            stream_front - start
        } else {
            last_slot
        };
        let known: u64 = self.buffer.len() as u64;
        if reach > known {
            let nothing: [u8; 0] = [];
            let _ = self.buffer.write_data_at_read_offset(reach as usize, &nothing);
            proof {
                if pre.missing.len() > 0 {
                    assert(pre.missing.last() == pre.missing[pre.missing.len() - 1]);
                    assert(pre.missing.last().end <= pre.head());
                }
                assert(self.buffer.ring() =~= pre.ring);
            }
            let _ = self.missing.insert(start + known, start + reach, now);
        }
    }

    /// How many bytes a feedback chunk takes that may use at most `room` bytes.
    pub fn feedback_size(&self, room: usize) -> (r: usize)
        requires
            self.wf(),
        ensures
            r <= room,
            r == if room < 10 {
                0
            } else {
                wire::chunk_bytes(
                    wire::CHUNK_FEEDBACK as nat,
                    self@.feedback(feedback_count(self@.missing.len(), room as nat)),
                ).len()
            },
    {
        if room < 10 {
            return 0;
        }
        let fitting: usize = if (room - 10) / 10 < MAX_FEEDBACK_ENTRIES {
            (room - 10) / 10
        } else {
            MAX_FEEDBACK_ENTRIES
        };
        let count: usize = if self.missing.count() < fitting {
            self.missing.count()
        } else {
            fitting
        };
        proof {
            let body = self@.feedback(count as nat);
            lemma_feedback_len(self@, count as nat);
            wire::lemma_le_bytes_len(wire::chunk_head(1, body.len()), 2);
        }
        10 + 10 * count
    }

    /// Writes a feedback chunk into `buf` at `at`, which uses at most `room` bytes: up to where
    /// the stream was read, and which stretches are missing. Returns how many bytes it takes,
    /// which is none where even the shortest chunk does not fit.
    pub fn make_chunk_feedback(&self, buf: &mut [u8], at: usize, room: usize) -> (r: usize)
        requires
            self.wf(),
            at + room <= old(buf)@.len(),
        ensures
            if room < 10 {
                &&& r == 0
                &&& final(buf)@ == old(buf)@
            } else {
                let count = feedback_count(self@.missing.len(), room as nat);
                let chunk = wire::chunk_bytes(
                    wire::CHUNK_FEEDBACK as nat,
                    self@.feedback(count),
                );
                &&& r == chunk.len() == 10 + 10 * count
                &&& r <= room
                &&& final(buf)@ == wire::overwrite(old(buf)@, at as int, chunk)
            },
    {
        let taken: usize = self.feedback_size(room);
        if taken == 0 {
            return 0;
        }
        let ghost buf0 = buf@;
        let total: usize = buf.len();
        assert(at + room <= total);
        proof {
            let n = feedback_count(self@.missing.len(), room as nat);
            lemma_feedback_len(self@, n);
            wire::lemma_le_bytes_len(wire::chunk_head(1, self@.feedback(n).len()), 2);
        }
        let count: usize = (taken - 10) / 10;
        let size: usize = 8 + 10 * count;
        let header: u16 = 2048 + size as u16;
        let ghost list = self.missing@;
        let ghost head = wire::le_bytes(header as nat, 2);
        let ghost start = wire::le_bytes(self@.start as nat, 8);
        wire::write_u16(buf, at, header);
        wire::write_u64(buf, at + 2, self.buffer_start_offset);
        proof {
            wire::lemma_le_bytes_len(header as nat, 2);
            wire::lemma_le_bytes_len(self@.start as nat, 8);
            wire::lemma_overwrite_append(buf0, at as int, head, start);
            assert(list.take(0) =~= Seq::empty());
            assert(head + start + feedback_entries(list.take(0)) =~= head + start);
        }
        let mut i: usize = 0;
        while i < count
            invariant
                i <= count <= list.len(),
                count <= MAX_FEEDBACK_ENTRIES,
                list == self.missing@,
                missing::in_order(list),
                head.len() == 2,
                start.len() == 8,
                feedback_entries(list.take(i as int)).len() == 10 * i,
                at + 10 + 10 * count <= total == buf@.len() == buf0.len(),
                buf@ == wire::overwrite(
                    buf0,
                    at as int,
                    head + start + feedback_entries(list.take(i as int)),
                ),
            decreases count - i,
        {
            let item: MissingSegment = self.missing.get(i);
            assert(item.begin < item.end);
            let pos: usize = at + 10 + 10 * i;
            let size: u16 = if item.end - item.begin > 0xffff {
                0xffff
            } else {
                (item.end - item.begin) as u16
            };
            let ghost buf1 = buf@;
            wire::write_u64(buf, pos, item.begin);
            wire::write_u16(buf, pos + 8, size);
            proof {
                let offset_bytes = wire::le_bytes(item.begin as nat, 8);
                let size_bytes = wire::le_bytes(size as nat, 2);
                wire::lemma_le_bytes_len(item.begin as nat, 8);
                wire::lemma_le_bytes_len(size as nat, 2);
                wire::lemma_overwrite_append(buf1, pos as int, offset_bytes, size_bytes);
                let done = head + start + feedback_entries(list.take(i as int));
                wire::lemma_overwrite_append(buf0, at as int, done, offset_bytes + size_bytes);
                assert(list.take(i + 1).drop_last() =~= list.take(i as int));
                assert(list.take(i + 1).last() == item);
                assert(done + (offset_bytes + size_bytes) =~= head + start + feedback_entries(
                    list.take(i + 1),
                ));
            }
            i += 1;
        }
        proof {
            assert(self@.feedback(count as nat).len() == size);
            assert(head + start + feedback_entries(list.take(count as int)) =~= wire::chunk_bytes(
                wire::CHUNK_FEEDBACK as nat,
                self@.feedback(count as nat),
            ));
        }
        2 + size
    }
}

/// Learning how far the stream reaches makes everything up to there missing that was not known
/// before, as far as the ring has slots, in one stretch; nothing else changes.
pub proof fn law_announced_bytes_are_missing(state: ReceiverState, front: u64, now: u64)
    requires
        state.valid(),
    ensures
        ({
            let next = state.announce(front, now);
            let slots = state.start + state.ring.len() - 1;
            &&& next.head() >= state.head()
            &&& next.head() > state.head() ==> next.head() == front || next.head() == slots
            &&& front <= next.head() || slots <= next.head()
            &&& next.head() <= slots
            &&& next.start == state.start
            &&& next.ring == state.ring
            &&& next.head() == state.head() ==> next.missing == state.missing
            &&& next.head() > state.head() ==> {
                &&& next.missing.len() == state.missing.len() + 1
                &&& next.missing.drop_last() == state.missing
                &&& next.missing.last().begin == state.head()
                &&& next.missing.last().end == next.head()
                &&& next.missing.last().timestamp == now
            }
        }),
{
    let next = state.announce(front, now);
    if next.missing.len() > state.missing.len() {
        assert(next.missing.drop_last() =~= state.missing);
    }
}

/// What a piece of the stream does to the list of what is missing: its bytes are cut out of it,
/// and where it leaves a gap behind the known part, that gap is added as one stretch. The known
/// part ends where it did, or with a byte that was received.
pub proof fn law_piece_leaves_at_most_one_gap(
    state: ReceiverState,
    begin: u64,
    payload: Seq<u8>,
    now: u64,
)
    requires
        state.valid(),
        begin + payload.len() <= u64::MAX,
    ensures
        ({
            let next = state.accept(begin, payload, now);
            let end = (begin + payload.len()) as u64;
            let from = if begin < state.start {
                state.start as u64
            } else {
                begin
            };
            let cut = missing::cut_all(state.missing, from, end, now);
            &&& next.start == state.start
            &&& next.ring.len() == state.ring.len()
            &&& end <= state.start ==> next == state
            &&& next.head() == state.head() || (next.head() > state.head() && next.has(
                next.head() - 1,
            ))
            &&& end > state.start ==> next.missing == if from > state.head() && next.head()
                > state.head() {
                cut.push(
                    MissingSegment { begin: state.head() as u64, end: from, timestamp: now },
                )
            } else {
                cut
            }
        }),
{
    let next = state.accept(begin, payload, now);
    let end = begin + payload.len();
    if end > state.start {
        let from = if begin < state.start {
            state.start
        } else {
            begin as int
        };
        if state.missing.len() > 0 {
            assert(state.missing.last() == state.missing[state.missing.len() - 1]);
            assert(state.missing.last().end <= state.head());
        }
        if next.head() > state.head() {
            let x = next.head() - 1;
            let cut = missing::cut_all(state.missing, from as u64, end as u64, now);
            missing::lemma_cut_all_within(
                state.missing,
                from as u64,
                end as u64,
                now,
                state.start,
                state.head(),
            );
            if missing::missing_at(next.missing, x) {
                let i = choose|i: int|
                    0 <= i < next.missing.len() && (#[trigger] next.missing[i]).begin <= x
                        < next.missing[i].end;
                if i < cut.len() {
                    assert(next.missing[i] == cut[i]);
                }
            }
        }
    }
}

/// Which bytes a piece changes: those that it brings, and of those that were already received
/// only such as lie behind the last gap, where the piece goes beyond the known part.
pub proof fn law_piece_changes_only_what_it_brings(
    state: ReceiverState,
    begin: u64,
    payload: Seq<u8>,
    now: u64,
    x: int,
)
    requires
        state.valid(),
        begin + payload.len() <= u64::MAX,
        state.accept(begin, payload, now).has(x),
    ensures
        ({
            let next = state.accept(begin, payload, now);
            let end = begin + payload.len();
            let behind_gaps = state.missing.len() == 0 || state.missing.last().end <= x;
            next.byte(x) == if !state.has(x) || (begin <= x < end && end > state.head()
                && behind_gaps) {
                payload[x - begin]
            } else {
                state.byte(x)
            }
        }),
{
    let next = state.accept(begin, payload, now);
    let end = begin + payload.len();
    law_accept_keeps_valid(state, begin, payload, now);
    if end > state.start {
        let from = if begin < state.start {
            state.start
        } else {
            begin as int
        };
        let cut = missing::cut_all(state.missing, from as u64, end as u64, now);
        if state.missing.len() > 0 {
            assert(state.missing.last() == state.missing[state.missing.len() - 1]);
            assert(state.missing.last().end <= state.head());
        }
        missing::law_cut_removes_exactly_the_received(
            state.missing,
            from as u64,
            end as u64,
            now,
            x,
        );
        if missing::missing_at(cut, x) {
            let i = choose|i: int| 0 <= i < cut.len() && (#[trigger] cut[i]).begin <= x < cut[i].end;
            assert(next.missing[i] == cut[i]);
        }
        if next.missing.len() > cut.len() {
            assert(next.missing[cut.len() as int].begin == state.head());
        }
    }
}

/// How a feedback chunk reads: the offset up to which was read, and for each listed stretch its
/// offset and its size, or the largest size that two bytes can name.
pub proof fn law_feedback_reads_back(state: ReceiverState, count: nat, i: int)
    requires
        state.valid(),
        count <= state.missing.len(),
        0 <= i < count,
    ensures
        ({
            let chunk = state.feedback(count);
            let at = 8 + 10 * i;
            let item = state.missing[i];
            &&& chunk.len() == 8 + 10 * count
            &&& wire::le_value(chunk.take(8)) == state.start
            &&& wire::le_value(chunk.subrange(at, at + 8)) == item.begin
            &&& wire::le_value(chunk.subrange(at + 8, at + 10)) == if item.end - item.begin
                <= 65535 {
                item.end - item.begin
            } else {
                65535
            }
        }),
{
    let chunk = state.feedback(count);
    let list = state.missing.take(count as int);
    let at = 8 + 10 * i;
    let item = state.missing[i];
    let start = wire::le_bytes(state.start as nat, 8);
    lemma_feedback_len(state, count);
    wire::lemma_le_bytes_len(state.start as nat, 8);
    wire::lemma_le_ranges();
    wire::law_number_round_trip(state.start as nat, 8);
    assert(chunk.take(8) =~= start);
    assert(item.begin < item.end);
    lemma_entry_stands(list, i);
    assert(list[i] == item);
    let entry = feedback_entry(item);
    wire::lemma_le_bytes_len(item.begin as nat, 8);
    wire::lemma_le_bytes_len(asked_for(item), 2);
    wire::law_number_round_trip(item.begin as nat, 8);
    wire::law_number_round_trip(asked_for(item), 2);
    let entries = feedback_entries(list);
    assert(chunk.subrange(at, at + 8) =~= entries.subrange(10 * i, 10 * i + 10).take(8));
    assert(entry.take(8) =~= wire::le_bytes(item.begin as nat, 8));
    assert(chunk.subrange(at + 8, at + 10) =~= entries.subrange(10 * i, 10 * i + 10).skip(8));
    assert(entry.skip(8) =~= wire::le_bytes(asked_for(item), 2));
}

proof fn lemma_entry_stands(list: Seq<MissingSegment>, i: int)
    requires
        0 <= i < list.len(),
    ensures
        feedback_entries(list).len() == 10 * list.len(),
        feedback_entries(list).subrange(10 * i, 10 * i + 10) == feedback_entry(list[i]),
    decreases list.len(),
{
    let rest = list.drop_last();
    lemma_entries_len(list);
    lemma_entries_len(rest);
    wire::lemma_le_bytes_len(list.last().begin as nat, 8);
    wire::lemma_le_bytes_len(asked_for(list.last()), 2);
    if i < rest.len() {
        lemma_entry_stands(rest, i);
        assert(feedback_entries(list).subrange(10 * i, 10 * i + 10) =~= feedback_entries(
            rest,
        ).subrange(10 * i, 10 * i + 10));
    } else {
        assert(feedback_entries(list).subrange(10 * i, 10 * i + 10) =~= feedback_entry(
            list.last(),
        ));
    }
}

/// A feedback chunk lists all missing stretches, or as many as there is room for and as a chunk
/// can hold.
pub proof fn law_feedback_lists_as_much_as_fits(missing: nat, room: nat)
    requires
        10 <= room,
    ensures
        ({
            let count = feedback_count(missing, room);
            &&& count <= missing
            &&& 2 + 8 + 10 * count <= room
            &&& 8 + 10 * count < 2048
            &&& count < missing ==> 2 + 8 + 10 * (count + 1) > room || 8 + 10 * (count + 1) >= 2048
        }),
{
}

/// The chunks that carry some segments, one after the other.
pub open spec fn segment_chunks(bodies: Seq<Seq<u8>>) -> Seq<u8>
    decreases bodies.len(),
{
    if bodies.len() == 0 {
        Seq::empty()
    } else {
        wire::chunk_bytes(0, bodies[0]) + segment_chunks(bodies.skip(1))
    }
}

/// The state after some segments, each with its stream offset in its first eight bytes.
pub open spec fn after_segments(state: ReceiverState, bodies: Seq<Seq<u8>>, now: u64) -> ReceiverState
    decreases bodies.len(),
{
    if bodies.len() == 0 {
        state
    } else {
        after_segments(
            state.accept(
                wire::le_value(bodies[0].take(8)) as u64,
                bodies[0].skip(8),
                now,
            ),
            bodies.skip(1),
            now,
        )
    }
}

/// A packet is received chunk by chunk: whatever segments stand at its beginning are taken in
/// one after the other, all of them, and then what follows is looked at. Such a packet can be
/// taken in exactly where each segment holds its offset and ends within the stream's range, and
/// so does what follows.
pub proof fn law_packet_is_received_chunk_by_chunk(
    state: ReceiverState,
    data: Seq<u8>,
    pos: int,
    bodies: Seq<Seq<u8>>,
    tail: Seq<u8>,
    now: u64,
)
    requires
        0 <= pos <= data.len() <= usize::MAX,
        data.skip(pos) == segment_chunks(bodies) + tail,
        forall|i: int| 0 <= i < bodies.len() ==> (#[trigger] bodies[i]).len() < 2048,
    ensures
        receive_from(state, data, pos, now) == receive_from(
            after_segments(state, bodies, now),
            data,
            data.len() - tail.len(),
            now,
        ),
        segments_ok(data, pos) <==> (forall|i: int|
            0 <= i < bodies.len() ==> (#[trigger] bodies[i]).len() >= 8 && wire::le_value(
                bodies[i].take(8),
            ) + bodies[i].len() - 8 <= u64::MAX) && segments_ok(data, data.len() - tail.len()),
    decreases bodies.len(),
{
    if bodies.len() == 0 {
        assert(segment_chunks(bodies) + tail =~= tail);
        assert(data.skip(pos).len() == tail.len());
    } else {
        let body = bodies[0];
        let rest = bodies.skip(1);
        let next = pos + 2 + body.len();
        let chunk = wire::chunk_bytes(0, body);
        wire::law_chunk_layout(0, body);
        assert(data.skip(pos) =~= chunk + (segment_chunks(rest) + tail));
        assert(data.subrange(pos, next) =~= data.skip(pos).take(2 + body.len() as int));
        assert((chunk + (segment_chunks(rest) + tail)).take(2 + body.len() as int) =~= chunk);
        wire::law_chunk_round_trip(data, pos, 0, body);
        assert(data.skip(next) =~= data.skip(pos).skip(2 + body.len() as int));
        assert((chunk + (segment_chunks(rest) + tail)).skip(2 + body.len() as int)
            =~= segment_chunks(rest) + tail);
        assert forall|i: int| 0 <= i < rest.len() implies (#[trigger] rest[i]).len() < 2048 by {
            assert(rest[i] == bodies[i + 1]);
        }
        let one = state.accept(wire::le_value(body.take(8)) as u64, body.skip(8), now);
        law_packet_is_received_chunk_by_chunk(one, data, next, rest, tail, now);
        let good = |b: Seq<u8>| b.len() >= 8 && wire::le_value(b.take(8)) + b.len() - 8 <= u64::MAX;
        if forall|i: int| 0 <= i < bodies.len() ==> good(#[trigger] bodies[i]) {
            assert forall|i: int| 0 <= i < rest.len() implies (#[trigger] rest[i]).len() >= 8
                && wire::le_value(rest[i].take(8)) + rest[i].len() - 8 <= u64::MAX by {
                assert(good(bodies[i + 1]));
            }
            assert(good(bodies[0]));
        }
        if segments_ok(data, pos) {
            assert forall|i: int| 0 <= i < bodies.len() implies (#[trigger] bodies[i]).len() >= 8
                && wire::le_value(bodies[i].take(8)) + bodies[i].len() - 8 <= u64::MAX by {
                if i > 0 {
                    assert(rest[i - 1] == bodies[i]);
                }
            }
        }
    }
}

/// What ends the reception of a packet: fewer than two bytes that are left, a chunk that is not
/// all there, or a chunk that is no segment. None of them changes the state, and none of them
/// makes a packet one that cannot be taken in.
pub proof fn law_reception_ends_where_no_segment_follows(
    state: ReceiverState,
    data: Seq<u8>,
    pos: int,
    now: u64,
)
    requires
        0 <= pos <= data.len() <= usize::MAX,
    ensures
        data.len() - pos < 2 ==> segments_ok(data, pos) && receive_from(state, data, pos, now) == (
            state,
            Ok::<usize, ReceiveError>(pos as usize),
        ),
        data.len() - pos >= 2 ==> {
            let kind = data[pos + 1] / 8;
            let size = data[pos] + 256 * (data[pos + 1] % 8);
            &&& pos + 2 + size > data.len() ==> segments_ok(data, pos) && receive_from(
                state,
                data,
                pos,
                now,
            ) == (
                state,
                Err::<usize, ReceiveError>(
                    ReceiveError::ChunkEndsAbruptly {
                        chunk_type: kind as usize,
                        size: size as usize,
                        offset: (pos + 2) as usize,
                        left: (data.len() - pos - 2) as usize,
                    },
                ),
            )
            &&& pos + 2 + size <= data.len() && kind != 0 ==> segments_ok(data, pos)
                && receive_from(state, data, pos, now) == (
                state,
                Err::<usize, ReceiveError>(
                    ReceiveError::UnknownChunk { chunk_type: kind as usize, size: size as usize },
                ),
            )
        },
{
    if data.len() - pos >= 2 {
        wire::law_chunk_head_is_read_by_its_layout(data, pos);
    }
}

} // verus!
