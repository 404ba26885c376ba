//! Stretches of the stream that are known to exist but have not been received.

use vstd::prelude::*;

verus! {

/// Why a stretch could not be recorded as missing.
#[derive(Clone, Copy, Debug, PartialEq, Eq, Structural)]
pub enum SegmentationFault {
    /// The stretch begins before the end of the newest one, which is at `head_offset`.
    TooOld { head_offset: u64 },
}

/// A missing stretch, from stream offset `begin` up to `end`.
#[derive(Clone, Copy, Debug, PartialEq, Eq, Structural)]
pub struct MissingSegment {
    pub begin: u64,
    pub end: u64,
    /// When the stretch was expected to have been received.
    pub timestamp: u64,
}

/// The stretches are not empty, and each one ends before the next one begins or right
/// where it begins.
pub open spec fn in_order(list: Seq<MissingSegment>) -> bool {
    &&& forall|i: int| 0 <= i < list.len() ==> (#[trigger] list[i]).begin < list[i].end
    &&& forall|i: int, j: int|
        0 <= i < j < list.len() ==> (#[trigger] list[i]).end <= (#[trigger] list[j]).begin
}

/// All stretches lie between the stream offsets `low` and `high`.
pub open spec fn within(list: Seq<MissingSegment>, low: int, high: int) -> bool {
    forall|i: int|
        0 <= i < list.len() ==> low <= (#[trigger] list[i]).begin && list[i].end <= high
}

/// The byte at stream offset `x` is missing.
pub open spec fn missing_at(list: Seq<MissingSegment>, x: int) -> bool {
    exists|i: int| 0 <= i < list.len() && (#[trigger] list[i]).begin <= x < list[i].end
}

/// What is left of `item` when the bytes from `cut_begin` up to `cut_end` are cut out. The
/// part before the cut is due anew at `timestamp`, the part after it keeps its time.
pub open spec fn pieces(
    item: MissingSegment,
    cut_begin: u64,
    cut_end: u64,
    timestamp: u64,
) -> Seq<MissingSegment> {
    let before = MissingSegment { begin: item.begin, end: cut_begin, timestamp };
    let after = MissingSegment { begin: cut_end, end: item.end, timestamp: item.timestamp };
    if cut_begin == item.begin && cut_end == item.end {
        seq![]
    } else if cut_begin == item.begin {
        seq![after]
    } else if cut_end == item.end {
        seq![before]
    } else {
        seq![before, after]
    }
}

/// `list` after the bytes from `cut_begin` up to `cut_end` were cut out of the stretch number
/// `at`.
pub open spec fn cut_one(
    list: Seq<MissingSegment>,
    at: int,
    cut_begin: u64,
    cut_end: u64,
    timestamp: u64,
) -> Seq<MissingSegment> {
    list.take(at) + pieces(list[at], cut_begin, cut_end, timestamp) + list.skip(at + 1)
}

/// The stretch that an iterator at the position `next` meets next.
pub open spec fn upcoming(list: Seq<MissingSegment>, next: int) -> Option<MissingSegment> {
    if next < list.len() {
        Some(list[next])
    } else {
        None
    }
}

/// What is left of `item` when the bytes from `begin` up to `end`, which need not all be in
/// it, have been received.
pub open spec fn leftover(
    item: MissingSegment,
    begin: u64,
    end: u64,
    timestamp: u64,
) -> Seq<MissingSegment> {
    if item.end <= begin || item.begin >= end {
        seq![item]
    } else {
        pieces(
            item,
            if item.begin > begin {
                item.begin
            } else {
                begin
            },
            if item.end < end {
                item.end
            } else {
                end
            },
            timestamp,
        )
    }
}

/// What is left of `list` when the bytes from `begin` up to `end` have been received.
pub open spec fn cut_all(
    list: Seq<MissingSegment>,
    begin: u64,
    end: u64,
    timestamp: u64,
) -> Seq<MissingSegment>
    decreases list.len(),
{
    if list.len() == 0 {
        list
    } else {
        cut_all(list.drop_last(), begin, end, timestamp) + leftover(
            list.last(),
            begin,
            end,
            timestamp,
        )
    }
}

pub proof fn lemma_cut_all_step(
    list: Seq<MissingSegment>,
    k: int,
    begin: u64,
    end: u64,
    timestamp: u64,
)
    requires
        0 <= k < list.len(),
    ensures
        cut_all(list.take(k + 1), begin, end, timestamp) == cut_all(
            list.take(k),
            begin,
            end,
            timestamp,
        ) + leftover(list[k], begin, end, timestamp),
{
    assert(list.take(k + 1).drop_last() =~= list.take(k));
}

/// Cutting what no stretch holds changes nothing.
pub proof fn lemma_cut_all_concat(
    list: Seq<MissingSegment>,
    k: int,
    begin: u64,
    end: u64,
    timestamp: u64,
)
    requires
        0 <= k <= list.len(),
        forall|i: int|
            k <= i < list.len() ==> (#[trigger] list[i]).end <= begin || list[i].begin >= end,
    ensures
        cut_all(list, begin, end, timestamp) == cut_all(list.take(k), begin, end, timestamp)
            + list.skip(k),
    decreases list.len() - k,
{
    if k == list.len() {
        assert(list.take(k) =~= list);
        assert(list.skip(k) =~= Seq::empty());
        assert(cut_all(list, begin, end, timestamp) + Seq::empty() =~= cut_all(
            list,
            begin,
            end,
            timestamp,
        ));
    } else {
        lemma_cut_all_concat(list, k + 1, begin, end, timestamp);
        lemma_cut_all_step(list, k, begin, end, timestamp);
        assert(leftover(list[k], begin, end, timestamp) + list.skip(k + 1) =~= list.skip(k));
        assert((cut_all(list.take(k), begin, end, timestamp) + leftover(
            list[k],
            begin,
            end,
            timestamp,
        )) + list.skip(k + 1) =~= cut_all(list.take(k), begin, end, timestamp) + (leftover(
            list[k],
            begin,
            end,
            timestamp,
        ) + list.skip(k + 1)));
    }
}

/// Cutting stays within bounds.
pub proof fn lemma_cut_all_within(
    list: Seq<MissingSegment>,
    begin: u64,
    end: u64,
    timestamp: u64,
    low: int,
    high: int,
)
    requires
        in_order(list),
        begin <= end,
        within(list, low, high),
    ensures
        within(cut_all(list, begin, end, timestamp), low, high),
    decreases list.len(),
{
    if list.len() > 0 {
        lemma_cut_all_within(list.drop_last(), begin, end, timestamp, low, high);
        let m = list.last();
        assert(m == list[list.len() - 1]);
        assert(within(leftover(m, begin, end, timestamp), low, high));
    }
}

/// Receiving bytes keeps the missing stretches in order.
pub proof fn law_cut_keeps_order(
    list: Seq<MissingSegment>,
    begin: u64,
    end: u64,
    timestamp: u64,
)
    requires
        in_order(list),
        begin <= end,
    ensures
        in_order(cut_all(list, begin, end, timestamp)),
    decreases list.len(),
{
    if list.len() > 0 {
        let rest = list.drop_last();
        let m = list.last();
        law_cut_keeps_order(rest, begin, end, timestamp);
        assert(within(rest, 0, m.begin as int)) by {
            assert(m == list[list.len() - 1]);
            assert forall|i: int| 0 <= i < rest.len() implies 0 <= (#[trigger] rest[i]).begin
                && rest[i].end <= m.begin by {
                assert(list[i].end <= list[list.len() - 1].begin);
            }
        }
        lemma_cut_all_within(rest, begin, end, timestamp, 0, m.begin as int);
        assert(m == list[list.len() - 1]);
        let left = cut_all(rest, begin, end, timestamp);
        let right = leftover(m, begin, end, timestamp);
        assert(in_order(right));
        assert(within(right, m.begin as int, m.end as int));
        assert forall|i: int, j: int| 0 <= i < j < (left + right).len() implies (#[trigger] (left
            + right)[i]).end <= (#[trigger] (left + right)[j]).begin by {
            if j < left.len() {
                assert((left + right)[i] == left[i] && (left + right)[j] == left[j]);
            } else if i >= left.len() {
                assert((left + right)[i] == right[i - left.len()] && (left + right)[j] == right[j
                    - left.len()]);
            } else {
                assert((left + right)[i] == left[i] && (left + right)[j] == right[j - left.len()]);
            }
        }
        assert forall|i: int| 0 <= i < (left + right).len() implies (#[trigger] (left
            + right)[i]).begin < (left + right)[i].end by {
            if i < left.len() {
                assert((left + right)[i] == left[i]);
            } else {
                assert((left + right)[i] == right[i - left.len()]);
            }
        }
    }
}

proof fn lemma_missing_at_concat(a: Seq<MissingSegment>, b: Seq<MissingSegment>, x: int)
    ensures
        missing_at(a + b, x) <==> missing_at(a, x) || missing_at(b, x),
{
    if missing_at(a, x) {
        let i = choose|i: int| 0 <= i < a.len() && (#[trigger] a[i]).begin <= x < a[i].end;
        assert((a + b)[i] == a[i]);
    }
    if missing_at(b, x) {
        let i = choose|i: int| 0 <= i < b.len() && (#[trigger] b[i]).begin <= x < b[i].end;
        assert((a + b)[a.len() + i] == b[i]);
    }
    if missing_at(a + b, x) {
        let c = a + b;
        let i = choose|i: int| 0 <= i < c.len() && (#[trigger] c[i]).begin <= x < c[i].end;
        if i < a.len() {
            assert(a[i] == c[i]);
        } else {
            assert(b[i - a.len()] == c[i]);
        }
    }
}

proof fn lemma_missing_at_leftover(
    m: MissingSegment,
    begin: u64,
    end: u64,
    timestamp: u64,
    x: int,
)
    requires
        m.begin < m.end,
        begin <= end,
    ensures
        missing_at(leftover(m, begin, end, timestamp), x) <==> m.begin <= x < m.end && !(begin <= x
            < end),
{
    let l = leftover(m, begin, end, timestamp);
    if m.begin <= x < m.end && !(begin <= x < end) {
        if x < begin || m.end <= begin || m.begin >= end {
            assert(l[0].begin <= x < l[0].end);
        } else {
            assert(l[l.len() - 1].begin <= x < l[l.len() - 1].end);
        }
    }
}

/// Exactly the received bytes stop being missing.
pub proof fn law_cut_removes_exactly_the_received(
    list: Seq<MissingSegment>,
    begin: u64,
    end: u64,
    timestamp: u64,
    x: int,
)
    requires
        in_order(list),
        begin <= end,
    ensures
        missing_at(cut_all(list, begin, end, timestamp), x) <==> missing_at(list, x) && !(begin <= x
            < end),
    decreases list.len(),
{
    if list.len() > 0 {
        let rest = list.drop_last();
        let m = list.last();
        assert(m == list[list.len() - 1]);
        law_cut_removes_exactly_the_received(rest, begin, end, timestamp, x);
        lemma_missing_at_leftover(m, begin, end, timestamp, x);
        lemma_missing_at_concat(
            cut_all(rest, begin, end, timestamp),
            leftover(m, begin, end, timestamp),
            x,
        );
        assert(rest + seq![m] =~= list);
        lemma_missing_at_concat(rest, seq![m], x);
        assert(missing_at(seq![m], x) <==> m.begin <= x < m.end) by {
            if m.begin <= x < m.end {
                assert(seq![m][0] == m);
            }
        }
    } else {
        assert(!missing_at(list, x));
    }
}

/// Cutting bytes out of one stretch keeps the stretches non-empty, sorted and apart, and takes
/// out exactly those bytes.
pub proof fn law_one_cut_removes_exactly_the_cut(
    list: Seq<MissingSegment>,
    at: int,
    cut_begin: u64,
    cut_end: u64,
    timestamp: u64,
    x: int,
)
    requires
        in_order(list),
        0 <= at < list.len(),
        list[at].begin <= cut_begin <= cut_end <= list[at].end,
    ensures
        in_order(cut_one(list, at, cut_begin, cut_end, timestamp)),
        missing_at(cut_one(list, at, cut_begin, cut_end, timestamp), x) <==> missing_at(list, x)
            && !(cut_begin <= x < cut_end),
{
    let item = list[at];
    let parts = pieces(item, cut_begin, cut_end, timestamp);
    let after = cut_one(list, at, cut_begin, cut_end, timestamp);
    let grown = parts.len() - 1;
    assert(item.begin < item.end);
    assert forall|i: int| 0 <= i < after.len() implies #[trigger] after[i] == if i < at {
        list[i]
    } else if i < at + parts.len() {
        parts[i - at]
    } else {
        list[i - grown]
    } by {}
    assert forall|i: int| 0 <= i < after.len() implies (#[trigger] after[i]).begin
        < after[i].end by {
        if i < at {
            assert(list[i].begin < list[i].end);
        } else if i >= at + parts.len() {
            assert(list[i - grown].begin < list[i - grown].end);
        }
    }
    assert forall|i: int, j: int| 0 <= i < j < after.len() implies (#[trigger] after[i]).end <= (
    #[trigger] after[j]).begin by {
        if i < at {
            assert(list[i].end <= list[at].begin);
        }
        if j >= at + parts.len() {
            assert(list[at].end <= list[j - grown].begin);
        }
        if i < at && j < at {
            assert(list[i].end <= list[j].begin);
        }
        if i < at && j >= at + parts.len() {
            assert(list[i].end <= list[j - grown].begin);
        }
        if i >= at + parts.len() {
            assert(list[i - grown].end <= list[j - grown].begin);
        }
    }
    if missing_at(after, x) {
        let i = choose|i: int| 0 <= i < after.len() && (#[trigger] after[i]).begin <= x < after[i].end;
        if i < at {
            assert(list[i].begin <= x < list[i].end);
            assert(list[i].end <= list[at].begin);
        } else if i < at + parts.len() {
            assert(list[at].begin <= x < list[at].end);
        } else {
            assert(list[i - grown].begin <= x < list[i - grown].end);
            assert(list[at].end <= list[i - grown].begin);
        }
    }
    if missing_at(list, x) && !(cut_begin <= x < cut_end) {
        let i = choose|i: int| 0 <= i < list.len() && (#[trigger] list[i]).begin <= x < list[i].end;
        if i < at {
            assert(after[i].begin <= x < after[i].end);
        } else if i > at {
            assert(after[i + grown].begin <= x < after[i + grown].end);
        } else if x < cut_begin {
            assert(after[at].begin <= x < after[at].end);
        } else {
            assert(after[at + parts.len() - 1].begin <= x < after[at + parts.len() - 1].end);
        }
    }
}

/// An iterator that cuts the stretch it met last meets next what followed that stretch: what is
/// left of it is not met again, and nothing is passed over.
pub proof fn law_cut_does_not_disturb_the_walk(
    list: Seq<MissingSegment>,
    at: int,
    cut_begin: u64,
    cut_end: u64,
    timestamp: u64,
)
    requires
        0 <= at < list.len(),
    ensures
        upcoming(
            cut_one(list, at, cut_begin, cut_end, timestamp),
            (at + pieces(list[at], cut_begin, cut_end, timestamp).len()) as int,
        ) == upcoming(list, at + 1),
{
}

/// Walks the missing stretches in order and edits them on the way.
pub struct MissingSegmentIterator<'a> {
    pub segments: &'a mut Vec<MissingSegment>,
    pub next: usize,
}

impl<'a> MissingSegmentIterator<'a> {
    /// The iterator that has not met any stretch yet.
    pub fn new(segments: &'a mut Vec<MissingSegment>) -> (r: Self)
        ensures
            r.next == 0,
            r.segments@ == old(segments)@,
            *final(r.segments) == *final(segments),
    {
        Self { segments, next: 0 }
    }

    /// The next stretch, which becomes the current one, or `None` at the end.
    pub fn next(&mut self) -> (r: Option<&MissingSegment>)
        ensures
            match upcoming(old(self).segments@, old(self).next as int) {
                Some(item) => r == Some(&item),
                None => r is None,
            },
            final(self).next == if old(self).next < old(self).segments@.len() {
                old(self).next + 1
            } else {
                old(self).next as int
            },
            final(self).segments@ == old(self).segments@,
            *final(final(self).segments) == *final(old(self).segments),
    {
        if self.next >= self.segments.len() {
            return None;
        }
        let item = &self.segments[self.next];
        self.next += 1;
        Some(item)
    }

    /// Gives the current stretch a new time and returns its old one; `None` where there is
    /// no current stretch.
    pub fn update_timestamp(&mut self, timestamp: u64) -> (r: Option<u64>)
        ensures
            final(self).next == old(self).next,
            *final(final(self).segments) == *final(old(self).segments),
            if 0 < old(self).next <= old(self).segments@.len() {
                let at = old(self).next - 1;
                &&& r == Some(old(self).segments@[at].timestamp)
                &&& final(self).segments@ == old(self).segments@.update(
                    at,
                    MissingSegment { timestamp, ..old(self).segments@[at] },
                )
            } else {
                &&& r is None
                &&& final(self).segments@ == old(self).segments@
            },
    {
        if self.next > self.segments.len() || self.next == 0 {
            return None;
        }
        let item = &mut self.segments[self.next - 1];
        let old_timestamp: u64 = item.timestamp;
        item.timestamp = timestamp;
        Some(old_timestamp)
    }

    /// Cuts the bytes from `cut_begin` up to `cut_end` out of the current stretch. The last
    /// piece that is left becomes the current stretch; if none is left, the stretch before
    /// does.
    pub fn cut_range(&mut self, cut_begin: u64, cut_end: u64, timestamp: u64)
        requires
            0 < old(self).next <= old(self).segments@.len(),
            old(self).segments@[old(self).next - 1].begin <= cut_begin,
            cut_end <= old(self).segments@[old(self).next - 1].end,
            old(self).next < usize::MAX,
        ensures
            ({
                let list = old(self).segments@;
                let at = old(self).next - 1;
                &&& final(self).segments@ == cut_one(list, at, cut_begin, cut_end, timestamp)
                &&& final(self).next == at + pieces(list[at], cut_begin, cut_end, timestamp).len()
            }),
            *final(final(self).segments) == *final(old(self).segments),
    {
        let at: usize = self.next - 1;
        let ghost before = self.segments@;
        let item: MissingSegment = self.segments[at];
        if cut_begin == item.begin && cut_end == item.end {
            self.segments.remove(at);
            self.next = at;
        } else if cut_begin == item.begin {
            self.segments[at].begin = cut_end;
        } else if cut_end == item.end {
            self.segments[at].end = cut_begin;
            self.segments[at].timestamp = timestamp;
        } else {
            self.segments[at].timestamp = timestamp;
            self.segments[at].end = cut_begin;
            self.segments.insert(
                self.next,
                MissingSegment { begin: cut_end, end: item.end, timestamp: item.timestamp },
            );
            self.next += 1;
        }
        assert(self.segments@ =~= cut_one(before, at as int, cut_begin, cut_end, timestamp));
    }
}

/// All missing stretches, in stream order.
#[derive(Debug)]
pub struct MissingSegments {
    segments: Vec<MissingSegment>,
}

impl View for MissingSegments {
    type V = Seq<MissingSegment>;

    closed spec fn view(&self) -> Seq<MissingSegment> {
        self.segments@
    }
}

impl MissingSegments {
    /// Nothing is missing.
    pub fn new() -> (r: Self)
        ensures
            r@ == Seq::<MissingSegment>::empty(),
    {
        Self { segments: Vec::new() }
    }

    /// Records a stretch after all known ones. Fails where it begins before the end of the
    /// newest one.
    pub fn insert(&mut self, begin: u64, end: u64, timestamp: u64) -> (r: Result<
        (),
        SegmentationFault,
    >)
        ensures
            if old(self)@.len() > 0 && old(self)@.last().end > begin {
                &&& r == Err::<(), _>(
                    SegmentationFault::TooOld { head_offset: old(self)@.last().end },
                )
                &&& final(self)@ == old(self)@
            } else {
                &&& r == Ok::<_, SegmentationFault>(())
                &&& final(self)@ == old(self)@.push(MissingSegment { begin, end, timestamp })
            },
            in_order(old(self)@) && begin < end ==> in_order(final(self)@),
    {
        if self.segments.len() > 0 {
            let newest: u64 = self.segments[self.segments.len() - 1].end;
            if newest > begin {
                return Err(SegmentationFault::TooOld { head_offset: newest });
            }
        }
        self.segments.push(MissingSegment { begin, end, timestamp });
        proof {
            let was = old(self)@;
            if in_order(was) && begin < end {
                assert forall|i: int, j: int| 0 <= i < j < self@.len() implies (
                #[trigger] self@[i]).end <= (#[trigger] self@[j]).begin by {
                    if j == was.len() {
                        if i < was.len() - 1 {
                            assert(was[i].end <= was[was.len() - 1].begin);
                        }
                    }
                }
            }
        }
        Ok(())
    }

    /// An iterator over the stretches that can edit them.
    pub fn missing_iter(&mut self) -> (r: MissingSegmentIterator<'_>)
        ensures
            r.next == 0,
            r.segments@ == old(self)@,
            final(r.segments)@ == final(self)@,
    {
        MissingSegmentIterator::new(&mut self.segments)
    }

    /// Where the first missing stretch begins.
    pub fn first(&self) -> (r: Option<u64>)
        ensures
            r == if self@.len() > 0 {
                Some(self@[0].begin)
            } else {
                None
            },
    {
        if self.segments.len() > 0 {
            Some(self.segments[0].begin)
        } else {
            None
        }
    }

    /// How many missing stretches there are.
    pub fn count(&self) -> (r: usize)
        ensures
            r == self@.len(),
    {
        self.segments.len()
    }

    /// The missing stretch number `i`.
    pub fn get(&self, i: usize) -> (r: MissingSegment)
        requires
            i < self@.len(),
        ensures
            r == self@[i as int],
    {
        self.segments[i]
    }
}

/// No byte before the first missing stretch is missing.
pub proof fn law_first_is_the_earliest_missing(list: Seq<MissingSegment>, x: int)
    requires
        in_order(list),
        missing_at(list, x),
    ensures
        list.len() > 0,
        list[0].begin <= x,
        missing_at(list, list[0].begin as int),
{
    let i = choose|i: int| 0 <= i < list.len() && (#[trigger] list[i]).begin <= x < list[i].end;
    if i > 0 {
        assert(list[0].end <= list[i].begin);
    }
    assert(list[0].begin < list[0].end);
}

/// A cut leaves at most one stretch on each side of it: the one before it, if it is not empty,
/// with the new time, and the one after it, if it is not empty, with the old time.
pub proof fn law_cut_leaves_a_stretch_on_each_side(
    item: MissingSegment,
    cut_begin: u64,
    cut_end: u64,
    timestamp: u64,
)
    requires
        item.begin < item.end,
        item.begin <= cut_begin <= cut_end <= item.end,
    ensures
        ({
            let left = pieces(item, cut_begin, cut_end, timestamp);
            let before: int = if item.begin < cut_begin {
                1
            } else {
                0
            };
            let after: int = if cut_end < item.end {
                1
            } else {
                0
            };
            &&& left.len() == before + after
            &&& item.begin < cut_begin ==> left[0].begin == item.begin && left[0].end == cut_begin
                && left[0].timestamp == timestamp
            &&& cut_end < item.end ==> left.last().begin == cut_end && left.last().end == item.end
                && left.last().timestamp == item.timestamp
        }),
{
}

/// Receiving bytes cuts them out of each stretch by itself: a stretch that holds none of them
/// stays as it is, any other one is cut where they overlap.
pub proof fn law_each_stretch_is_cut_by_itself(
    a: Seq<MissingSegment>,
    item: MissingSegment,
    b: Seq<MissingSegment>,
    begin: u64,
    end: u64,
    timestamp: u64,
)
    requires
        item.begin < item.end,
    ensures
        cut_all(a + b, begin, end, timestamp) == cut_all(a, begin, end, timestamp) + cut_all(
            b,
            begin,
            end,
            timestamp,
        ),
        cut_all(Seq::empty(), begin, end, timestamp) == Seq::<MissingSegment>::empty(),
        item.end <= begin || end <= item.begin ==> cut_all(seq![item], begin, end, timestamp)
            == seq![item],
        begin < item.end && item.begin < end && begin < end ==> cut_all(
            seq![item],
            begin,
            end,
            timestamp,
        ) == cut_one(
            seq![item],
            0,
            if begin < item.begin {
                item.begin
            } else {
                begin
            },
            if item.end < end {
                item.end
            } else {
                end
            },
            timestamp,
        ),
    decreases b.len(),
{
    let single = seq![item];
    assert(single.drop_last() =~= Seq::empty());
    assert(single.take(0) =~= Seq::empty());
    assert(single.skip(1) =~= Seq::empty());
    assert(cut_all(single.drop_last(), begin, end, timestamp) =~= Seq::empty());
    assert(cut_all(single, begin, end, timestamp) =~= leftover(item, begin, end, timestamp));
    if begin < item.end && item.begin < end && begin < end {
        let cut_begin = if begin < item.begin {
            item.begin
        } else {
            begin
        };
        let cut_end = if item.end < end {
            item.end
        } else {
            end
        };
        assert(cut_one(single, 0, cut_begin, cut_end, timestamp) =~= pieces(
            item,
            cut_begin,
            cut_end,
            timestamp,
        ));
    }
    if b.len() == 0 {
        assert(a + b =~= a);
        assert(cut_all(a, begin, end, timestamp) + cut_all(b, begin, end, timestamp) =~= cut_all(
            a,
            begin,
            end,
            timestamp,
        ));
    } else {
        law_each_stretch_is_cut_by_itself(a, item, b.drop_last(), begin, end, timestamp);
        assert((a + b).drop_last() =~= a + b.drop_last());
        assert((a + b).last() == b.last());
        assert(cut_all(a + b, begin, end, timestamp) =~= cut_all(a, begin, end, timestamp)
            + cut_all(b, begin, end, timestamp));
    }
}

/// A walk meets every stretch, one after the other, and then none.
pub proof fn law_walk_meets_every_stretch(list: Seq<MissingSegment>, k: int)
    requires
        0 <= k,
    ensures
        k < list.len() ==> upcoming(list, k) == Some(list[k]),
        k >= list.len() ==> upcoming(list, k) is None,
{
}

} // verus!
