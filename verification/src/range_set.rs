//! Sets of stream offsets, kept as ranges by the `ranges` crate.

use ranges::Ranges;
use std::ops::{Bound, RangeBounds};
use vstd::prelude::*;

verus! {

/// One edge of a range.
#[derive(Clone, Copy, Debug, PartialEq, Eq, Structural)]
pub enum Edge {
    Included(u64),
    Excluded(u64),
    Unbounded,
}

/// A range of stream offsets.
#[derive(Clone, Copy, Debug, PartialEq, Eq, Structural)]
pub struct StreamRange {
    pub start: Edge,
    pub end: Edge,
}

/// A set of stream offsets, held in a `ranges::Ranges`.
#[verifier::external_body]
pub struct RangeSet {
    ranges: Ranges<u64>,
}

/// The ranges of a set in ascending order, each from its first offset up to the one after
/// its last.
pub uninterp spec fn range_list(set: RangeSet) -> Seq<(u64, u64)>;

/// The ranges are not empty, ascend, and leave a gap between each other.
pub open spec fn canonical(list: Seq<(u64, u64)>) -> bool {
    &&& forall|i: int| 0 <= i < list.len() ==> (#[trigger] list[i]).0 < list[i].1
    &&& forall|i: int, j: int|
        0 <= i < j < list.len() ==> (#[trigger] list[i]).1 < (#[trigger] list[j]).0
}

/// The offset `x` is in one of the ranges.
pub open spec fn covers(list: Seq<(u64, u64)>, x: int) -> bool {
    exists|i: int| 0 <= i < list.len() && (#[trigger] list[i]).0 <= x < list[i].1
}

/// `after` holds the offsets of `before` and those from `begin` up to `end`.
pub open spec fn joined(
    before: Seq<(u64, u64)>,
    begin: u64,
    end: u64,
    after: Seq<(u64, u64)>,
) -> bool {
    forall|x: int| #[trigger] covers(after, x) <==> covers(before, x) || begin <= x < end
}

/// `after` holds the offsets of `before` but for those from `begin` up to `end`.
pub open spec fn without(
    before: Seq<(u64, u64)>,
    begin: u64,
    end: u64,
    after: Seq<(u64, u64)>,
) -> bool {
    forall|x: int| #[trigger] covers(after, x) <==> covers(before, x) && !(begin <= x < end)
}

/// The ranges of the offsets of `list` and of those from `begin` up to `end`.
pub open spec fn plus(list: Seq<(u64, u64)>, begin: u64, end: u64) -> Seq<(u64, u64)> {
    choose|after: Seq<(u64, u64)>| #[trigger]
        canonical(after) && joined(list, begin, end, after)
}

/// The ranges of the offsets of `list` but for those from `begin` up to `end`.
pub open spec fn minus(list: Seq<(u64, u64)>, begin: u64, end: u64) -> Seq<(u64, u64)> {
    choose|after: Seq<(u64, u64)>| #[trigger]
        canonical(after) && without(list, begin, end, after)
}

/// The ranges of the offsets of `list` that are not in `taken`.
pub open spec fn minus_all(list: Seq<(u64, u64)>, taken: Seq<(u64, u64)>) -> Seq<(u64, u64)>
    decreases taken.len(),
{
    if taken.len() == 0 {
        list
    } else {
        minus(minus_all(list, taken.drop_last()), taken.last().0, taken.last().1)
    }
}

pub proof fn lemma_plus(list: Seq<(u64, u64)>, begin: u64, end: u64, after: Seq<(u64, u64)>)
    requires
        canonical(after),
        joined(list, begin, end, after),
    ensures
        after == plus(list, begin, end),
{
    let other = plus(list, begin, end);
    assert(canonical(other) && joined(list, begin, end, other));
    law_offsets_determine_ranges(after, other);
}

pub proof fn lemma_minus(list: Seq<(u64, u64)>, begin: u64, end: u64, after: Seq<(u64, u64)>)
    requires
        canonical(after),
        without(list, begin, end, after),
    ensures
        after == minus(list, begin, end),
{
    let other = minus(list, begin, end);
    assert(canonical(other) && without(list, begin, end, other));
    law_offsets_determine_ranges(after, other);
}

impl RangeSet {
    /// `Ranges::new`: the empty set.
    #[verifier::external_body]
    pub(crate) fn new() -> (r: RangeSet)
        ensures
            range_list(r) == Seq::<(u64, u64)>::empty(),
    {
        RangeSet { ranges: Ranges::new() }
    }

    /// `Ranges::insert` of a half-open range: adds the offsets from `begin` up to `end`, and
    /// joins ranges that touch.
    #[verifier::external_body]
    pub(crate) fn insert(&mut self, begin: u64, end: u64)
        requires
            begin <= end,
            canonical(range_list(*old(self))),
        ensures
            canonical(range_list(*final(self))),
            joined(range_list(*old(self)), begin, end, range_list(*final(self))),
    {
        let _ = self.ranges.insert(begin..end);
    }

    /// `Ranges::remove` of a half-open range: takes out the offsets from `begin` up to `end`.
    #[verifier::external_body]
    pub(crate) fn remove(&mut self, begin: u64, end: u64)
        requires
            begin <= end,
            canonical(range_list(*old(self))),
        ensures
            canonical(range_list(*final(self))),
            without(range_list(*old(self)), begin, end, range_list(*final(self))),
    {
        let _ = self.ranges.remove(begin..end);
    }

    /// `Ranges::len`: how many ranges there are.
    #[verifier::external_body]
    pub(crate) fn len(&self) -> (r: usize)
        ensures
            r == range_list(*self).len(),
    {
        self.ranges.len()
    }

    /// `Ranges::as_slice`: the range number `i`, which holds its first offset and ends before
    /// the offset after its last.
    #[verifier::external_body]
    pub(crate) fn get(&self, i: usize) -> (r: StreamRange)
        requires
            i < range_list(*self).len(),
        ensures
            r.start == Edge::Included(range_list(*self)[i as int].0),
            r.end == Edge::Excluded(range_list(*self)[i as int].1),
    {
        let range = &self.ranges.as_slice()[i];
        let edge = |bound: Bound<&u64>| match bound {
            Bound::Included(x) => Edge::Included(*x),
            Bound::Excluded(x) => Edge::Excluded(*x),
            Bound::Unbounded => Edge::Unbounded,
        };
        StreamRange { start: edge(range.start_bound()), end: edge(range.end_bound()) }
    }
}

/// Which offsets a set holds determines its ranges.
pub proof fn law_offsets_determine_ranges(a: Seq<(u64, u64)>, b: Seq<(u64, u64)>)
    requires
        canonical(a),
        canonical(b),
        forall|x: int| #[trigger] covers(a, x) <==> covers(b, x),
    ensures
        a == b,
    decreases a.len(),
{
    if a.len() == 0 {
        if b.len() > 0 {
            assert(b[0].0 < b[0].1);
            assert(covers(b, b[0].0 as int));
            assert(covers(a, b[0].0 as int));
        }
        assert(a =~= b);
    } else {
        assert(a[0].0 < a[0].1);
        assert(covers(a, a[0].0 as int));
        assert(covers(b, a[0].0 as int));
        assert(b[0].0 < b[0].1);
        assert(covers(b, b[0].0 as int));
        assert(covers(a, b[0].0 as int));
        lemma_first_is_lowest(a, b[0].0 as int);
        lemma_first_is_lowest(b, a[0].0 as int);
        assert(a[0].0 == b[0].0);
        lemma_gap_after_first(a);
        lemma_gap_after_first(b);
        assert(!covers(a, a[0].1 as int));
        assert(!covers(b, b[0].1 as int));
        if a[0].1 < b[0].1 {
            assert(covers(b, a[0].1 as int));
        }
        if b[0].1 < a[0].1 {
            assert(covers(a, b[0].1 as int));
        }
        assert(a[0] == b[0]);
        let a1 = a.skip(1);
        let b1 = b.skip(1);
        assert forall|x: int| #[trigger] covers(a1, x) <==> covers(b1, x) by {
            lemma_covers_rest(a, x);
            lemma_covers_rest(b, x);
        }
        assert(canonical(a1)) by {
            assert forall|i: int| 0 <= i < a1.len() implies (#[trigger] a1[i]).0 < a1[i].1 by {
                assert(a1[i] == a[i + 1]);
            }
        }
        assert(canonical(b1)) by {
            assert forall|i: int| 0 <= i < b1.len() implies (#[trigger] b1[i]).0 < b1[i].1 by {
                assert(b1[i] == b[i + 1]);
            }
        }
        law_offsets_determine_ranges(a1, b1);
        assert(a =~= seq![a[0]] + a1);
        assert(b =~= seq![b[0]] + b1);
    }
}

proof fn lemma_first_is_lowest(list: Seq<(u64, u64)>, x: int)
    requires
        canonical(list),
        covers(list, x),
    ensures
        list.len() > 0,
        list[0].0 <= x,
{
    let i = choose|i: int| 0 <= i < list.len() && (#[trigger] list[i]).0 <= x < list[i].1;
    if i > 0 {
        assert(list[0].1 < list[i].0);
        assert(list[0].0 < list[0].1);
    }
}

proof fn lemma_gap_after_first(list: Seq<(u64, u64)>)
    requires
        canonical(list),
        list.len() > 0,
    ensures
        !covers(list, list[0].1 as int),
{
    let x = list[0].1 as int;
    if covers(list, x) {
        let i = choose|i: int| 0 <= i < list.len() && (#[trigger] list[i]).0 <= x < list[i].1;
        if i > 0 {
            assert(list[0].1 < list[i].0);
        }
    }
}

proof fn lemma_covers_rest(list: Seq<(u64, u64)>, x: int)
    requires
        canonical(list),
        list.len() > 0,
    ensures
        covers(list.skip(1), x) <==> covers(list, x) && !(list[0].0 <= x < list[0].1),
{
    let rest = list.skip(1);
    if covers(rest, x) {
        let i = choose|i: int| 0 <= i < rest.len() && (#[trigger] rest[i]).0 <= x < rest[i].1;
        assert(list[i + 1] == rest[i]);
        assert(list[0].1 < list[i + 1].0);
    }
    if covers(list, x) && !(list[0].0 <= x < list[0].1) {
        let i = choose|i: int| 0 <= i < list.len() && (#[trigger] list[i]).0 <= x < list[i].1;
        assert(rest[i - 1] == list[i]);
    }
}

/// Any set of offsets below `bound` has its ranges.
proof fn lemma_ranges_exist(set: spec_fn(int) -> bool, bound: nat) -> (list: Seq<(u64, u64)>)
    requires
        bound <= u64::MAX,
    ensures
        canonical(list),
        forall|x: int| #[trigger] covers(list, x) <==> set(x) && 0 <= x < bound,
    decreases bound,
{
    if bound == 0 {
        let list = Seq::<(u64, u64)>::empty();
        assert forall|x: int| #[trigger] covers(list, x) <==> set(x) && 0 <= x < bound by {}
        list
    } else {
        let last = (bound - 1) as int;
        let before = lemma_ranges_exist(set, (bound - 1) as nat);
        assert forall|i: int| 0 <= i < before.len() implies (#[trigger] before[i]).1 <= last by {
            assert(before[i].0 < before[i].1);
            assert(covers(before, before[i].1 - 1));
        }
        if !set(last) {
            assert forall|x: int| #[trigger] covers(before, x) <==> set(x) && 0 <= x < bound by {}
            before
        } else if before.len() > 0 && before.last().1 == last {
            let k = before.len() - 1;
            let list = before.update(k, (before[k].0, bound as u64));
            assert forall|i: int| 0 <= i < list.len() implies (#[trigger] list[i]).0 < list[i].1 by {
                assert(before[i].0 < before[i].1);
            }
            assert forall|i: int, j: int| 0 <= i < j < list.len() implies (#[trigger] list[i]).1 < (
            #[trigger] list[j]).0 by {
                assert(before[i].1 < before[j].0);
            }
            assert forall|x: int| #[trigger] covers(list, x) <==> set(x) && 0 <= x < bound by {
                if covers(list, x) {
                    let i = choose|i: int|
                        0 <= i < list.len() && (#[trigger] list[i]).0 <= x < list[i].1;
                    if x != last {
                        assert(before[i].0 <= x < before[i].1);
                        assert(covers(before, x));
                    }
                }
                if set(x) && 0 <= x < bound {
                    if x == last {
                        assert(before[k].0 < before[k].1);
                        assert(list[k].0 <= x < list[k].1);
                    } else {
                        assert(covers(before, x));
                        let i = choose|i: int|
                            0 <= i < before.len() && (#[trigger] before[i]).0 <= x < before[i].1;
                        assert(list[i].0 <= x < list[i].1);
                    }
                }
            }
            list
        } else {
            let fresh = (last as u64, bound as u64);
            let list = before.push(fresh);
            if before.len() > 0 {
                assert(before.last() == before[before.len() - 1]);
            }
            assert forall|i: int, j: int| 0 <= i < j < list.len() implies (#[trigger] list[i]).1 < (
            #[trigger] list[j]).0 by {
                assert(list[i] == before[i]);
                if j < before.len() {
                    assert(before[i].1 < before[j].0);
                } else {
                    if i < before.len() - 1 {
                        assert(before[i].1 < before[before.len() - 1].0);
                    }
                }
            }
            assert forall|x: int| #[trigger] covers(list, x) <==> set(x) && 0 <= x < bound by {
                if covers(list, x) {
                    let i = choose|i: int|
                        0 <= i < list.len() && (#[trigger] list[i]).0 <= x < list[i].1;
                    if i < before.len() {
                        assert(before[i].0 <= x < before[i].1);
                        assert(covers(before, x));
                    }
                }
                if set(x) && 0 <= x < bound {
                    if x == last {
                        assert(list[before.len() as int] == fresh);
                    } else {
                        assert(covers(before, x));
                        let i = choose|i: int|
                            0 <= i < before.len() && (#[trigger] before[i]).0 <= x < before[i].1;
                        assert(list[i] == before[i]);
                    }
                }
            }
            list
        }
    }
}

/// Joining a range to a set adds its offsets and keeps all others.
pub proof fn law_plus(list: Seq<(u64, u64)>, begin: u64, end: u64)
    requires
        begin <= end,
    ensures
        canonical(plus(list, begin, end)),
        joined(list, begin, end, plus(list, begin, end)),
{
    let set = |x: int| covers(list, x) || begin <= x < end;
    let after = lemma_ranges_exist(set, u64::MAX as nat);
    assert forall|x: int| #[trigger] covers(after, x) <==> covers(list, x) || begin <= x < end by {
        if covers(list, x) {
            let i = choose|i: int| 0 <= i < list.len() && (#[trigger] list[i]).0 <= x < list[i].1;
        }
        assert(set(x) <==> covers(list, x) || begin <= x < end);
    }
    lemma_plus(list, begin, end, after);
}

/// Taking a range out of a set removes its offsets and keeps all others.
pub proof fn law_minus(list: Seq<(u64, u64)>, begin: u64, end: u64)
    requires
        begin <= end,
    ensures
        canonical(minus(list, begin, end)),
        without(list, begin, end, minus(list, begin, end)),
{
    let set = |x: int| covers(list, x) && !(begin <= x < end);
    let after = lemma_ranges_exist(set, u64::MAX as nat);
    assert forall|x: int| #[trigger] covers(after, x) <==> covers(list, x) && !(begin <= x
        < end) by {
        if covers(list, x) {
            let i = choose|i: int| 0 <= i < list.len() && (#[trigger] list[i]).0 <= x < list[i].1;
        }
        assert(set(x) <==> covers(list, x) && !(begin <= x < end));
    }
    lemma_minus(list, begin, end, after);
}

/// What the ranges of a set, the joining of a range and the taking out of one come to, offset by
/// offset.
pub proof fn law_ranges_hold_what_was_joined_and_not_taken(
    list: Seq<(u64, u64)>,
    begin: u64,
    end: u64,
    x: int,
)
    requires
        begin <= end,
    ensures
        covers(plus(list, begin, end), x) <==> covers(list, x) || (begin <= x && x < end),
        covers(minus(list, begin, end), x) <==> covers(list, x) && (x < begin || end <= x),
        covers(seq![(begin, end)], x) <==> begin <= x && x < end,
        !covers(Seq::empty(), x),
{
    law_plus(list, begin, end);
    law_minus(list, begin, end);
    let single = seq![(begin, end)];
    if begin <= x < end {
        assert(single[0].0 <= x < single[0].1);
    }
}

} // verus!
