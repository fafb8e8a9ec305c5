//! Remaining regions after subtracting reserved regions from a whole block of memory.
//! See [`subtract_ranges`].
use vstd::prelude::*;

verus! {

/// The first address after the range `r = (start, length)`, held to the 64-bit address space.
pub open spec fn range_end(r: (u64, usize)) -> int {
    if r.0 + r.1 > u64::MAX {
        u64::MAX as int
    } else {
        r.0 + r.1
    }
}

/// Whether the address `x` lies in the range `r = (start, length)`.
pub open spec fn in_range(r: (u64, usize), x: int) -> bool {
    r.0 <= x < range_end(r)
}

/// Whether the address `x` lies in one of `ranges`.
pub open spec fn covered(ranges: Seq<(u64, usize)>, x: int) -> bool {
    exists|i: int| 0 <= i < ranges.len() && in_range(#[trigger] ranges[i], x)
}

/// Whether `ranges` are ordered by start and do not overlap.
pub open spec fn ordered_disjoint(ranges: Seq<(u64, usize)>) -> bool {
    forall|i: int, j: int|
        0 <= i < j < ranges.len() ==> range_end(#[trigger] ranges[i]) <= (#[trigger] ranges[j]).0
}

/// The parts of `[pos, end)` that none of `ranges` covers, in ascending order, where
/// `[floor, end)` is the whole range that each of `ranges` is clipped to.
pub open spec fn gaps(floor: int, pos: int, end: int, ranges: Seq<(u64, usize)>) -> Seq<
    (u64, usize),
>
    decreases ranges.len(),
{
    if pos >= end {
        Seq::empty()
    } else if ranges.len() == 0 {
        seq![(pos as u64, (end - pos) as usize)]
    } else {
        let sub_start = if ranges[0].0 >= floor {
            ranges[0].0 as int
        } else {
            floor
        };
        let sub_end = if range_end(ranges[0]) <= end {
            range_end(ranges[0])
        } else {
            end
        };
        if sub_start >= sub_end || sub_end <= pos {
            gaps(floor, pos, end, ranges.skip(1))
        } else if pos < sub_start {
            seq![(pos as u64, (sub_start - pos) as usize)] + gaps(
                floor,
                sub_end,
                end,
                ranges.skip(1),
            )
        } else {
            gaps(floor, sub_end, end, ranges.skip(1))
        }
    }
}

/// The ranges that are part of `whole` but not part of any of `ranges`, in ascending order.
pub open spec fn difference(whole: (u64, usize), ranges: Seq<(u64, usize)>) -> Seq<(u64, usize)> {
    gaps(whole.0 as int, whole.0 as int, range_end(whole), ranges)
}

/// A cursor over the ranges in a whole memory range that exclude specified sub-ranges.
///
/// This struct is created by the [`subtract_ranges`] function.
pub struct SubtractRanges {
    whole_start: u64,
    whole_end: u64,
    current_pos: u64,
    ranges: Vec<(u64, usize)>,
    next_range: usize,
}

impl SubtractRanges {
    /// The ranges that [`SubtractRanges::next`] has yet to yield, in order.
    pub closed spec fn remaining(&self) -> Seq<(u64, usize)> {
        gaps(
            self.whole_start as int,
            self.current_pos as int,
            self.whole_end as int,
            self.ranges@.skip(self.next_range as int),
        )
    }

    /// The condition under which the cursor's fields agree with each other.
    pub closed spec fn well_formed(&self) -> bool {
        &&& self.whole_start <= self.current_pos
        &&& self.whole_start <= self.whole_end
        &&& self.next_range <= self.ranges.len()
        &&& self.whole_end - self.whole_start <= usize::MAX
    }

    /// Advances the cursor and returns the next non-excluded range.
    ///
    /// Returns `None` when there are no more non-excluded ranges to return.
    pub fn next(&mut self) -> (r: Option<(u64, usize)>)
        requires
            old(self).well_formed(),
        ensures
            final(self).well_formed(),
            old(self).remaining().len() == 0 ==> r is None && final(self).remaining().len() == 0,
            old(self).remaining().len() > 0 ==> r == Some(old(self).remaining()[0])
                && final(self).remaining() == old(self).remaining().skip(1),
    {
        while self.current_pos < self.whole_end
            invariant
                self.well_formed(),
                self.remaining() == old(self).remaining(),
            decreases self.ranges.len() - self.next_range,
        {
            if self.next_range >= self.ranges.len() {
                let result_start = self.current_pos;
                let len = (self.whole_end - result_start) as usize;
                self.current_pos = self.whole_end;
                proof {
                    assert(old(self).remaining() =~= seq![(result_start, len)]);
                    assert(self.remaining() =~= old(self).remaining().skip(1));
                }
                return Some((result_start, len));
            }
            let (start, len) = self.ranges[self.next_range];
            let end = start.saturating_add(len as u64);
            let sub_start = if start >= self.whole_start {
                start
            } else {
                self.whole_start
            };
            let sub_end = if end <= self.whole_end {
                end
            } else {
                self.whole_end
            };
            proof {
                let rest = self.ranges@.skip(self.next_range as int);
                assert(rest[0] == (start, len));
                assert(end == range_end((start, len)));
                assert(rest.skip(1) =~= self.ranges@.skip(self.next_range as int + 1));
            }
            let ghost before = self.remaining();
            self.next_range = self.next_range + 1;
            if sub_start >= sub_end || sub_end <= self.current_pos {
                // The sub-range is empty, outside the whole range or behind the cursor.
            } else if self.current_pos < sub_start {
                let result_start = self.current_pos;
                let len = (sub_start - result_start) as usize;
                self.current_pos = sub_end;
                proof {
                    assert(before == seq![(result_start, len)] + self.remaining());
                    assert(self.remaining() =~= before.skip(1));
                }
                return Some((result_start, len));
            } else {
                self.current_pos = sub_end;
            }
        }
        None
    }

    /// Runs the cursor to its end and returns every remaining range.
    pub fn collect(self) -> (out: Vec<(u64, usize)>)
        requires
            self.well_formed(),
        ensures
            out@ == self.remaining(),
    {
        let mut cursor = self;
        let mut out: Vec<(u64, usize)> = Vec::new();
        loop
            invariant
                cursor.well_formed(),
                out@ + cursor.remaining() == self.remaining(),
            decreases cursor.remaining().len(),
        {
            let ghost before = cursor.remaining();
            match cursor.next() {
                Some(range) => {
                    proof {
                        assert(before =~= seq![range] + before.skip(1));
                        assert(out@.push(range) + cursor.remaining() =~= out@ + before);
                    }
                    out.push(range);
                },
                None => {
                    proof {
                        assert(out@ + cursor.remaining() =~= out@);
                    }
                    return out;
                },
            }
        }
    }
}

/// Returns a cursor over the ranges in `whole` that exclude the ranges provided by `ranges`.
///
/// This function performs interval subtraction, effectively subtracting the provided `ranges`
/// from the `whole` range. It takes a single continuous memory range `whole` (a start address
/// and a length in bytes) and the sub-ranges to exclude. The returned cursor yields the ranges
/// of `whole` that are not covered by any of the sub-ranges. Sub-ranges that reach outside
/// `whole` are clipped to it.
///
/// The sub-ranges are expected to be ordered by starting address and not to overlap
/// ([`ordered_disjoint`]); [`lemma_difference`] states what the result is for such input.
pub fn subtract_ranges(whole: (u64, usize), ranges: Vec<(u64, usize)>) -> (r: SubtractRanges)
    ensures
        r.well_formed(),
        r.remaining() == difference(whole, ranges@),
{
    let whole_end = whole.0.saturating_add(whole.1 as u64);
    proof {
        assert(ranges@.skip(0) =~= ranges@);
    }
    SubtractRanges {
        whole_start: whole.0,
        whole_end,
        current_pos: whole.0,
        ranges,
        next_range: 0,
    }
}

/// What `gaps` yields lies in `[pos, end)`, is non-empty, ascending and disjoint, and covers
/// exactly the addresses of `[pos, end)` that no range covers.
proof fn lemma_gaps(floor: int, pos: int, end: int, ranges: Seq<(u64, usize)>)
    requires
        ordered_disjoint(ranges),
        0 <= floor <= pos,
        floor <= end <= u64::MAX,
        end - floor <= usize::MAX,
    ensures
        forall|k: int|
            0 <= k < gaps(floor, pos, end, ranges).len() ==> {
                let g = #[trigger] gaps(floor, pos, end, ranges)[k];
                &&& g.1 > 0
                &&& pos <= g.0
                &&& g.0 + g.1 <= end
            },
        forall|k: int, l: int|
            0 <= k < l < gaps(floor, pos, end, ranges).len() ==> (#[trigger] gaps(
                floor,
                pos,
                end,
                ranges,
            )[k]).0 + gaps(floor, pos, end, ranges)[k].1 <= (#[trigger] gaps(
                floor,
                pos,
                end,
                ranges,
            )[l]).0,
        forall|x: int|
            covered(gaps(floor, pos, end, ranges), x) <==> (pos <= x < end && !covered(ranges, x)),
    decreases ranges.len(),
{
    let out = gaps(floor, pos, end, ranges);
    if pos >= end {
        assert forall|x: int| covered(out, x) <==> (pos <= x < end && !covered(ranges, x)) by {}
    } else if ranges.len() == 0 {
        assert forall|x: int| covered(out, x) <==> (pos <= x < end && !covered(ranges, x)) by {
            if pos <= x < end {
                assert(in_range(out[0], x));
            }
        }
    } else {
        let first = ranges[0];
        let rest = ranges.skip(1);
        let sub_start = if first.0 >= floor {
            first.0 as int
        } else {
            floor
        };
        let sub_end = if range_end(first) <= end {
            range_end(first)
        } else {
            end
        };
        assert(ordered_disjoint(rest)) by {
            assert forall|i: int, j: int| 0 <= i < j < rest.len() implies range_end(
                #[trigger] rest[i],
            ) <= (#[trigger] rest[j]).0 by {
                assert(rest[i] == ranges[i + 1]);
                assert(rest[j] == ranges[j + 1]);
            }
        }
        let next_pos = if sub_start >= sub_end || sub_end <= pos {
            pos
        } else {
            sub_end
        };
        lemma_gaps(floor, next_pos, end, rest);
        let tail = gaps(floor, next_pos, end, rest);
        assert forall|x: int| covered(ranges, x) <==> (in_range(first, x) || covered(rest, x)) by {
            if covered(ranges, x) {
                let i = choose|i: int| 0 <= i < ranges.len() && in_range(#[trigger] ranges[i], x);
                if i > 0 {
                    assert(rest[i - 1] == ranges[i]);
                }
            }
            if covered(rest, x) {
                let i = choose|i: int| 0 <= i < rest.len() && in_range(#[trigger] rest[i], x);
                assert(rest[i] == ranges[i + 1]);
            }
            if in_range(first, x) {
                assert(in_range(ranges[0], x));
            }
        }
        if sub_start >= sub_end || sub_end <= pos {
            assert(out == tail);
            assert forall|x: int| covered(out, x) <==> (pos <= x < end && !covered(ranges, x)) by {
                if pos <= x < end && in_range(first, x) {
                    // The first range would then reach into [pos, end).
                    assert(false);
                }
            }
        } else if pos < sub_start {
            let head = (pos as u64, (sub_start - pos) as usize);
            assert(out == seq![head] + tail);
            assert(out[0] == head);
            assert forall|k: int| 1 <= k < out.len() implies out[k] == tail[k - 1] by {}
            assert forall|x: int| covered(out, x) <==> (pos <= x < end && !covered(ranges, x)) by {
                if covered(out, x) {
                    let k = choose|k: int| 0 <= k < out.len() && in_range(#[trigger] out[k], x);
                    if k > 0 {
                        assert(tail[k - 1] == out[k]);
                        assert(covered(tail, x));
                    }
                }
                if pos <= x < end && !covered(ranges, x) {
                    if x < sub_start {
                        assert(in_range(out[0], x));
                    } else {
                        assert(covered(tail, x));
                        let k = choose|k: int| 0 <= k < tail.len() && in_range(#[trigger] tail[k], x);
                        assert(out[k + 1] == tail[k]);
                    }
                }
            }
        } else {
            assert(out == tail);
            assert forall|x: int| covered(out, x) <==> (pos <= x < end && !covered(ranges, x)) by {}
        }
    }
}

/// Range subtraction: for sub-ranges that are ordered by start and do not overlap, the
/// ranges that [`subtract_ranges`] yields are non-empty, ascending and pairwise disjoint, and
/// an address lies in one of them exactly if it lies in `whole` and in none of the sub-ranges.
pub proof fn lemma_difference(whole: (u64, usize), ranges: Seq<(u64, usize)>)
    requires
        ordered_disjoint(ranges),
    ensures
        forall|k: int|
            0 <= k < difference(whole, ranges).len() ==> (#[trigger] difference(
                whole,
                ranges,
            )[k]).1 > 0,
        forall|k: int|
            0 <= k < difference(whole, ranges).len() ==> whole.0 <= (#[trigger] difference(
                whole,
                ranges,
            )[k]).0 && difference(whole, ranges)[k].0 + difference(whole, ranges)[k].1
                <= range_end(whole),
        ordered_disjoint(difference(whole, ranges)),
        forall|x: int|
            covered(difference(whole, ranges), x) <==> (in_range(whole, x) && !covered(ranges, x)),
{
    lemma_gaps(whole.0 as int, whole.0 as int, range_end(whole), ranges);
    let out = difference(whole, ranges);
    assert forall|i: int, j: int| 0 <= i < j < out.len() implies range_end(#[trigger] out[i]) <= (
    #[trigger] out[j]).0 by {}
}

} // verus!
