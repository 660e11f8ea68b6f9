//! Finding lines by their number and by an offset, and the size of an index.

use vstd::prelude::*;

use crate::chunk::INDEX_STRIDE;
use crate::index::{
    index_first, index_ok, indexes, segment_end, segment_ok, segment_views, valid_index, LineIndex,
    SegmentView,
};
use crate::lines::{
    first_line_ok, lemma_line_at, lemma_next_start, lemma_starts_rise, line_at, line_starts,
    lines_of, read_line,
};

verus! {

/// The segments are numbered upwards, and each records the start of its first line.
pub proof fn lemma_segments_rise(segments: Seq<SegmentView>, starts: Seq<int>, j: int, k: int)
    requires
        index_ok(segments, starts),
        0 <= j <= k < segments.len(),
    ensures
        j < k ==> segments[j].base < segments[k].base,
        segments[k].strides.len() > 0,
        segments[k].strides[0] == starts[segments[k].base],
    decreases k - j,
{
    assert(segment_ok(segments, starts, k));
    lemma_stride_at(segments, starts, k, 0);
    if j < k {
        assert(segment_ok(segments, starts, k - 1));
        lemma_segments_rise(segments, starts, j, k - 1);
    }
}

/// The recorded offsets of segment `k`, as line starts.
proof fn lemma_stride_at(segments: Seq<SegmentView>, starts: Seq<int>, k: int, j: int)
    requires
        index_ok(segments, starts),
        0 <= k < segments.len(),
        0 <= j,
        segments[k].base + 8 * j < segment_end(segments, starts.len() as int, k),
    ensures
        j < segments[k].strides.len(),
        segments[k].strides[j] == starts[segments[k].base + 8 * j],
        segment_end(segments, starts.len() as int, k) <= starts.len(),
{
    assert(segment_ok(segments, starts, k));
    let base = segments[k].base;
    let end = segment_end(segments, starts.len() as int, k);
    let run = starts.subrange(base, end);
    assert(run.len() == end - base);
    assert(segments[k].strides[j] == run[8 * j]);
}

impl LineIndex {
    /// The segment that holds line `i`.
    fn segment_of_line(&self, i: u64, Ghost(starts): Ghost<Seq<int>>) -> (out: usize)
        requires
            indexes(*self, starts),
            i < starts.len(),
        ensures
            out < self.segments@.len(),
            self.segments@[out as int].base_line <= i,
            i < segment_end(segment_views(self.segments@), starts.len() as int, out as int),
    {
        let ghost views = segment_views(self.segments@);
        let mut low: usize = 0;
        let mut high: usize = self.segments.len();
        while high - low > 1
            invariant
                views == segment_views(self.segments@),
                index_ok(views, starts),
                low < high <= self.segments@.len(),
                self.segments@[low as int].base_line <= i,
                i < segment_end(views, starts.len() as int, high - 1),
            decreases high - low,
        {
            let mid: usize = low + (high - low) / 2;
            assert(views[mid as int] == self.segments@[mid as int]@);
            if self.segments[mid].base_line <= i {
                low = mid;
            } else {
                high = mid;
            }
        }
        low
    }

    /// Where line `i` of the indexed file starts: from the recorded offset before
    /// it, newline by newline.
    pub fn line_start(&self, data: &[u8], i: u64) -> (out: usize)
        requires
            valid_index(*self, data@),
            i < self.line_count,
        ensures
            out == line_starts(data@, index_first(*self))[i as int],
            out <= data@.len(),
    {
        let ghost first = index_first(*self);
        let ghost starts = line_starts(data@, first);
        let ghost views = segment_views(self.segments@);
        let k: usize = self.segment_of_line(i, Ghost(starts));
        let segment = &self.segments[k];
        let local: u64 = i - segment.base_line;
        let steps: u64 = local % INDEX_STRIDE;
        let len: usize = data.len();
        proof {
            assert(views[k as int] == segment@);
            lemma_stride_at(views, starts, k as int, (local / 8) as int);
            lemma_next_start(data@, first, i - steps);
            assert(segment.strides.len() == segment.strides@.len());
        }
        let entry: usize = (local / INDEX_STRIDE) as usize;
        let mut start: usize = segment.strides[entry] as usize;
        let mut done: u64 = 0;
        while done < steps
            invariant
                done <= steps,
                steps <= i,
                len == data@.len(),
                first_line_ok(data@, first),
                starts == line_starts(data@, first),
                i < starts.len(),
                start == starts[i - steps + done],
                start <= data@.len(),
            decreases steps - done,
        {
            proof {
                lemma_next_start(data@, first, i - steps + done);
            }
            let (_, end) = read_line(data, start);
            start = end + 1;
            done = done + 1;
        }
        proof {
            lemma_next_start(data@, first, i as int);
        }
        start
    }

    /// The segment that holds offset `off`: the last one whose first line starts at
    /// or before it, or the first segment.
    fn segment_of_offset(&self, data: &[u8], off: u64) -> (out: usize)
        requires
            valid_index(*self, data@),
            self.line_count > 0,
        ensures
            out < self.segments@.len(),
            ({
                let starts = line_starts(data@, index_first(*self));
                let views = segment_views(self.segments@);
                &&& out == 0 || starts[views[out as int].base] <= off
                &&& forall|j: int|
                    segment_end(views, starts.len() as int, out as int) <= j < starts.len() ==> off
                        < #[trigger] starts[j]
            }),
    {
        let ghost first = index_first(*self);
        let ghost starts = line_starts(data@, first);
        let ghost views = segment_views(self.segments@);
        let mut low: usize = 0;
        let mut high: usize = self.segments.len();
        while high - low > 1
            invariant
                views == segment_views(self.segments@),
                starts == line_starts(data@, first),
                first_line_ok(data@, first),
                index_ok(views, starts),
                low < high <= self.segments@.len(),
                low == 0 || starts[views[low as int].base] <= off,
                forall|j: int|
                    segment_end(views, starts.len() as int, high - 1) <= j < starts.len() ==> off
                        < #[trigger] starts[j],
            decreases high - low,
        {
            let mid: usize = low + (high - low) / 2;
            proof {
                assert(views[mid as int] == self.segments@[mid as int]@);
                assert(segment_ok(views, starts, mid as int));
                lemma_stride_at(views, starts, mid as int, 0);
            }
            if self.segments[mid].strides[0] <= off {
                low = mid;
            } else {
                proof {
                    let base = views[mid as int].base;
                    assert forall|j: int| base <= j < starts.len() implies off
                        < #[trigger] starts[j] by {
                        if base < j {
                            lemma_starts_rise(data@, first, base, j);
                        }
                    }
                }
                high = mid;
            }
        }
        low
    }

    /// The number of the line that holds the byte at offset `off`.
    pub fn line_of_offset(&self, data: &[u8], off: u64) -> (out: u64)
        requires
            valid_index(*self, data@),
            self.line_count > 0,
        ensures
            out == line_at(line_starts(data@, index_first(*self)), off as int),
            out < self.line_count,
    {
        let ghost first = index_first(*self);
        let ghost starts = line_starts(data@, first);
        let ghost views = segment_views(self.segments@);
        let len: usize = data.len();
        let k: usize = self.segment_of_offset(data, off);
        let segment = &self.segments[k];
        let ghost base = segment.base_line as int;
        let ghost end = segment_end(views, starts.len() as int, k as int);
        proof {
            assert(views[k as int] == segment@);
            assert(segment_ok(views, starts, k as int));
        }
        let mut low: usize = 0;
        let mut high: usize = segment.strides.len();
        while high - low > 1
            invariant
                views == segment_views(self.segments@),
                views[k as int] == segment@,
                base == segment.base_line,
                starts == line_starts(data@, first),
                first_line_ok(data@, first),
                index_ok(views, starts),
                k < views.len(),
                end == segment_end(views, starts.len() as int, k as int),
                segment_ok(views, starts, k as int),
                low < high <= segment.strides@.len(),
                low == 0 || starts[base + 8 * low] <= off,
                forall|j: int|
                    base + 8 * high <= j < end ==> off < #[trigger] starts[j],
            decreases high - low,
        {
            let mid: usize = low + (high - low) / 2;
            proof {
                lemma_stride_at(views, starts, k as int, mid as int);
            }
            if segment.strides[mid] <= off {
                low = mid;
            } else {
                proof {
                    let at = base + 8 * mid;
                    assert forall|j: int| at <= j < end implies off < #[trigger] starts[j] by {
                        if at < j {
                            lemma_starts_rise(data@, first, at, j);
                        }
                    }
                }
                high = mid;
            }
        }
        proof {
            lemma_stride_at(views, starts, k as int, low as int);
            lemma_next_start(data@, first, base + 8 * low);
        }
        let mut line: u64 = segment.base_line + low as u64 * INDEX_STRIDE;
        let mut p: usize = segment.strides[low] as usize;
        while line + 1 < self.line_count
            invariant_except_break
                line < self.line_count,
            invariant
                self.line_count == starts.len(),
                starts == line_starts(data@, first),
                first_line_ok(data@, first),
                len == data@.len(),
                line < starts.len(),
                p == starts[line as int],
                p <= len,
                line == 0 || starts[line as int] <= off,
            ensures
                line + 1 < starts.len() ==> off < starts[line + 1],
            decreases self.line_count - line,
        {
            proof {
                lemma_next_start(data@, first, line as int);
                lemma_next_start(data@, first, line + 1);
            }
            let (_, at) = read_line(data, p);
            if (at as u64) < off {
                p = at + 1;
                line = line + 1;
            } else {
                break;
            }
        }
        proof {
            assert forall|j: int| line < j < starts.len() implies off < #[trigger] starts[j] by {
                if line + 1 < j {
                    lemma_starts_rise(data@, first, line + 1, j);
                }
            }
            lemma_line_at(starts, off as int, line as int);
        }
        line
    }

    /// The bytes of line `i` of the indexed file, without its line end.
    pub fn line<'a>(&self, data: &'a [u8], i: u64) -> (out: &'a [u8])
        requires
            valid_index(*self, data@),
        ensures
            i < self.line_count ==> out@ == lines_of(data@, index_first(*self))[i as int],
            i >= self.line_count ==> out@ == Seq::<u8>::empty(),
    {
        if i >= self.line_count {
            &data[0..0]
        } else {
            let start: usize = self.line_start(data, i);
            let (line, _) = read_line(data, start);
            line
        }
    }

    /// The bytes that the recorded offsets take, eight each.
    pub fn resident_bytes(&self) -> (out: usize)
        ensures
            out == resident(segment_views(self.segments@)) || (out == usize::MAX && resident(
                segment_views(self.segments@),
            ) > usize::MAX),
    {
        let ghost views = segment_views(self.segments@);
        let mut sum: usize = 0;
        let mut k: usize = 0;
        while k < self.segments.len()
            invariant
                views == segment_views(self.segments@),
                k <= views.len(),
                sum == resident(views.take(k as int)) || (sum == usize::MAX && resident(
                    views.take(k as int),
                ) > usize::MAX),
            decreases views.len() - k,
        {
            let segment = &self.segments[k];
            let bytes: usize = match segment.strides.len().checked_mul(8) {
                Some(b) => b,
                None => usize::MAX,
            };
            proof {
                assert(views.take(k + 1).drop_last() =~= views.take(k as int));
                assert(views[k as int] == segment@);
            }
            sum = sum.saturating_add(bytes);
            k = k + 1;
        }
        assert(views.take(k as int) =~= views);
        sum
    }
}

/// The bytes that the recorded offsets take, eight each.
pub open spec fn resident(segments: Seq<SegmentView>) -> int
    decreases segments.len(),
{
    if segments.len() == 0 {
        0
    } else {
        resident(segments.drop_last()) + 8 * segments.last().strides.len()
    }
}

/// The index of a file that was scanned as a whole takes eight bytes for every eight
/// lines.
pub proof fn lemma_resident_of_one_segment(segments: Seq<SegmentView>, starts: Seq<int>)
    requires
        index_ok(segments, starts),
        segments.len() <= 1,
    ensures
        resident(segments) == 8 * ((starts.len() + 7) / 8),
{
    if segments.len() == 1 {
        assert(segment_ok(segments, starts, 0));
        assert(starts.subrange(0, starts.len() as int) =~= starts);
        assert(segments.drop_last() =~= Seq::empty());
        assert(resident(segments.drop_last()) == 0);
    }
}

/// The bytes of segments add up, eight for each offset that one records.
pub proof fn lemma_resident_adds_up(segments: Seq<SegmentView>, segment: SegmentView)
    ensures
        resident(Seq::empty()) == 0,
        resident(segments.push(segment)) == resident(segments) + 8 * segment.strides.len(),
{
    assert(segments.push(segment).drop_last() =~= segments);
}

/// The index takes at most a byte for each line, and seven more for each segment.
pub proof fn lemma_resident_bound(segments: Seq<SegmentView>, starts: Seq<int>)
    requires
        index_ok(segments, starts),
    ensures
        resident(segments) <= starts.len() + 7 * segments.len(),
{
    lemma_resident_prefix(segments, starts, segments.len() as int);
    assert(segments.take(segments.len() as int) =~= segments);
}

proof fn lemma_resident_prefix(segments: Seq<SegmentView>, starts: Seq<int>, k: int)
    requires
        index_ok(segments, starts),
        0 <= k <= segments.len(),
    ensures
        resident(segments.take(k)) <= if k < segments.len() {
            segments[k].base + 7 * k
        } else {
            starts.len() + 7 * k
        },
    decreases k,
{
    if k > 0 {
        lemma_resident_prefix(segments, starts, k - 1);
        assert(segments.take(k).drop_last() =~= segments.take(k - 1));
        assert(segment_ok(segments, starts, k - 1));
        let base = segments[k - 1].base;
        let end = segment_end(segments, starts.len() as int, k - 1);
        assert(starts.subrange(base, end).len() == end - base);
    }
}

} // verus!
