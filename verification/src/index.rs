//! The strided line index: one recorded offset for every `INDEX_STRIDE` lines, in segments.

use vstd::prelude::*;

use crate::chunk::{
    chunk_bounds, chunked_text_start, index_threads, is_partition, is_scan_of, part_starts,
    scan_chunk, starts_with_bom, strided, ChunkScan, MAX_INDEX_THREADS, PARALLEL_MIN_BYTES,
};
use crate::hooks::{IndexError, IndexHooks};
use crate::lines::{
    breaks, first_line_ok, lemma_breaks_shift, lemma_breaks_split, lemma_file_breaks_len,
    line_starts, text_start,
};

verus! {

/// A run of consecutive lines and the recorded offsets of their starts.
#[derive(Debug, Clone)]
pub struct Segment {
    /// The number of the first line of the run.
    pub base_line: u64,
    /// Every `INDEX_STRIDE`-th line start of the run, as an offset in the file.
    pub strides: Vec<u64>,
}

/// The contents of a segment.
pub struct SegmentView {
    pub base: int,
    pub strides: Seq<u64>,
}

impl View for Segment {
    type V = SegmentView;

    open spec fn view(&self) -> SegmentView {
        SegmentView { base: self.base_line as int, strides: self.strides@ }
    }
}

/// The contents of a list of segments.
pub open spec fn segment_views(segments: Seq<Segment>) -> Seq<SegmentView> {
    segments.map_values(|s: Segment| s@)
}

/// The number of the line behind the last of segment `k`, of `count` lines in all.
pub open spec fn segment_end(segments: Seq<SegmentView>, count: int, k: int) -> int {
    if k + 1 < segments.len() {
        segments[k + 1].base
    } else {
        count
    }
}

/// Segment `k` holds at least one line and records the starts of its lines.
pub open spec fn segment_ok(segments: Seq<SegmentView>, starts: Seq<int>, k: int) -> bool {
    let base = segments[k].base;
    let end = segment_end(segments, starts.len() as int, k);
    &&& 0 <= base < end <= starts.len()
    &&& strided(segments[k].strides, starts.subrange(base, end))
}

/// The segments record the line starts `starts`: they follow each other without a
/// gap from line 0 to the last line, and none is empty.
pub open spec fn index_ok(segments: Seq<SegmentView>, starts: Seq<int>) -> bool {
    &&& segments.len() == 0 <==> starts.len() == 0
    &&& segments.len() > 0 ==> segments[0].base == 0
    &&& forall|k: int| 0 <= k < segments.len() ==> #[trigger] segment_ok(segments, starts, k)
}

/// The sum of the line counts of some scans.
pub open spec fn total_count(scans: Seq<ChunkScan>) -> int
    decreases scans.len(),
{
    if scans.len() == 0 {
        0
    } else {
        total_count(scans.drop_last()) + scans.last().count
    }
}

/// The sum of the bytes that some scans reported.
pub open spec fn total_reported(scans: Seq<ChunkScan>) -> int
    decreases scans.len(),
{
    if scans.len() == 0 {
        0
    } else {
        total_reported(scans.drop_last()) + scans.last().reported
    }
}

/// One segment for each scan that found a line, numbered in turn.
pub open spec fn merged(scans: Seq<ChunkScan>) -> Seq<SegmentView>
    decreases scans.len(),
{
    if scans.len() == 0 {
        Seq::empty()
    } else {
        let init = merged(scans.drop_last());
        if scans.last().count == 0 {
            init
        } else {
            init.push(
                SegmentView {
                    base: total_count(scans.drop_last()),
                    strides: scans.last().strides@,
                },
            )
        }
    }
}

/// Joins the scans of consecutive chunks, in their order, to the segments of an
/// index. A chunk in which no line starts gives no segment.
fn merge_scans(scans: Vec<ChunkScan>) -> (out: (Vec<Segment>, u64))
    requires
        total_count(scans@) <= u64::MAX,
    ensures
        segment_views(out.0@) == merged(scans@),
        out.1 == total_count(scans@),
{
    let ghost all = scans@;
    let mut segments: Vec<Segment> = Vec::new();
    let mut total: u64 = 0;
    assert(segment_views(segments@) =~= merged(all.take(0)));
    for scan in it: scans
        invariant
            all == it.seq(),
            total_count(all) <= u64::MAX,
            total == total_count(all.take(it.index() as int)),
            segment_views(segments@) == merged(all.take(it.index() as int)),
    {
        let ghost k = it.index() as int;
        proof {
            assert(all.take(k + 1).drop_last() =~= all.take(k));
            assert(scan == all[k]);
            lemma_total_count_prefix(all, k + 1);
        }
        if scan.count > 0 {
            let ghost before = segments@;
            segments.push(Segment { base_line: total, strides: scan.strides });
            proof {
                assert(segment_views(segments@) =~= segment_views(before).push(
                    segments@.last()@,
                ));
            }
            total = total + scan.count;
        }
    }
    assert(all.take(all.len() as int) =~= all);
    (segments, total)
}

proof fn lemma_total_count_prefix(scans: Seq<ChunkScan>, k: int)
    requires
        0 <= k <= scans.len(),
    ensures
        0 <= total_count(scans.take(k)) <= total_count(scans),
    decreases scans.len(),
{
    if k == scans.len() {
        assert(scans.take(k) =~= scans);
        if k > 0 {
            lemma_total_count_prefix(scans.drop_last(), k - 1);
        }
    } else {
        assert(scans.drop_last().take(k) =~= scans.take(k));
        lemma_total_count_prefix(scans.drop_last(), k);
    }
}

/// A complete line index of a file.
#[derive(Debug, Clone)]
pub struct LineIndex {
    /// The recorded line starts.
    pub segments: Vec<Segment>,
    /// The number of lines.
    pub line_count: u64,
    /// The bytes reported as progress while it was built.
    pub reported: u64,
}

/// `segments` and `count` index lines that start at `starts`.
pub open spec fn indexes(index: LineIndex, starts: Seq<int>) -> bool {
    &&& index_ok(segment_views(index.segments@), starts)
    &&& index.line_count == starts.len()
}

proof fn lemma_index_push(
    segments: Seq<SegmentView>,
    starts: Seq<int>,
    more: Seq<int>,
    strides: Seq<u64>,
)
    requires
        index_ok(segments, starts),
        strided(strides, more),
        more.len() > 0,
    ensures
        index_ok(
            segments.push(SegmentView { base: starts.len() as int, strides }),
            starts + more,
        ),
{
    let segs = segments.push(SegmentView { base: starts.len() as int, strides });
    let all = starts + more;
    assert forall|k: int| 0 <= k < segs.len() implies #[trigger] segment_ok(segs, all, k) by {
        if k < segments.len() {
            assert(segment_ok(segments, starts, k));
            let base = segments[k].base;
            let end = segment_end(segments, starts.len() as int, k);
            assert(segment_end(segs, all.len() as int, k) == end);
            assert(all.subrange(base, end) =~= starts.subrange(base, end));
        } else {
            assert(all.subrange(starts.len() as int, all.len() as int) =~= more);
        }
    }
    if segments.len() > 0 {
        assert(segs[0] == segments[0]);
    }
}

/// The segments of scans that cover the file up to `bounds[k]` record the line
/// starts up to there.
proof fn lemma_merged_prefix(
    data: Seq<u8>,
    bounds: Seq<(usize, usize)>,
    scans: Seq<ChunkScan>,
    k: int,
)
    requires
        data.len() > 0,
        is_partition(bounds, data.len() as int),
        scans.len() == bounds.len(),
        forall|i: int|
            0 <= i < scans.len() ==> is_scan_of(data, bounds, i, #[trigger] scans[i])
                && scans[i].complete,
        1 <= k <= scans.len(),
    ensures
        ({
            let starts = seq![chunked_text_start(data, bounds)] + breaks(
                data,
                0,
                data.len() as int,
                0,
                bounds[k - 1].1 as int,
            );
            &&& index_ok(merged(scans.take(k)), starts)
            &&& total_count(scans.take(k)) == starts.len()
            &&& total_reported(scans.take(k)) == bounds[k - 1].1
        }),
    decreases k,
{
    let n = data.len() as int;
    let (start, end) = bounds[k - 1];
    let part = data.subrange(start as int, end as int);
    let scan = scans[k - 1];
    assert(is_scan_of(data, bounds, k - 1, scan));
    lemma_breaks_shift(data, 0, n, start as int, end as int, 0, end - start);
    assert(scans.take(k).drop_last() =~= scans.take(k - 1));
    let before = scans.take(k - 1);
    assert(total_reported(scans.take(k)) == total_reported(before) + scan.reported);
    if k == 1 {
        let starts = seq![chunked_text_start(data, bounds)] + breaks(data, 0, n, 0, end as int);
        assert(part_starts(data, bounds, 0) =~= starts);
        assert(merged(before) =~= Seq::empty());
        lemma_index_push(merged(before), Seq::empty(), starts, scan.strides@);
        assert(Seq::<int>::empty() + starts =~= starts);
    } else {
        lemma_merged_prefix(data, bounds, scans, k - 1);
        let starts = seq![chunked_text_start(data, bounds)] + breaks(data, 0, n, 0, start as int);
        assert(bounds[k - 2].1 == start);
        let more = breaks(data, 0, n, start as int, end as int);
        assert(part_starts(data, bounds, k - 1) =~= more);
        lemma_breaks_split(data, 0, n, 0, start as int, end as int);
        assert(starts + more =~= seq![chunked_text_start(data, bounds)] + breaks(
            data,
            0,
            n,
            0,
            end as int,
        ));
        if more.len() > 0 {
            lemma_index_push(merged(before), starts, more, scan.strides@);
        } else {
            assert(starts + more =~= starts);
        }
    }
}

proof fn lemma_merged_len(scans: Seq<ChunkScan>)
    ensures
        merged(scans).len() <= scans.len(),
    decreases scans.len(),
{
    if scans.len() > 0 {
        lemma_merged_len(scans.drop_last());
    }
}

/// The segments with the first line start set to `first`.
pub open spec fn with_first(segments: Seq<SegmentView>, first: int) -> Seq<SegmentView> {
    if segments.len() == 0 {
        segments
    } else {
        segments.update(
            0,
            SegmentView {
                base: segments[0].base,
                strides: segments[0].strides.update(0, first as u64),
            },
        )
    }
}

/// Segments record their line starts with another first one when their own first one is
/// set to it.
pub(crate) proof fn lemma_with_first(segments: Seq<SegmentView>, starts: Seq<int>, first: u64)
    requires
        index_ok(segments, starts),
        starts.len() > 0,
    ensures
        index_ok(with_first(segments, first as int), starts.update(0, first as int)),
        segments[0].strides.len() > 0,
{
    let now = with_first(segments, first as int);
    let all = starts.update(0, first as int);
    assert(segment_ok(segments, starts, 0));
    assert forall|k: int| 0 <= k < now.len() implies #[trigger] segment_ok(now, all, k) by {
        assert(segment_ok(segments, starts, k));
        let base = segments[k].base;
        let end = segment_end(segments, starts.len() as int, k);
        assert(segment_end(now, all.len() as int, k) == end);
        let run = starts.subrange(base, end);
        let run_now = all.subrange(base, end);
        if k > 0 {
            lemma_segments_follow(segments, starts, k);
            assert(run_now =~= run);
        } else {
            assert(run_now =~= run.update(0, first as int));
        }
        assert forall|j: int| 0 <= j < now[k].strides.len() implies #[trigger] now[k].strides[j]
            == run_now[8 * j] by {
            assert(segments[k].strides[j] == run[8 * j]);
        }
    }
}

/// Every segment but the first begins behind line 0.
proof fn lemma_segments_follow(segments: Seq<SegmentView>, starts: Seq<int>, k: int)
    requires
        index_ok(segments, starts),
        0 < k < segments.len(),
    ensures
        segments[k].base > 0,
{
    assert(segment_ok(segments, starts, k - 1));
}

/// Sets the first line start that some segments record.
pub(crate) fn set_first(segments: &mut Vec<Segment>, first: u64, Ghost(starts): Ghost<Seq<int>>)
    requires
        index_ok(segment_views(old(segments)@), starts),
        starts.len() > 0,
    ensures
        segment_views(final(segments)@) == with_first(segment_views(old(segments)@), first as int),
        index_ok(segment_views(final(segments)@), starts.update(0, first as int)),
{
    let ghost before = segment_views(segments@);
    proof {
        lemma_with_first(before, starts, first);
        assert(before[0] == segments@[0]@);
    }
    segments[0].strides[0] = first;
    assert(segment_views(segments@) =~= with_first(before, first as int));
}

/// Indexing a file in chunks, however it is cut, finds the lines that indexing it as a
/// whole finds: the segments of the complete scans of all chunks record them, once the
/// first line starts where the text does.
pub proof fn lemma_chunks_find_the_same_lines(
    data: Seq<u8>,
    bounds: Seq<(usize, usize)>,
    scans: Seq<ChunkScan>,
)
    requires
        is_partition(bounds, data.len() as int),
        scans.len() == bounds.len(),
        forall|i: int|
            0 <= i < scans.len() ==> is_scan_of(data, bounds, i, #[trigger] scans[i])
                && scans[i].complete,
    ensures
        index_ok(
            with_first(merged(scans), text_start(data)),
            line_starts(data, text_start(data)),
        ),
        total_count(scans) == line_starts(data, text_start(data)).len(),
        total_reported(scans) == data.len(),
{
    lemma_merged_indexes(data, bounds, scans);
    if data.len() > 0 {
        let starts = line_starts(data, chunked_text_start(data, bounds));
        lemma_with_first(merged(scans), starts, text_start(data) as u64);
        assert(starts.update(0, text_start(data)) =~= line_starts(data, text_start(data)));
    }
}

/// The segments of the complete scans of all chunks index the whole file, but for the
/// first line start, which the first chunk alone decides.
proof fn lemma_merged_indexes(
    data: Seq<u8>,
    bounds: Seq<(usize, usize)>,
    scans: Seq<ChunkScan>,
)
    requires
        is_partition(bounds, data.len() as int),
        scans.len() == bounds.len(),
        forall|i: int|
            0 <= i < scans.len() ==> is_scan_of(data, bounds, i, #[trigger] scans[i])
                && scans[i].complete,
    ensures
        index_ok(merged(scans), line_starts(data, chunked_text_start(data, bounds))),
        total_count(scans) == line_starts(data, chunked_text_start(data, bounds)).len(),
        total_reported(scans) == data.len(),
        merged(scans).len() <= scans.len(),
{
    lemma_merged_len(scans);
    if data.len() > 0 {
        lemma_merged_prefix(data, bounds, scans, scans.len() as int);
        assert(scans.take(scans.len() as int) =~= scans);
    }
}

/// The bytes that the scans of all chunks report are those of the file exactly where
/// every scan is complete; they are fewer where one was cancelled.
pub proof fn lemma_reported_tells_completion(
    data: Seq<u8>,
    bounds: Seq<(usize, usize)>,
    scans: Seq<ChunkScan>,
)
    requires
        is_partition(bounds, data.len() as int),
        scans.len() == bounds.len(),
        forall|i: int|
            0 <= i < scans.len() ==> is_scan_of(data, bounds, i, #[trigger] scans[i]),
    ensures
        total_reported(scans) <= data.len(),
        total_reported(scans) == data.len() <==> forall|i: int|
            0 <= i < scans.len() ==> (#[trigger] scans[i]).complete,
{
    if scans.len() > 0 {
        lemma_reported_prefix(data, bounds, scans, scans.len() as int);
        assert(scans.take(scans.len() as int) =~= scans);
    }
}

proof fn lemma_reported_prefix(
    data: Seq<u8>,
    bounds: Seq<(usize, usize)>,
    scans: Seq<ChunkScan>,
    k: int,
)
    requires
        is_partition(bounds, data.len() as int),
        scans.len() == bounds.len(),
        forall|i: int|
            0 <= i < scans.len() ==> is_scan_of(data, bounds, i, #[trigger] scans[i]),
        1 <= k <= scans.len(),
    ensures
        total_reported(scans.take(k)) <= bounds[k - 1].1,
        total_reported(scans.take(k)) == bounds[k - 1].1 <==> forall|i: int|
            0 <= i < k ==> (#[trigger] scans[i]).complete,
    decreases k,
{
    let scan = scans[k - 1];
    assert(is_scan_of(data, bounds, k - 1, scan));
    assert(scans.take(k).drop_last() =~= scans.take(k - 1));
    assert(total_reported(scans.take(k)) == total_reported(scans.take(k - 1)) + scan.reported);
    if k > 1 {
        lemma_reported_prefix(data, bounds, scans, k - 1);
        assert(bounds[k - 2].1 == bounds[k - 1].0);
        if forall|i: int| 0 <= i < k - 1 ==> (#[trigger] scans[i]).complete {
            assert(scan.complete ==> forall|i: int| 0 <= i < k ==> (#[trigger] scans[i]).complete);
        }
    } else {
        assert(total_reported(scans.take(0)) == 0);
    }
}

/// Joins the scans of all chunks of a file to its index. An index is given only
/// where every scan is complete; the first line starts behind the byte order mark,
/// however short the first chunk is.
pub fn assemble(
    data: &[u8],
    bounds: &[(usize, usize)],
    scans: Vec<ChunkScan>,
) -> (out: Result<LineIndex, IndexError>)
    requires
        is_partition(bounds@, data@.len() as int),
        scans@.len() == bounds@.len(),
        forall|i: int|
            0 <= i < scans@.len() ==> is_scan_of(data@, bounds@, i, #[trigger] scans@[i]),
    ensures
        out is Ok <==> forall|i: int| 0 <= i < scans@.len() ==> (#[trigger] scans@[i]).complete,
        out matches Ok(index) ==> {
            &&& indexes(index, line_starts(data@, text_start(data@)))
            &&& index.reported == data@.len()
            &&& index.reported == total_reported(scans@)
            &&& index.segments@.len() <= bounds@.len()
        },
        out matches Err(IndexError::Cancelled { reported }) ==> reported == total_reported(scans@)
            && reported < data@.len(),
{
    let len: usize = data.len();
    let mut complete = true;
    let mut reported: u64 = 0;
    let mut k: usize = 0;
    while k < scans.len()
        invariant
            k <= scans@.len(),
            len == data@.len(),
            is_partition(bounds@, data@.len() as int),
            scans@.len() == bounds@.len(),
            forall|i: int|
                0 <= i < scans@.len() ==> is_scan_of(data@, bounds@, i, #[trigger] scans@[i]),
            complete <==> forall|i: int| 0 <= i < k ==> (#[trigger] scans@[i]).complete,
            reported == total_reported(scans@.take(k as int)),
            reported <= len,
        decreases scans@.len() - k,
    {
        proof {
            assert(scans@.take(k + 1).drop_last() =~= scans@.take(k as int));
            lemma_reported_prefix(data@, bounds@, scans@, k + 1);
        }
        if !scans[k].complete {
            complete = false;
        }
        reported = reported + scans[k].reported;
        k = k + 1;
    }
    proof {
        assert(scans@.take(k as int) =~= scans@);
        lemma_reported_tells_completion(data@, bounds@, scans@);
    }
    if !complete {
        return Err(IndexError::Cancelled { reported });
    }
    let ghost starts = line_starts(data@, chunked_text_start(data@, bounds@));
    proof {
        lemma_merged_indexes(data@, bounds@, scans@);
        if data@.len() > 0 {
            lemma_file_breaks_len(data@);
        }
    }
    let (segments, line_count) = merge_scans(scans);
    let mut segments = segments;
    if len > 0 {
        let first: u64 = if starts_with_bom(data) {
            3
        } else {
            0
        };
        set_first(&mut segments, first, Ghost(starts));
        assert(starts.update(0, first as int) =~= line_starts(data@, text_start(data@)));
    }
    Ok(LineIndex { segments, line_count, reported })
}

/// Indexes a file in at most `threads` chunks. Each chunk is scanned by itself, so
/// the scans may as well run side by side and meet in [`assemble`]. The index is given
/// where the cancel flag was found lowered at the end of every chunk; where it was found
/// raised, less was reported than the file holds.
pub fn build_index_parallel(
    data: &[u8],
    threads: usize,
    hooks: &IndexHooks,
) -> (out: Result<LineIndex, IndexError>)
    requires
        threads > 0,
    ensures
        hooks.cancel is None ==> out is Ok,
        out is Ok ==> hooks.reads_cancelled(false),
        out matches Ok(index) ==> {
            &&& indexes(index, line_starts(data@, text_start(data@)))
            &&& index.reported == data@.len()
            &&& hooks.reports(index.reported as int)
            &&& index.segments@.len() <= threads
        },
        out matches Err(error) ==> hooks.stopped_by(error, data@.len() as int),
{
    if data.len() == 0 && hooks.is_cancelled() {
        proof {
            hooks.lemma_reports_nothing();
        }
        return Err(IndexError::Cancelled { reported: 0 });
    }
    let bounds: Vec<(usize, usize)> = chunk_bounds(data.len(), threads);
    let mut scans: Vec<ChunkScan> = Vec::new();
    let mut k: usize = 0;
    proof {
        hooks.lemma_reports_nothing();
    }
    while k < bounds.len()
        invariant
            k <= bounds@.len(),
            k == scans@.len(),
            is_partition(bounds@, data@.len() as int),
            forall|i: int|
                0 <= i < scans@.len() ==> is_scan_of(data@, bounds@, i, #[trigger] scans@[i]),
            forall|i: int|
                0 <= i < scans@.len() ==> hooks.reads_cancelled(!(#[trigger] scans@[i]).complete),
            hooks.reports(total_reported(scans@)),
        decreases bounds@.len() - k,
    {
        let start: usize = bounds[k].0;
        let end: usize = bounds[k].1;
        let scan = scan_chunk(
            &data[start..end],
            start as u64,
            k == 0,
            data.len() as u64,
            hooks,
        );
        let ghost before = scans@;
        scans.push(scan);
        proof {
            assert(scans@.drop_last() =~= before);
            hooks.lemma_reports_both(total_reported(before), scan.reported as int);
        }
        k = k + 1;
    }
    let ghost all = scans@;
    let out = assemble(data, bounds.as_slice(), scans);
    proof {
        if out is Ok && all.len() > 0 {
            assert(all[0].complete);
        }
        if out is Err {
            assert(exists|i: int| 0 <= i < all.len() && !(#[trigger] all[i]).complete);
        }
    }
    out
}

/// Indexes a file, in one chunk where it is small. The first line starts behind
/// the byte order mark.
pub fn build_line_index_with(
    data: &[u8],
    available: usize,
    hooks: &IndexHooks,
) -> (out: Result<LineIndex, IndexError>)
    ensures
        hooks.cancel is None ==> out is Ok,
        out is Ok ==> hooks.reads_cancelled(false),
        out matches Ok(index) ==> {
            &&& indexes(index, line_starts(data@, text_start(data@)))
            &&& index.reported == data@.len()
            &&& hooks.reports(index.reported as int)
            &&& index.segments@.len() <= if data@.len() < PARALLEL_MIN_BYTES || available <= 1 {
                1
            } else {
                MAX_INDEX_THREADS as int
            }
        },
        out matches Err(error) ==> hooks.stopped_by(error, data@.len() as int),
{
    let threads: usize = index_threads(data.len(), available);
    build_index_parallel(data, threads, hooks)
}

/// Where the first line of an indexed file starts.
pub open spec fn index_first(index: LineIndex) -> int {
    if index.segments@.len() == 0 {
        0
    } else {
        index.segments@[0].strides@[0] as int
    }
}

/// `index` indexes the lines of `data`, whose first line starts at its first byte
/// or behind its byte order mark.
pub open spec fn valid_index(index: LineIndex, data: Seq<u8>) -> bool {
    &&& first_line_ok(data, index_first(index))
    &&& indexes(index, line_starts(data, index_first(index)))
}

/// An index of the lines of `data` from `first` on is valid, and its first line
/// starts there.
pub(crate) proof fn lemma_indexes_valid(index: LineIndex, data: Seq<u8>, first: int)
    requires
        first_line_ok(data, first),
        indexes(index, line_starts(data, first)),
    ensures
        valid_index(index, data),
        data.len() > 0 ==> index_first(index) == first,
{
    let views = segment_views(index.segments@);
    if data.len() > 0 {
        let starts = line_starts(data, first);
        assert(segment_ok(views, starts, 0));
        assert(views[0] == index.segments@[0]@);
        let end = segment_end(views, starts.len() as int, 0);
        assert(views[0].strides[0] == starts.subrange(0, end)[0]);
    }
}

} // verus!
