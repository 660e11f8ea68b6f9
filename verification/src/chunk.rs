//! Scanning a file for line starts, in one chunk or in several.

use vstd::prelude::*;

use crate::bytes::NEWLINE;
use crate::hooks::IndexHooks;
use crate::lines::{
    breaks, has_bom, lemma_breaks_none, lemma_breaks_split, text_start,
};

verus! {

/// Lines per recorded offset.
pub const INDEX_STRIDE: u64 = 8;

/// Bytes between two checkpoints of a scan.
pub const PROGRESS_CHECK_STRIDE: u64 = 8388608;

/// `strides` records every `INDEX_STRIDE`-th of `starts`, from the first on.
pub open spec fn strided(strides: Seq<u64>, starts: Seq<int>) -> bool {
    &&& strides.len() == (starts.len() + 7) / 8
    &&& forall|j: int| 0 <= j < strides.len() ==> #[trigger] strides[j] == starts[8 * j]
}

/// What a scan of one chunk of a file found.
#[derive(Debug, Clone)]
pub struct ChunkScan {
    /// Every `INDEX_STRIDE`-th line start of the chunk, as an offset in the file.
    pub strides: Vec<u64>,
    /// The number of lines that start in the chunk.
    pub count: u64,
    /// The bytes reported as progress.
    pub reported: u64,
    /// Whether the scan reached the end of the chunk and was not cancelled.
    pub complete: bool,
}

/// The line starts that the first `to` bytes of a chunk own: those that its
/// newlines open and, in the chunk that begins the file, the start of the text.
pub open spec fn chunk_starts(
    chunk: Seq<u8>,
    base: int,
    is_first: bool,
    total: int,
    to: int,
) -> Seq<int> {
    let head = if is_first && chunk.len() > 0 {
        seq![text_start(chunk)]
    } else {
        Seq::empty()
    };
    head + breaks(chunk, base, total, 0, to)
}

/// A scan reports its progress and looks at the cancel flag at `p` if it has not done so
/// before: at a newline that opens a line, far enough in the chunk.
pub open spec fn is_checkpoint(chunk: Seq<u8>, base: int, total: int, p: int) -> bool {
    &&& PROGRESS_CHECK_STRIDE <= p < chunk.len()
    &&& chunk[p] == NEWLINE
    &&& base + p + 1 != total
}

/// A scan that reported `reported` bytes and looked at `to` of them stopped where it first
/// looked at the cancel flag: at its first checkpoint, or at the end of a chunk without
/// one.
pub open spec fn stops_at_once(
    chunk: Seq<u8>,
    base: int,
    total: int,
    reported: int,
    to: int,
) -> bool {
    &&& forall|p: int| 0 <= p < to - 1 ==> !#[trigger] is_checkpoint(chunk, base, total, p)
    &&& if is_checkpoint(chunk, base, total, to - 1) {
        reported == to - 1
    } else {
        reported == 0 && to == chunk.len()
    }
}

pub(crate) proof fn lemma_strided_push(strides: Seq<u64>, starts: Seq<int>, start: u64)
    requires
        strided(strides, starts),
    ensures
        starts.len() % 8 == 0 ==> strided(strides.push(start), starts.push(start as int)),
        starts.len() % 8 != 0 ==> strided(strides, starts.push(start as int)),
{
    if starts.len() % 8 == 0 {
        let s = strides.push(start);
        let t = starts.push(start as int);
        assert forall|j: int| 0 <= j < s.len() implies #[trigger] s[j] == t[8 * j] by {
            if j < strides.len() {
                assert(strides[j] == starts[8 * j]);
            }
        }
    } else {
        let t = starts.push(start as int);
        assert forall|j: int| 0 <= j < strides.len() implies #[trigger] strides[j] == t[8 * j] by {
            assert(strides[j] == starts[8 * j]);
        }
    }
}

/// Drops the spare capacity of a vector (`Vec::shrink_to_fit`); what it holds
/// stays as it is.
#[verifier::external_body]
fn shrink_to_fit(offsets: &mut Vec<u64>)
    ensures
        final(offsets)@ == old(offsets)@,
{
    offsets.shrink_to_fit()
}

pub(crate) fn starts_with_bom(data: &[u8]) -> (out: bool)
    ensures
        out == has_bom(data@),
{
    data.len() >= 3 && data[0] == 0xEF && data[1] == 0xBB && data[2] == 0xBF
}

/// Continues a recording of line starts over `slice`, which lies at offset `base`
/// of a file of `total_len` bytes; `before` are the `count` line starts recorded
/// so far. The cancel flag is read at every checkpoint and once more before the rest
/// is reported, so that all bytes are reported exactly where the scan is complete.
pub(crate) fn scan_onto(
    strides: Vec<u64>,
    count: u64,
    slice: &[u8],
    base: u64,
    total_len: u64,
    hooks: &IndexHooks,
    Ghost(before): Ghost<Seq<int>>,
) -> (out: ChunkScan)
    requires
        base + slice@.len() <= total_len,
        strided(strides@, before),
        count == before.len(),
        count <= base + 1,
    ensures
        out.complete ==> {
            let starts = before + breaks(
                slice@,
                base as int,
                total_len as int,
                0,
                slice@.len() as int,
            );
            &&& strided(out.strides@, starts)
            &&& out.count == starts.len()
            &&& out.reported == slice@.len()
            &&& slice@.len() > 0 ==> hooks.reads_cancelled(false)
        },
        !out.complete ==> {
            &&& hooks.reads_cancelled(true)
            &&& out.reported < slice@.len()
            &&& exists|to: int|
                0 <= to <= slice@.len() && {
                    let starts = before + #[trigger] breaks(
                        slice@,
                        base as int,
                        total_len as int,
                        0,
                        to,
                    );
                    &&& strided(out.strides@, starts)
                    &&& out.count == starts.len()
                    &&& hooks.always_reads(true) ==> stops_at_once(
                        slice@,
                        base as int,
                        total_len as int,
                        out.reported as int,
                        to,
                    )
                }
        },
        out.count <= count + slice@.len(),
        hooks.reports(out.reported as int),
{
    let mut strides = strides;
    let mut lines: u64 = count;
    let ghost bytes = slice@;
    let ghost total = total_len as int;
    let ghost mut starts: Seq<int> = before;
    let mut pos: usize = 0;
    let mut last_report: u64 = 0;
    proof {
        assert(starts =~= before + breaks(bytes, base as int, total, 0, 0));
        hooks.lemma_reports_nothing();
    }
    while pos < slice.len()
        invariant
            bytes == slice@,
            total == total_len,
            base + bytes.len() <= total_len,
            pos <= bytes.len(),
            last_report <= pos,
            last_report < bytes.len() || bytes.len() == 0,
            starts == before + breaks(bytes, base as int, total, 0, pos as int),
            strided(strides@, starts),
            lines == starts.len(),
            count <= base + 1,
            lines <= count + pos,
            hooks.reports(last_report as int),
            hooks.always_reads(true) ==> last_report == 0 && forall|p: int|
                0 <= p < pos ==> !#[trigger] is_checkpoint(bytes, base as int, total, p),
        decreases bytes.len() - pos,
    {
        let rest = &slice[pos..slice.len()];
        match memchr::memchr(NEWLINE, rest) {
            None => {
                proof {
                    assert forall|i: int| pos <= i < bytes.len() implies bytes[i] != NEWLINE by {
                        assert(rest@[i - pos] == bytes[i]);
                    }
                    lemma_breaks_none(bytes, base as int, total, pos as int, bytes.len() as int);
                    lemma_breaks_split(
                        bytes,
                        base as int,
                        total,
                        0,
                        pos as int,
                        bytes.len() as int,
                    );
                    assert(starts =~= before + breaks(
                        bytes,
                        base as int,
                        total,
                        0,
                        bytes.len() as int,
                    ));
                }
                pos = slice.len();
            },
            Some(q) => {
                let p: usize = pos + q;
                let next: u64 = base + p as u64 + 1;
                proof {
                    assert(rest@[q as int] == bytes[p as int]);
                    assert forall|i: int| pos <= i < p implies bytes[i] != NEWLINE by {
                        assert(rest@[i - pos] == bytes[i]);
                    }
                    lemma_breaks_none(bytes, base as int, total, pos as int, p as int);
                    lemma_breaks_split(bytes, base as int, total, 0, pos as int, p as int);
                    assert(breaks(bytes, base as int, total, 0, p as int) =~= breaks(
                        bytes,
                        base as int,
                        total,
                        0,
                        pos as int,
                    ));
                }
                pos = p + 1;
                if next != total_len {
                    proof {
                        lemma_strided_push(strides@, starts, next);
                        starts = starts.push(next as int);
                        assert(starts =~= before + breaks(
                            bytes,
                            base as int,
                            total,
                            0,
                            pos as int,
                        ));
                    }
                    if lines % INDEX_STRIDE == 0 {
                        strides.push(next);
                    }
                    lines = lines + 1;
                    if p as u64 - last_report >= PROGRESS_CHECK_STRIDE {
                        let part: u64 = p as u64 - last_report;
                        hooks.report(part);
                        proof {
                            hooks.lemma_reports_more(last_report as int, part);
                        }
                        last_report = p as u64;
                        if hooks.is_cancelled() {
                            return ChunkScan {
                                strides,
                                count: lines,
                                reported: last_report,
                                complete: false,
                            };
                        }
                    }
                }
            },
        }
    }
    if slice.len() > 0 && hooks.is_cancelled() {
        return ChunkScan { strides, count: lines, reported: last_report, complete: false };
    }
    let rest: u64 = slice.len() as u64 - last_report;
    hooks.report(rest);
    proof {
        hooks.lemma_reports_more(last_report as int, rest);
    }
    shrink_to_fit(&mut strides);
    ChunkScan { strides, count: lines, reported: slice.len() as u64, complete: true }
}

/// Scans one chunk of a file: `slice` lies at offset `base` of a file of
/// `total_len` bytes. The chunk that begins the file owns the first line too.
///
/// At every checkpoint the progress is reported and the cancel flag is read, and the
/// flag is read once more before the rest is reported. A scan that found it raised
/// stops there, with less reported than the chunk holds; one that is complete found it
/// lowered. A flag that is raised throughout stops the scan at its first checkpoint.
pub fn scan_chunk(
    slice: &[u8],
    base: u64,
    is_first: bool,
    total_len: u64,
    hooks: &IndexHooks,
) -> (out: ChunkScan)
    requires
        base + slice@.len() <= total_len,
    ensures
        out.complete ==> {
            let starts = chunk_starts(
                slice@,
                base as int,
                is_first,
                total_len as int,
                slice@.len() as int,
            );
            &&& strided(out.strides@, starts)
            &&& out.count == starts.len()
            &&& out.reported == slice@.len()
            &&& slice@.len() > 0 ==> hooks.reads_cancelled(false)
        },
        !out.complete ==> {
            &&& hooks.reads_cancelled(true)
            &&& out.reported < slice@.len()
            &&& exists|to: int|
                0 <= to <= slice@.len() && {
                    let starts = #[trigger] chunk_starts(
                        slice@,
                        base as int,
                        is_first,
                        total_len as int,
                        to,
                    );
                    &&& strided(out.strides@, starts)
                    &&& out.count == starts.len()
                    &&& hooks.always_reads(true) ==> stops_at_once(
                        slice@,
                        base as int,
                        total_len as int,
                        out.reported as int,
                        to,
                    )
                }
        },
        out.count <= slice@.len() + 1,
        hooks.reports(out.reported as int),
{
    let mut strides: Vec<u64> = Vec::with_capacity(slice.len() / 48 / 8 + 16);
    let mut count: u64 = 0;
    let ghost mut starts: Seq<int> = Seq::empty();
    if is_first && slice.len() > 0 {
        let head: u64 = if starts_with_bom(slice) {
            3
        } else {
            0
        };
        strides.push(head);
        count = 1;
        proof {
            starts = seq![head as int];
        }
    }
    let out = scan_onto(strides, count, slice, base, total_len, hooks, Ghost(starts));
    proof {
        if !out.complete {
            let to = choose|to: int|
                0 <= to <= slice@.len() && {
                    let all = starts + #[trigger] breaks(
                        slice@,
                        base as int,
                        total_len as int,
                        0,
                        to,
                    );
                    &&& strided(out.strides@, all)
                    &&& out.count == all.len()
                    &&& hooks.always_reads(true) ==> stops_at_once(
                        slice@,
                        base as int,
                        total_len as int,
                        out.reported as int,
                        to,
                    )
                };
            assert(chunk_starts(slice@, base as int, is_first, total_len as int, to) == starts
                + breaks(slice@, base as int, total_len as int, 0, to));
        }
    }
    out
}

/// A scan that stopped where it first looked at the cancel flag looked at all of a chunk of
/// no more than eight mebibytes and reported nothing of it; of a longer chunk it looked at
/// no line behind the first newline that lies as far in it, and reported what lies before
/// that newline.
pub proof fn lemma_first_checkpoint(
    chunk: Seq<u8>,
    base: int,
    total: int,
    reported: int,
    to: int,
    p: int,
)
    requires
        stops_at_once(chunk, base, total, reported, to),
        0 <= to <= chunk.len(),
    ensures
        chunk.len() <= 8 * 1024 * 1024 ==> reported == 0 && to == chunk.len(),
        reported > 0 ==> reported >= 8 * 1024 * 1024 && reported == to - 1 && chunk[reported]
            == NEWLINE,
        8 * 1024 * 1024 <= p < chunk.len() && chunk[p] == NEWLINE && base + p + 1 != total ==> 0
            < reported <= p,
{
    if 8 * 1024 * 1024 <= p < chunk.len() && chunk[p] == NEWLINE && base + p + 1 != total {
        assert(is_checkpoint(chunk, base, total, p));
    }
}

/// From this many bytes on, a file is scanned in several chunks.
pub const PARALLEL_MIN_BYTES: usize = 67108864;

/// The most chunks a file is scanned in.
pub const MAX_INDEX_THREADS: usize = 8;

/// How many chunks a file of `len` bytes is scanned in, where `available` threads
/// can run.
pub fn index_threads(len: usize, available: usize) -> (out: usize)
    ensures
        len < PARALLEL_MIN_BYTES || available <= 1 ==> out == 1,
        len >= PARALLEL_MIN_BYTES && available > 1 ==> out == if available < MAX_INDEX_THREADS {
            available
        } else {
            MAX_INDEX_THREADS
        },
        out > 1 <==> len >= 64 * 1024 * 1024 && available > 1,
        1 <= out <= 8,
        out > 1 && available <= 8 ==> out == available,
        out > 1 && available > 8 ==> out == 8,
{
    if len < PARALLEL_MIN_BYTES || available <= 1 {
        1
    } else if available < MAX_INDEX_THREADS {
        available
    } else {
        MAX_INDEX_THREADS
    }
}

/// The size of all but the last of the chunks that `len` bytes are cut into.
pub open spec fn chunk_len(len: int, threads: int) -> int {
    (len + threads - 1) / threads
}

/// `bounds` cuts `0..len` into adjoining ranges, none of them empty.
pub open spec fn is_partition(bounds: Seq<(usize, usize)>, len: int) -> bool {
    &&& bounds.len() == 0 <==> len == 0
    &&& bounds.len() > 0 ==> bounds[0].0 == 0 && bounds.last().1 == len
    &&& forall|k: int| 0 <= k < bounds.len() ==> (#[trigger] bounds[k]).0 < bounds[k].1 <= len
    &&& forall|k: int|
        0 <= k < bounds.len() - 1 ==> (#[trigger] bounds[k]).1 == bounds[k + 1].0
}

/// Cuts `len` bytes into at most `threads` chunks of equal size, the last of which
/// may be shorter.
pub fn chunk_bounds(len: usize, threads: usize) -> (out: Vec<(usize, usize)>)
    requires
        threads > 0,
    ensures
        is_partition(out@, len as int),
        out@.len() <= threads,
        forall|k: int|
            0 <= k < out@.len() - 1 ==> (#[trigger] out@[k]).1 - out@[k].0 == chunk_len(
                len as int,
                threads as int,
            ),
        out@.len() > 0 ==> out@.last().1 - out@.last().0 <= chunk_len(len as int, threads as int),
{
    proof {
        lemma_chunk_len(len as int, threads as int);
    }
    let size: usize = if len % threads == 0 {
        len / threads
    } else {
        len / threads + 1
    };
    let mut bounds: Vec<(usize, usize)> = Vec::new();
    let mut start: usize = 0;
    while start < len
        invariant
            start <= len,
            threads > 0,
            size == chunk_len(len as int, threads as int),
            len > 0 ==> size > 0,
            size * threads >= len,
            bounds@.len() == 0 <==> start == 0,
            bounds@.len() > 0 ==> bounds@[0].0 == 0 && bounds@.last().1 == start,
            forall|k: int|
                0 <= k < bounds@.len() ==> (#[trigger] bounds@[k]).0 < bounds@[k].1 <= len,
            forall|k: int|
                0 <= k < bounds@.len() - 1 ==> (#[trigger] bounds@[k]).1 == bounds@[k + 1].0,
            forall|k: int|
                0 <= k < bounds@.len() - 1 ==> (#[trigger] bounds@[k]).1 - bounds@[k].0 == size,
            bounds@.len() > 0 ==> bounds@.last().1 - bounds@.last().0 <= size,
            start < len ==> size * bounds@.len() == start,
            start < len && bounds@.len() > 0 ==> bounds@.last().1 - bounds@.last().0 == size,
            bounds@.len() <= threads,
        decreases len - start,
    {
        let end: usize = if len - start > size {
            start + size
        } else {
            len
        };
        proof {
            let n = bounds@.len() as int;
            assert(n < threads) by (nonlinear_arith)
                requires
                    size * n == start,
                    start < len,
                    size * threads >= len,
                    size > 0,
            ;
            assert(size * (n + 1) == size * n + size) by (nonlinear_arith);
        }
        bounds.push((start, end));
        start = end;
    }
    bounds
}

/// Chunks of the size that `chunk_len` gives are enough for all bytes, and none is longer.
pub(crate) proof fn lemma_chunk_len(len: int, threads: int)
    requires
        0 <= len,
        0 < threads,
    ensures
        len % threads == 0 ==> chunk_len(len, threads) == len / threads,
        len % threads != 0 ==> chunk_len(len, threads) == len / threads + 1,
        chunk_len(len, threads) * threads >= len,
        len > 0 ==> chunk_len(len, threads) > 0,
        chunk_len(len, threads) <= len,
{
    let q = len / threads;
    let r = len % threads;
    vstd::arithmetic::div_mod::lemma_fundamental_div_mod(len, threads);
    assert(threads * q == q * threads) by (nonlinear_arith);
    if r == 0 {
        vstd::arithmetic::div_mod::lemma_fundamental_div_mod_converse(
            len + threads - 1,
            threads,
            q,
            threads - 1,
        );
    } else {
        assert((q + 1) * threads == q * threads + threads) by (nonlinear_arith);
        vstd::arithmetic::div_mod::lemma_fundamental_div_mod_converse(
            len + threads - 1,
            threads,
            q + 1,
            r - 1,
        );
    }
    assert(q == 0 ==> q * threads == 0) by (nonlinear_arith);
    assert(0 <= q <= q * threads) by (nonlinear_arith)
        requires
            0 < threads,
            0 <= r < threads,
            0 <= q * threads + r,
    ;
}

/// Chunks are just long enough for all bytes: with one byte less each, they would not be.
pub proof fn lemma_chunks_are_even(len: int, threads: int)
    requires
        0 < len,
        0 < threads,
    ensures
        chunk_len(len, threads) * threads >= len,
        (chunk_len(len, threads) - 1) * threads < len,
{
    let size = chunk_len(len, threads);
    lemma_chunk_len(len, threads);
    vstd::arithmetic::div_mod::lemma_fundamental_div_mod(len + threads - 1, threads);
    assert((size - 1) * threads == threads * size - threads) by (nonlinear_arith);
}

/// The line starts that chunk `k` of a file owns.
pub open spec fn part_starts(data: Seq<u8>, bounds: Seq<(usize, usize)>, k: int) -> Seq<int> {
    let (start, end) = bounds[k];
    chunk_starts(
        data.subrange(start as int, end as int),
        start as int,
        k == 0,
        data.len() as int,
        end - start,
    )
}

/// `scan` is what a scan of chunk `k` of `data` may give.
pub open spec fn is_scan_of(
    data: Seq<u8>,
    bounds: Seq<(usize, usize)>,
    k: int,
    scan: ChunkScan,
) -> bool {
    let size = bounds[k].1 - bounds[k].0;
    &&& scan.complete ==> {
        &&& strided(scan.strides@, part_starts(data, bounds, k))
        &&& scan.count == part_starts(data, bounds, k).len()
        &&& scan.reported == size
    }
    &&& !scan.complete ==> scan.reported < size
    &&& scan.count <= size + 1
}

/// Where the first line of a file starts, as the first of its chunks alone shows it: the
/// chunk may be too short to hold a byte order mark whole.
pub open spec fn chunked_text_start(data: Seq<u8>, bounds: Seq<(usize, usize)>) -> int {
    if bounds.len() == 0 {
        0
    } else {
        text_start(data.subrange(bounds[0].0 as int, bounds[0].1 as int))
    }
}

} // verus!
