//! What the lines of a file are: where each one starts, and its bytes.

use vstd::prelude::*;

use crate::bytes::{NEWLINE, RETURN};

verus! {

/// The starts of the lines that the newlines at `from..to` of `chunk` open,
/// where `chunk` lies at offset `base` of a file of `total` bytes.
///
/// A newline opens a line at the byte behind it. The newline that ends the file
/// opens none.
pub open spec fn breaks(chunk: Seq<u8>, base: int, total: int, from: int, to: int) -> Seq<int>
    decreases to - from,
{
    if from >= to {
        Seq::empty()
    } else {
        let init = breaks(chunk, base, total, from, to - 1);
        if chunk[to - 1] == NEWLINE && base + to != total {
            init.push(base + to)
        } else {
            init
        }
    }
}

/// The starts of the lines that the newlines of a whole file open.
pub open spec fn file_breaks(data: Seq<u8>) -> Seq<int> {
    breaks(data, 0, data.len() as int, 0, data.len() as int)
}

/// The starts of all lines of `data`, whose first line starts at `first`.
/// An empty file has no line.
pub open spec fn line_starts(data: Seq<u8>, first: int) -> Seq<int> {
    if data.len() == 0 {
        Seq::empty()
    } else {
        seq![first] + file_breaks(data)
    }
}

/// The position of the first newline at or behind `start`, or the end of the
/// file where there is none.
pub open spec fn line_end(data: Seq<u8>, start: int) -> int
    decreases data.len() - start,
{
    if start >= data.len() {
        data.len() as int
    } else if data[start] == NEWLINE {
        start
    } else {
        line_end(data, start + 1)
    }
}

/// Without the carriage return that may end it.
pub open spec fn strip_return(line: Seq<u8>) -> Seq<u8> {
    if line.len() > 0 && line.last() == RETURN {
        line.drop_last()
    } else {
        line
    }
}

/// The bytes of the line that starts at `start`: up to the newline, without the
/// newline and without a carriage return before it.
pub open spec fn line_bytes(data: Seq<u8>, start: int) -> Seq<u8> {
    strip_return(data.subrange(start, line_end(data, start)))
}

/// All lines of `data`, whose first line starts at `first`.
pub open spec fn lines_of(data: Seq<u8>, first: int) -> Seq<Seq<u8>> {
    line_starts(data, first).map_values(|start: int| line_bytes(data, start))
}

/// `data` begins with the byte order mark of UTF-8.
pub open spec fn has_bom(data: Seq<u8>) -> bool {
    data.len() >= 3 && data[0] == 0xEF && data[1] == 0xBB && data[2] == 0xBF
}

/// Where the text of `data` begins: behind the byte order mark, if there is one.
pub open spec fn text_start(data: Seq<u8>) -> int {
    if has_bom(data) {
        3
    } else {
        0
    }
}

/// The first line of `data` may start at `first`: at the first byte, or behind
/// the byte order mark.
pub open spec fn first_line_ok(data: Seq<u8>, first: int) -> bool {
    first == 0 || (first == 3 && has_bom(data))
}

/// `line_end` is at or behind `start`, within the file, and nothing between the
/// two is a newline.
pub(crate) proof fn lemma_line_end(data: Seq<u8>, start: int)
    requires
        0 <= start <= data.len(),
    ensures
        start <= line_end(data, start) <= data.len(),
        forall|i: int| start <= i < line_end(data, start) ==> data[i] != NEWLINE,
        line_end(data, start) < data.len() ==> data[line_end(data, start)] == NEWLINE,
    decreases data.len() - start,
{
    if start < data.len() && data[start] != NEWLINE {
        lemma_line_end(data, start + 1);
    }
}

/// A newline with none between `start` and itself is the `line_end`.
pub(crate) proof fn lemma_line_end_is(data: Seq<u8>, start: int, end: int)
    requires
        0 <= start <= end <= data.len(),
        forall|i: int| start <= i < end ==> data[i] != NEWLINE,
        end < data.len() ==> data[end] == NEWLINE,
    ensures
        line_end(data, start) == end,
    decreases end - start,
{
    if start < end {
        lemma_line_end_is(data, start + 1, end);
    }
}

/// `breaks` over adjoining ranges.
pub(crate) proof fn lemma_breaks_split(
    chunk: Seq<u8>,
    base: int,
    total: int,
    from: int,
    mid: int,
    to: int,
)
    requires
        from <= mid <= to,
    ensures
        breaks(chunk, base, total, from, to) == breaks(chunk, base, total, from, mid) + breaks(
            chunk,
            base,
            total,
            mid,
            to,
        ),
    decreases to - mid,
{
    if mid < to {
        lemma_breaks_split(chunk, base, total, from, mid, to - 1);
    }
    assert(breaks(chunk, base, total, from, to) =~= breaks(chunk, base, total, from, mid) + breaks(
        chunk,
        base,
        total,
        mid,
        to,
    ));
}

/// Bytes without a newline open no line.
pub(crate) proof fn lemma_breaks_none(chunk: Seq<u8>, base: int, total: int, from: int, to: int)
    requires
        forall|i: int| from <= i < to ==> chunk[i] != NEWLINE,
    ensures
        breaks(chunk, base, total, from, to) == Seq::<int>::empty(),
    decreases to - from,
{
    if from < to {
        lemma_breaks_none(chunk, base, total, from, to - 1);
    }
}

/// The breaks of a part of a file are those of the file in that range.
pub(crate) proof fn lemma_breaks_shift(
    data: Seq<u8>,
    base: int,
    total: int,
    start: int,
    end: int,
    from: int,
    to: int,
)
    requires
        0 <= start <= end <= data.len(),
        0 <= from,
        to <= end - start,
    ensures
        breaks(data.subrange(start, end), base + start, total, from, to) == breaks(
            data,
            base,
            total,
            start + from,
            start + to,
        ),
    decreases to - from,
{
    if from < to {
        lemma_breaks_shift(data, base, total, start, end, from, to - 1);
        assert(data.subrange(start, end)[to - 1] == data[start + to - 1]);
    }
}

/// The breaks rise, and each stands behind a newline of the range.
pub(crate) proof fn lemma_breaks_rise(chunk: Seq<u8>, base: int, total: int, from: int, to: int)
    ensures
        forall|k: int|
            0 <= k < breaks(chunk, base, total, from, to).len() ==> {
                let b = #[trigger] breaks(chunk, base, total, from, to)[k];
                base + from < b <= base + to && b != total && chunk[b - base - 1] == NEWLINE
            },
        forall|j: int, k: int|
            0 <= j < k < breaks(chunk, base, total, from, to).len() ==> breaks(
                chunk,
                base,
                total,
                from,
                to,
            )[j] < breaks(chunk, base, total, from, to)[k],
        from <= to ==> breaks(chunk, base, total, from, to).len() <= to - from,
    decreases to - from,
{
    if from < to {
        lemma_breaks_rise(chunk, base, total, from, to - 1);
    }
}

/// A whole file opens fewer lines by its newlines than it has bytes.
pub(crate) proof fn lemma_file_breaks_len(data: Seq<u8>)
    requires
        data.len() > 0,
    ensures
        file_breaks(data).len() < data.len(),
{
    let n = data.len() as int;
    lemma_breaks_rise(data, 0, n, 0, n - 1);
}

/// From one line start to the next: the line behind it starts behind its
/// newline, and the last line runs to the end of the file.
pub proof fn lemma_next_start(data: Seq<u8>, first: int, k: int)
    requires
        first_line_ok(data, first),
        0 <= k < line_starts(data, first).len(),
    ensures
        0 <= line_starts(data, first)[k] <= data.len(),
        k > 0 ==> line_starts(data, first)[k] < data.len(),
        k + 1 < line_starts(data, first).len() ==> {
            &&& line_end(data, line_starts(data, first)[k]) + 1 == line_starts(data, first)[k + 1]
            &&& line_end(data, line_starts(data, first)[k]) + 1 < data.len()
        },
        k + 1 == line_starts(data, first).len() ==> line_end(data, line_starts(data, first)[k]) + 1
            >= data.len(),
{
    let n = data.len() as int;
    let all = file_breaks(data);
    let starts = line_starts(data, first);
    let s = starts[k];
    lemma_breaks_rise(data, 0, n, 0, n);
    // The breaks up to `s` are the first `k`.
    if k > 0 {
        assert(s == all[k - 1]);
        assert(breaks(data, 0, n, 0, s).last() == s);
        lemma_breaks_split(data, 0, n, 0, s, n);
        lemma_breaks_rise(data, 0, n, 0, s);
        let m = breaks(data, 0, n, 0, s).len() - 1;
        assert(all[m] == s);
        assert(m == k - 1);
    } else {
        assert(s == first);
        lemma_breaks_none(data, 0, n, 0, s);
        lemma_breaks_split(data, 0, n, 0, s, n);
    }
    assert(all == breaks(data, 0, n, 0, s) + breaks(data, 0, n, s, n));
    assert(breaks(data, 0, n, 0, s).len() == k);
    // Behind `s` the first break stands behind the first newline.
    lemma_line_end(data, s);
    let e = line_end(data, s);
    lemma_breaks_none(data, 0, n, s, e);
    if e < n {
        lemma_breaks_split(data, 0, n, s, e, n);
        lemma_breaks_split(data, 0, n, e, e + 1, n);
        assert(breaks(data, 0, n, e, e) =~= Seq::empty());
        if e + 1 < n {
            assert(breaks(data, 0, n, e, e + 1) =~= seq![e + 1]);
            assert(all[k] == e + 1);
        } else {
            assert(breaks(data, 0, n, e, e + 1) =~= Seq::empty());
            assert(breaks(data, 0, n, e + 1, n) =~= Seq::empty());
        }
    }
}

/// The line starts rise.
pub proof fn lemma_starts_rise(data: Seq<u8>, first: int, j: int, k: int)
    requires
        first_line_ok(data, first),
        0 <= j < k < line_starts(data, first).len(),
    ensures
        line_starts(data, first)[j] < line_starts(data, first)[k],
    decreases k - j,
{
    lemma_next_start(data, first, k - 1);
    lemma_line_end(data, line_starts(data, first)[k - 1]);
    if j < k - 1 {
        lemma_starts_rise(data, first, j, k - 1);
    }
}

/// A file that only grew opens the same lines in its old part, and one more
/// where the newline that ended it now has something behind it.
proof fn lemma_breaks_grow(old: Seq<u8>, new: Seq<u8>, to: int)
    requires
        old.len() < new.len(),
        old == new.take(old.len() as int),
        0 <= to <= old.len(),
        0 < old.len(),
    ensures
        to < old.len() ==> breaks(new, 0, new.len() as int, 0, to) == breaks(
            old,
            0,
            old.len() as int,
            0,
            to,
        ),
        to == old.len() ==> breaks(new, 0, new.len() as int, 0, to) == file_breaks(old)
            + resumed(old),
    decreases to,
{
    if to > 0 {
        lemma_breaks_grow(old, new, to - 1);
        assert(old[to - 1] == new[to - 1]);
    }
    if to == old.len() {
        assert(breaks(new, 0, new.len() as int, 0, to) =~= file_breaks(old) + resumed(old));
    }
}

/// The line that starts at the end of `old` once bytes follow: there is one where
/// `old` is empty or ends with a newline.
pub open spec fn resumed(old: Seq<u8>) -> Seq<int> {
    if old.len() == 0 || old.last() == NEWLINE {
        seq![old.len() as int]
    } else {
        Seq::empty()
    }
}

/// Where the first line of a file starts that has grown from `old`, in which it started
/// at `first`, to `new`: growth may complete a byte order mark.
pub open spec fn grown_first(first: int, old: Seq<u8>, new: Seq<u8>) -> int {
    if old.len() < 3 {
        text_start(new)
    } else {
        first
    }
}

/// The line starts of a file that has grown from `old` to `new`, where those of
/// `old` were `starts`. Of `new` only the bytes behind `old` are looked at, and those of
/// a byte order mark that `old` was too short for.
pub open spec fn appended_starts(starts: Seq<int>, old: Seq<u8>, new: Seq<u8>) -> Seq<int> {
    if new.len() <= old.len() {
        starts
    } else {
        let all = starts + resumed(old) + breaks(
            new,
            0,
            new.len() as int,
            old.len() as int,
            new.len() as int,
        );
        all.update(0, grown_first(all[0], old, new))
    }
}

/// Appending to the line starts of a file that only grew gives the line starts of
/// the grown file.
pub(crate) proof fn lemma_append_starts(old: Seq<u8>, new: Seq<u8>, first: int)
    requires
        old.len() < new.len(),
        old == new.take(old.len() as int),
        old.len() == 0 ==> first == 0,
    ensures
        appended_starts(line_starts(old, first), old, new) == line_starts(
            new,
            grown_first(first, old, new),
        ),
{
    let m = old.len() as int;
    let n = new.len() as int;
    lemma_breaks_split(new, 0, n, 0, m, n);
    if m > 0 {
        lemma_breaks_grow(old, new, m);
    }
    assert(appended_starts(line_starts(old, first), old, new) =~= line_starts(
        new,
        grown_first(first, old, new),
    ));
}

/// A file that is opened and then grows has the line starts that opening the
/// grown file gives, also where the growth completes a byte order mark.
pub proof fn lemma_append_is_rebuild(old: Seq<u8>, new: Seq<u8>)
    requires
        old.len() < new.len(),
        old == new.take(old.len() as int),
    ensures
        appended_starts(line_starts(old, text_start(old)), old, new) == line_starts(
            new,
            text_start(new),
        ),
{
    if old.len() >= 3 {
        assert(old[0] == new[0] && old[1] == new[1] && old[2] == new[2]);
    }
    lemma_append_starts(old, new, text_start(old));
}

/// The number of the line that holds offset `off`: the last line that starts at
/// or before it, and the first line for an offset before all lines.
pub open spec fn line_at(starts: Seq<int>, off: int) -> int
    decreases starts.len(),
{
    if starts.len() <= 1 {
        0
    } else if starts.last() <= off {
        starts.len() - 1
    } else {
        line_at(starts.drop_last(), off)
    }
}

/// The line that starts at or before an offset, and behind which the next line
/// starts, holds the offset.
pub(crate) proof fn lemma_line_at(starts: Seq<int>, off: int, k: int)
    requires
        0 <= k < starts.len(),
        k == 0 || starts[k] <= off,
        forall|j: int| k < j < starts.len() ==> off < starts[j],
    ensures
        line_at(starts, off) == k,
    decreases starts.len(),
{
    if starts.len() > 1 && k < starts.len() - 1 {
        lemma_line_at(starts.drop_last(), off, k);
    }
}

/// Reads the line that starts at `start`: its bytes, and the position of the
/// newline that ends it, or the end of the file.
pub fn read_line<'a>(data: &'a [u8], start: usize) -> (out: (&'a [u8], usize))
    requires
        start <= data@.len(),
    ensures
        out.0@ == line_bytes(data@, start as int),
        out.1 == line_end(data@, start as int),
        start <= out.1 <= data@.len(),
{
    let rest = &data[start..data.len()];
    let end: usize = match memchr::memchr(NEWLINE, rest) {
        Some(p) => {
            proof {
                assert forall|j: int| start <= j < start + p implies data@[j] != NEWLINE by {
                    assert(rest@[j - start] == data@[j]);
                }
                assert(rest@[p as int] == data@[start + p]);
                lemma_line_end_is(data@, start as int, start + p);
            }
            start + p
        },
        None => {
            proof {
                assert forall|j: int| start <= j < data@.len() implies data@[j] != NEWLINE by {
                    assert(rest@[j - start] == data@[j]);
                }
                lemma_line_end_is(data@, start as int, data@.len() as int);
            }
            data.len()
        },
    };
    if end > start && data[end - 1] == RETURN {
        assert(data@.subrange(start as int, end as int).drop_last() =~= data@.subrange(
            start as int,
            end - 1,
        ));
        (&data[start..end - 1], end)
    } else {
        (&data[start..end], end)
    }
}

/// No line holds a newline, and each line is the bytes from its start to its line
/// end: a newline, or a carriage return at the end of the line.
pub proof fn lemma_line_holds_no_newline(data: Seq<u8>, first: int, k: int)
    requires
        first_line_ok(data, first),
        0 <= k < lines_of(data, first).len(),
    ensures
        forall|i: int|
            0 <= i < lines_of(data, first)[k].len() ==> lines_of(data, first)[k][i] != NEWLINE,
        ({
            let start = line_starts(data, first)[k];
            let end = line_end(data, start);
            lines_of(data, first)[k] == data.subrange(
                start,
                if end > start && data[end - 1] == RETURN {
                    end - 1
                } else {
                    end
                },
            )
        }),
{
    let start = line_starts(data, first)[k];
    let end = line_end(data, start);
    lemma_next_start(data, first, k);
    lemma_line_end(data, start);
    let whole = data.subrange(start, end);
    assert(lines_of(data, first)[k] =~= data.subrange(
        start,
        if end > start && data[end - 1] == RETURN {
            end - 1
        } else {
            end
        },
    ));
}

/// The first `m` lines of a file are complete: each one is ended by a newline.
pub open spec fn are_complete(data: Seq<u8>, first: int, m: int) -> bool {
    let count = lines_of(data, first).len();
    0 <= m <= count && (m < count || count == 0 || data.last() == NEWLINE)
}

/// A file that only grows keeps its complete lines, under their numbers.
pub proof fn lemma_complete_lines_stay(
    old: Seq<u8>,
    new: Seq<u8>,
    first: int,
    m: int,
    k: int,
)
    requires
        first_line_ok(old, first),
        old.len() < new.len(),
        old == new.take(old.len() as int),
        are_complete(old, first, m),
        0 <= k < m,
    ensures
        m <= lines_of(new, grown_first(first, old, new)).len(),
        lines_of(new, grown_first(first, old, new))[k] == lines_of(old, first)[k],
{
    let s = line_starts(old, first)[k];
    let e = line_end(old, s);
    lemma_append_starts(old, new, first);
    assert(grown_first(first, old, new) == first) by {
        if old.len() < 3 && has_bom(new) {
            assert forall|i: int| 0 <= i < old.len() implies old[i] != NEWLINE by {
                assert(old[i] == new[i]);
            }
            lemma_breaks_none(old, 0, old.len() as int, 0, old.len() as int);
        }
    }
    assert(line_starts(new, first)[k] == s);
    lemma_next_start(old, first, k);
    lemma_line_end(old, s);
    assert(s < old.len()) by {
        if s == old.len() {
            assert(k == 0 && first == 3);
            assert(old.last() == old[2]);
        }
    }
    assert(e < old.len()) by {
        if e == old.len() {
            assert(old[old.len() - 1] != NEWLINE);
        }
    }
    assert forall|i: int| s <= i < e implies new[i] != NEWLINE by {
        assert(old[i] == new[i]);
    }
    assert(old[e] == new[e]);
    lemma_line_end_is(new, s, e);
    assert(new.subrange(s, e) =~= old.subrange(s, e));
}

} // verus!
