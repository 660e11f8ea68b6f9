//! Splitting a file into lines undoes joining them.

use vstd::prelude::*;

use crate::bytes::{NEWLINE, RETURN};
use crate::lines::{
    breaks, file_breaks, grown_first, has_bom, lemma_append_starts, lemma_breaks_none,
    lemma_complete_lines_stay, lemma_line_at, lemma_line_end, lemma_line_end_is, lemma_starts_rise,
    line_at, line_bytes, line_end, line_starts, lines_of, text_start,
};
use crate::logfile::{is_opened, LogView, Source};

verus! {

/// What ends a line: a newline, with a carriage return before it or without.
pub open spec fn line_ending(crlf: bool) -> Seq<u8> {
    if crlf {
        seq![RETURN, NEWLINE]
    } else {
        seq![NEWLINE]
    }
}

/// Lines one behind the other, each with its ending.
pub open spec fn joined_lines(lines: Seq<Seq<u8>>, crlf: Seq<bool>) -> Seq<u8>
    decreases lines.len(),
{
    if lines.len() == 0 {
        Seq::empty()
    } else {
        joined_lines(lines.drop_last(), crlf) + lines.last() + line_ending(crlf[lines.len() - 1])
    }
}

/// The bytes can be a line with that ending: they hold no newline, and no carriage return
/// before a bare newline.
pub open spec fn can_be_line(line: Seq<u8>, crlf: bool) -> bool {
    &&& forall|i: int| 0 <= i < line.len() ==> #[trigger] line[i] != NEWLINE
    &&& !crlf && line.len() > 0 ==> line.last() != RETURN
}

/// The byte order mark of UTF-8, or nothing.
pub open spec fn is_mark(mark: Seq<u8>) -> bool {
    mark == Seq::<u8>::empty() || mark == seq![0xEFu8, 0xBB, 0xBF]
}

/// A file is `mark` and then `text`, where the mark is all of a byte order mark that it
/// begins with.
pub open spec fn is_marked(data: Seq<u8>, mark: Seq<u8>, text: Seq<u8>) -> bool {
    &&& is_mark(mark)
    &&& data == mark + text
    &&& mark.len() == 0 && data.len() >= 3 ==> data.take(3) != seq![0xEFu8, 0xBB, 0xBF]
}

proof fn lemma_mark(data: Seq<u8>, mark: Seq<u8>, text: Seq<u8>)
    requires
        is_marked(data, mark, text),
    ensures
        text_start(data) == mark.len(),
        mark.len() > 0 ==> has_bom(data),
        forall|i: int| 0 <= i < mark.len() ==> #[trigger] data[i] != NEWLINE,
{
    if mark.len() > 0 {
        assert(data[0] == mark[0] && data[1] == mark[1] && data[2] == mark[2]);
    } else if has_bom(data) {
        assert(data.take(3) =~= seq![0xEFu8, 0xBB, 0xBF]);
    }
}

/// What may follow a line: its ending, or as much of it as the end of the file leaves.
spec fn is_tail(tail: Seq<u8>, crlf: bool) -> bool {
    ||| tail == line_ending(crlf)
    ||| !crlf && tail.len() == 0
    ||| crlf && tail == seq![RETURN]
}

/// The line that starts at `start` and is followed by its ending, or by a part of it.
proof fn lemma_line_read(data: Seq<u8>, start: int, line: Seq<u8>, tail: Seq<u8>, crlf: bool)
    requires
        0 <= start <= data.len(),
        data.skip(start) == line + tail,
        is_tail(tail, crlf),
        can_be_line(line, crlf),
    ensures
        line_bytes(data, start) == line,
        line_end(data, start) == start + line.len() + if crlf {
            1int
        } else {
            0
        },
{
    let e = start + line.len() + if crlf {
        1int
    } else {
        0
    };
    let rest = data.skip(start);
    assert(rest.len() == line.len() + tail.len());
    assert forall|i: int| start <= i < e implies data[i] != NEWLINE by {
        assert(rest[i - start] == data[i]);
        if i - start < line.len() {
            assert(rest[i - start] == line[i - start]);
        } else {
            assert(rest[i - start] == tail[i - start - line.len()]);
        }
    }
    if e < data.len() {
        assert(rest[e - start] == data[e]);
        assert(rest[e - start] == tail[e - start - line.len()]);
    }
    lemma_line_end_is(data, start, e);
    let raw = data.subrange(start, e);
    if crlf {
        assert(raw =~= line.push(RETURN)) by {
            assert(rest[line.len() as int] == tail[0]);
            assert forall|i: int| 0 <= i < raw.len() implies raw[i] == line.push(RETURN)[i] by {
                assert(raw[i] == rest[i]);
            }
        }
        assert(raw.drop_last() =~= line);
    } else {
        assert(raw =~= line) by {
            assert forall|i: int| 0 <= i < raw.len() implies raw[i] == line[i] by {
                assert(raw[i] == rest[i]);
            }
        }
    }
}

/// One line alone.
proof fn lemma_one_line(
    data: Seq<u8>,
    mark: Seq<u8>,
    line: Seq<u8>,
    tail: Seq<u8>,
    crlf: bool,
)
    requires
        is_marked(data, mark, line + tail),
        data.len() > 0,
        is_tail(tail, crlf),
        can_be_line(line, crlf),
    ensures
        lines_of(data, text_start(data)) == seq![line],
        line_starts(data, text_start(data)) == seq![mark.len() as int],
{
    lemma_mark(data, mark, line + tail);
    let first = mark.len() as int;
    let n = data.len() as int;
    assert(data.skip(first) =~= line + tail);
    lemma_line_read(data, first, line, tail, crlf);
    assert forall|i: int| 0 <= i < n - 1 implies data[i] != NEWLINE by {
        if i >= first {
            assert(data[i] == (line + tail)[i - first]);
            if i - first < line.len() {
                assert(data[i] == line[i - first]);
            } else {
                assert(data[i] == tail[i - first - line.len()]);
            }
        }
    }
    lemma_breaks_none(data, 0, n, 0, n - 1);
    assert(file_breaks(data) =~= Seq::empty());
    assert(line_starts(data, first) =~= seq![first]);
    assert(lines_of(data, first) =~= seq![line]);
}

/// One line more behind lines that are all ended.
proof fn lemma_line_more(
    old: Seq<u8>,
    data: Seq<u8>,
    first: int,
    line: Seq<u8>,
    tail: Seq<u8>,
    crlf: bool,
)
    requires
        old.len() > 0,
        old.last() == NEWLINE,
        data == old + (line + tail),
        data.len() > old.len(),
        first == text_start(old),
        first == text_start(data),
        is_tail(tail, crlf),
        can_be_line(line, crlf),
    ensures
        lines_of(data, first) == lines_of(old, first).push(line),
        line_starts(data, first) == line_starts(old, first).push(old.len() as int),
{
    let m = old.len() as int;
    let n = data.len() as int;
    assert(data.take(m) =~= old);
    assert(data.skip(m) =~= line + tail);
    lemma_append_starts(old, data, first);
    assert(grown_first(first, old, data) == first);
    lemma_line_read(data, m, line, tail, crlf);
    assert forall|i: int| m <= i < n - 1 implies data[i] != NEWLINE by {
        assert(data[i] == (line + tail)[i - m]);
        if i - m < line.len() {
            assert(data[i] == line[i - m]);
        } else {
            assert(data[i] == tail[i - m - line.len()]);
        }
    }
    lemma_breaks_none(data, 0, n, m, n - 1);
    assert(breaks(data, 0, n, m, n) =~= Seq::empty());
    assert(line_starts(data, first) =~= line_starts(old, first).push(m));
    let before = lines_of(old, first);
    assert forall|k: int| 0 <= k < before.len() implies lines_of(data, first)[k] == before[k] by {
        lemma_complete_lines_stay(old, data, first, before.len() as int, k);
    }
    assert(lines_of(data, first) =~= before.push(line));
}

proof fn lemma_joined_ends(lines: Seq<Seq<u8>>, crlf: Seq<bool>)
    requires
        lines.len() > 0,
    ensures
        joined_lines(lines, crlf).len() > 0,
        joined_lines(lines, crlf).last() == NEWLINE,
{
    let ending = line_ending(crlf[lines.len() - 1]);
    let all = joined_lines(lines, crlf);
    assert(all.last() == ending.last());
}

/// Splitting a file gives the lines that it was joined from, whatever their endings, and
/// whether or not a byte order mark stands before them. No line is added behind the last
/// ending.
pub proof fn lemma_splitting_undoes_joining(
    data: Seq<u8>,
    mark: Seq<u8>,
    lines: Seq<Seq<u8>>,
    crlf: Seq<bool>,
)
    requires
        lines.len() > 0,
        lines.len() <= crlf.len(),
        is_marked(data, mark, joined_lines(lines, crlf)),
        forall|i: int| 0 <= i < lines.len() ==> can_be_line(#[trigger] lines[i], crlf[i]),
    ensures
        lines_of(data, text_start(data)) == lines,
        line_starts(data, text_start(data)).len() == lines.len(),
        forall|k: int|
            0 <= k < lines.len() ==> #[trigger] line_starts(data, text_start(data))[k]
                == mark.len() + joined_lines(lines.take(k), crlf).len(),
    decreases lines.len(),
{
    let init = lines.drop_last();
    let last = lines.last();
    let ending = line_ending(crlf[lines.len() - 1]);
    let before = joined_lines(init, crlf);
    assert(can_be_line(lines[lines.len() - 1], crlf[lines.len() - 1]));
    assert(joined_lines(lines, crlf) =~= before + (last + ending));
    if init.len() == 0 {
        assert(before + (last + ending) =~= last + ending);
        lemma_one_line(data, mark, last, ending, crlf[lines.len() - 1]);
        assert(lines =~= seq![last]);
        assert(lines.take(0) =~= Seq::empty());
    } else {
        let old = mark + before;
        lemma_joined_ends(init, crlf);
        assert(old.last() == before.last());
        assert(data =~= old + (last + ending));
        if mark.len() == 0 && old.len() >= 3 {
            assert(data.take(3) =~= old.take(3));
        }
        assert forall|i: int| 0 <= i < init.len() implies can_be_line(
            #[trigger] init[i],
            crlf[i],
        ) by {
            assert(init[i] == lines[i]);
        }
        lemma_splitting_undoes_joining(old, mark, init, crlf);
        lemma_mark(old, mark, before);
        lemma_mark(data, mark, joined_lines(lines, crlf));
        lemma_line_more(old, data, mark.len() as int, last, ending, crlf[lines.len() - 1]);
        assert(init.push(last) =~= lines);
        let starts = line_starts(data, text_start(data));
        assert forall|k: int| 0 <= k < lines.len() implies #[trigger] starts[k] == mark.len()
            + joined_lines(lines.take(k), crlf).len() by {
            if k < init.len() {
                assert(starts[k] == line_starts(old, text_start(old))[k]);
                assert(init.take(k) =~= lines.take(k));
            } else {
                assert(lines.take(k) =~= init);
            }
        }
    }
}

/// A line starts behind the mark and the lines before it.
proof fn lemma_start_of_line(
    data: Seq<u8>,
    mark: Seq<u8>,
    lines: Seq<Seq<u8>>,
    crlf: Seq<bool>,
    k: int,
)
    requires
        lines.len() > 0,
        lines.len() <= crlf.len(),
        is_marked(data, mark, joined_lines(lines, crlf)),
        forall|i: int| 0 <= i < lines.len() ==> can_be_line(#[trigger] lines[i], crlf[i]),
        0 <= k < lines.len(),
    ensures
        line_starts(data, text_start(data)).len() == lines.len(),
        line_starts(data, text_start(data))[k] == mark.len() + joined_lines(
            lines.take(k),
            crlf,
        ).len(),
{
    lemma_splitting_undoes_joining(data, mark, lines, crlf);
}

/// An offset is in the line whose bytes, with their ending, hold it; the bytes of a byte
/// order mark are in the first line, and what lies behind the file is in the last.
pub proof fn lemma_offsets_fall_into_their_lines(
    data: Seq<u8>,
    mark: Seq<u8>,
    lines: Seq<Seq<u8>>,
    crlf: Seq<bool>,
    k: int,
    off: int,
)
    requires
        lines.len() > 0,
        lines.len() <= crlf.len(),
        is_marked(data, mark, joined_lines(lines, crlf)),
        forall|i: int| 0 <= i < lines.len() ==> can_be_line(#[trigger] lines[i], crlf[i]),
        0 <= k < lines.len(),
        k == 0 || mark.len() + joined_lines(lines.take(k), crlf).len() <= off,
        k + 1 == lines.len() || off < mark.len() + joined_lines(lines.take(k + 1), crlf).len(),
    ensures
        line_at(line_starts(data, text_start(data)), off) == k,
{
    let starts = line_starts(data, text_start(data));
    lemma_start_of_line(data, mark, lines, crlf, k);
    if k + 1 < lines.len() {
        lemma_start_of_line(data, mark, lines, crlf, k + 1);
    }
    assert forall|j: int| k < j < starts.len() implies off < starts[j] by {
        if k + 1 < j {
            lemma_starts_rise(data, text_start(data), k + 1, j);
        }
    }
    lemma_line_at(starts, off, k);
}

/// A last line without a newline is a line too; a carriage return that ends it does not
/// belong to it.
pub proof fn lemma_last_line_may_be_open(
    data: Seq<u8>,
    mark: Seq<u8>,
    lines: Seq<Seq<u8>>,
    crlf: Seq<bool>,
    last: Seq<u8>,
    cr: bool,
)
    requires
        lines.len() <= crlf.len(),
        is_marked(
            data,
            mark,
            joined_lines(lines, crlf) + last + if cr {
                seq![RETURN]
            } else {
                Seq::empty()
            },
        ),
        forall|i: int| 0 <= i < lines.len() ==> can_be_line(#[trigger] lines[i], crlf[i]),
        can_be_line(last, cr),
        last.len() > 0 || cr,
    ensures
        lines_of(data, text_start(data)) == lines.push(last),
{
    let before = joined_lines(lines, crlf);
    let tail: Seq<u8> = if cr {
        seq![RETURN]
    } else {
        Seq::empty()
    };
    assert(before + last + tail =~= before + (last + tail));
    if lines.len() == 0 {
        assert(before + (last + tail) =~= last + tail);
        lemma_one_line(data, mark, last, tail, cr);
        assert(lines.push(last) =~= seq![last]);
    } else {
        let old = mark + before;
        lemma_joined_ends(lines, crlf);
        assert(old.last() == before.last());
        assert(data =~= old + (last + tail));
        if mark.len() == 0 && old.len() >= 3 {
            assert(data.take(3) =~= old.take(3));
        }
        lemma_splitting_undoes_joining(old, mark, lines, crlf);
        lemma_mark(old, mark, before);
        lemma_mark(data, mark, before + (last + tail));
        lemma_line_more(old, data, mark.len() as int, last, tail, cr);
    }
}

/// An open file shows the lines that it was joined from.
pub proof fn lemma_opened_file_shows_its_lines(
    log: LogView,
    source: Source,
    mark: Seq<u8>,
    lines: Seq<Seq<u8>>,
    crlf: Seq<bool>,
)
    requires
        is_opened(log, source),
        lines.len() > 0,
        lines.len() <= crlf.len(),
        is_marked(source.data@, mark, joined_lines(lines, crlf)),
        forall|i: int| 0 <= i < lines.len() ==> can_be_line(#[trigger] lines[i], crlf[i]),
    ensures
        log.lines() == lines,
        log.stats.line_count == lines.len(),
{
    lemma_splitting_undoes_joining(source.data@, mark, lines, crlf);
}

/// The line that is read from any position is what stands there up to the next newline,
/// without a carriage return before it, whatever follows.
pub proof fn lemma_line_from_anywhere(
    data: Seq<u8>,
    before: Seq<u8>,
    line: Seq<u8>,
    crlf: bool,
    rest: Seq<u8>,
)
    requires
        data == before + line + line_ending(crlf) + rest,
        can_be_line(line, crlf),
    ensures
        line_bytes(data, before.len() as int) == line,
        line_end(data, before.len() as int) == before.len() + line.len() + line_ending(crlf).len()
            - 1,
{
    let start = before.len() as int;
    let short = before + line + line_ending(crlf);
    assert(short.skip(start) =~= line + line_ending(crlf));
    lemma_line_read(short, start, line, line_ending(crlf), crlf);
    let e = line_end(short, start);
    lemma_line_end(short, start);
    assert(data =~= short + rest);
    assert forall|i: int| start <= i < e implies data[i] != NEWLINE by {
        assert(data[i] == short[i]);
    }
    assert(short.last() == NEWLINE);
    assert(e < short.len());
    assert(data[e] == short[e]);
    lemma_line_end_is(data, start, e);
    assert(data.subrange(start, e) =~= short.subrange(start, e));
}

/// A file without bytes has no line, and one of a byte order mark alone has one, which is
/// empty.
pub proof fn lemma_files_without_text()
    ensures
        lines_of(Seq::empty(), text_start(Seq::empty())).len() == 0,
        lines_of(seq![0xEFu8, 0xBB, 0xBF], text_start(seq![0xEFu8, 0xBB, 0xBF])) == seq![
            Seq::<u8>::empty(),
        ],
{
    let mark = seq![0xEFu8, 0xBB, 0xBF];
    let none: Seq<u8> = Seq::empty();
    assert(mark =~= mark + (none + none));
    lemma_one_line(mark, mark, none, none, false);
}

} // verus!
