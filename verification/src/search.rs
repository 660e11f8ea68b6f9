//! Searching the bytes of a log file for a pattern, and the lines of the matches.

use vstd::prelude::*;

use crate::lines::{first_line_ok, lemma_line_at, lemma_starts_rise, line_at, line_starts};
use crate::logfile::LogFile;

verus! {

/// Why a search gave nothing.
#[derive(Debug, Clone, Copy, PartialEq, Eq, Structural)]
pub enum SearchError {
    /// There is a match, of nothing at all, in a file without lines.
    NoLines,
}

/// What a search found.
#[derive(Debug, Clone)]
pub struct SearchHits {
    /// The numbers of lines with a match, each one once.
    pub lines: Vec<u64>,
    /// The number of matches, listed or not.
    pub total: u64,
}

/// A compiled regular expression of the `regex` crate, over bytes.
#[verifier::external_type_specification]
#[verifier::external_body]
pub struct ExRegex(regex::bytes::Regex);

/// The offsets at which the successive matches of a compiled regular expression start in
/// `data`.
pub uninterp spec fn regex_starts(re: regex::bytes::Regex, data: Seq<u8>) -> Seq<usize>;

/// Offsets that do not fall and lie within `len` bytes.
pub open spec fn are_match_starts(offsets: Seq<usize>, len: int) -> bool {
    &&& forall|i: int| 0 <= i < offsets.len() ==> #[trigger] offsets[i] <= len
    &&& forall|i: int, j: int| 0 <= i < j < offsets.len() ==> offsets[i] <= offsets[j]
}

/// Gives the start of each match that `regex::bytes::Regex::find_iter` yields on `data`.
/// The matches succeed each other without overlapping, so their starts do not fall, and
/// they lie within `data`.
#[verifier::external_body]
fn find_starts(re: &regex::bytes::Regex, data: &[u8]) -> (out: Vec<usize>)
    ensures
        out@ == regex_starts(*re, data@),
        are_match_starts(out@, data@.len() as int),
{
    re.find_iter(data).map(|m| m.start()).collect()
}

/// A list without repetitions of the element before.
pub open spec fn without_repeats(lines: Seq<int>) -> Seq<int>
    decreases lines.len(),
{
    if lines.len() == 0 {
        Seq::empty()
    } else {
        let init = without_repeats(lines.drop_last());
        if init.len() > 0 && init.last() == lines.last() {
            init
        } else {
            init.push(lines.last())
        }
    }
}

/// The lines that hold the given offsets, in turn.
pub open spec fn lines_at(starts: Seq<int>, offsets: Seq<usize>) -> Seq<int> {
    offsets.map_values(|off: usize| line_at(starts, off as int))
}

/// The first `cap` of the lines that hold the given offsets, each one listed once
/// for matches that follow each other.
pub open spec fn hit_lines(starts: Seq<int>, offsets: Seq<usize>, cap: int) -> Seq<int> {
    let all = without_repeats(lines_at(starts, offsets));
    if all.len() <= cap {
        all
    } else {
        all.take(cap)
    }
}

/// A list of line numbers as plain integers.
pub open spec fn as_ints(lines: Seq<u64>) -> Seq<int> {
    lines.map_values(|line: u64| line as int)
}

impl<'a> LogFile<'a> {
    /// The lines of the matches that start at `offsets`: at most `cap` of them,
    /// without repeating a line for its further matches, and the number of all
    /// matches.
    pub fn search_matches(&self, offsets: &[usize], cap: usize) -> (out: SearchHits)
        requires
            self@.lines().len() > 0 || offsets@.len() == 0 || cap == 0,
        ensures
            as_ints(out.lines@) == hit_lines(self@.starts(), offsets@, cap as int),
            out.total == offsets@.len(),
    {
        let ghost starts = self@.starts();
        let mut lines: Vec<u64> = Vec::new();
        let mut k: usize = 0;
        assert(as_ints(lines@) =~= hit_lines(starts, offsets@.take(0), cap as int));
        while k < offsets.len()
            invariant
                starts == self@.starts(),
                self@.lines().len() > 0 || offsets@.len() == 0 || cap == 0,
                k <= offsets@.len(),
                as_ints(lines@) == hit_lines(starts, offsets@.take(k as int), cap as int),
                lines@.len() <= cap,
            decreases offsets@.len() - k,
        {
            let ghost before = lines_at(starts, offsets@.take(k as int));
            let ghost after = lines_at(starts, offsets@.take(k + 1));
            let ghost listed = lines@;
            proof {
                assert(after.drop_last() =~= before);
                assert(after.last() == line_at(starts, offsets@[k as int] as int));
            }
            if lines.len() < cap {
                let line: u64 = self.line_of_offset(offsets[k] as u64);
                assert(as_ints(lines@) == without_repeats(before));
                let repeated = lines.len() > 0 && lines[lines.len() - 1] == line;
                proof {
                    if lines@.len() > 0 {
                        assert(as_ints(lines@).last() == lines@.last());
                    }
                }
                if !repeated {
                    lines.push(line);
                    assert(as_ints(lines@) =~= as_ints(listed).push(line as int));
                }
            } else {
                proof {
                    let n = without_repeats(before);
                    let m = without_repeats(after);
                    assert(m.take(cap as int) =~= n.take(cap as int));
                    if n.len() == cap {
                        assert(n.take(cap as int) =~= n);
                    }
                    if m.len() == cap {
                        assert(m.take(cap as int) =~= m);
                    }
                }
            }
            k = k + 1;
        }
        assert(offsets@.take(k as int) =~= offsets@);
        SearchHits { lines, total: offsets.len() as u64 }
    }

    /// Searches all bytes for a regular expression. Every match is counted; at most
    /// `cap` lines are listed. It fails only where a match of nothing has no line to be
    /// listed under.
    pub fn search(&self, re: &regex::bytes::Regex, cap: usize) -> (out: Result<
        SearchHits,
        SearchError,
    >)
        ensures
            are_match_starts(regex_starts(*re, self@.data), self@.data.len() as int),
            out is Err <==> self@.lines().len() == 0 && cap > 0 && regex_starts(
                *re,
                self@.data,
            ).len() > 0,
            out matches Ok(hits) ==> {
                let offsets = regex_starts(*re, self@.data);
                &&& as_ints(hits.lines@) == hit_lines(self@.starts(), offsets, cap as int)
                &&& hits.total == offsets.len()
            },
    {
        let offsets: Vec<usize> = find_starts(re, self.data());
        if self.line_count() == 0 && offsets.len() > 0 && cap > 0 {
            Err(SearchError::NoLines)
        } else {
            Ok(self.search_matches(offsets.as_slice(), cap))
        }
    }
}

/// An offset from the start of one line up to the start of the next is in the line.
pub proof fn lemma_offset_in_line(data: Seq<u8>, first: int, i: int, off: int)
    requires
        first_line_ok(data, first),
        0 <= i < line_starts(data, first).len(),
        line_starts(data, first)[i] <= off,
        i + 1 < line_starts(data, first).len() ==> off < line_starts(data, first)[i + 1],
    ensures
        line_at(line_starts(data, first), off) == i,
{
    let starts = line_starts(data, first);
    assert forall|j: int| i < j < starts.len() implies off < starts[j] by {
        if i + 1 < j {
            lemma_starts_rise(data, first, i + 1, j);
        }
    }
    lemma_line_at(starts, off, i);
}

/// A later offset is in no earlier line.
proof fn lemma_line_at_rises(starts: Seq<int>, a: int, b: int)
    requires
        a <= b,
    ensures
        0 <= line_at(starts, a) <= line_at(starts, b),
        starts.len() > 0 ==> line_at(starts, b) < starts.len(),
    decreases starts.len(),
{
    if starts.len() > 1 {
        lemma_line_at_rises(starts.drop_last(), a, b);
    }
}

/// The lines of a search are listed upwards, each one once.
pub proof fn lemma_hits_rise(starts: Seq<int>, offsets: Seq<usize>, len: int, cap: int)
    requires
        are_match_starts(offsets, len),
        0 <= cap,
    ensures
        forall|i: int, j: int|
            0 <= i < j < hit_lines(starts, offsets, cap).len() ==> hit_lines(
                starts,
                offsets,
                cap,
            )[i] < hit_lines(starts, offsets, cap)[j],
{
    lemma_without_repeats_rises(starts, offsets, len);
}

/// The lines that a search lists are those in which a match starts, and all of them
/// where the cap leaves room; a smaller cap lists the first of them.
pub proof fn lemma_hits_are_the_lines_of_matches(
    starts: Seq<int>,
    offsets: Seq<usize>,
    len: int,
    cap: int,
    line: int,
)
    requires
        are_match_starts(offsets, len),
        0 <= cap,
    ensures
        hit_lines(starts, offsets, cap).contains(line) ==> exists|k: int|
            0 <= k < offsets.len() && line_at(starts, #[trigger] offsets[k] as int) == line,
        offsets.len() <= cap ==> forall|k: int|
            0 <= k < offsets.len() && line_at(starts, #[trigger] offsets[k] as int) == line
                ==> hit_lines(starts, offsets, cap).contains(line),
        hit_lines(starts, offsets, cap) == hit_lines(
            starts,
            offsets,
            offsets.len() as int,
        ).take(hit_lines(starts, offsets, cap).len() as int),
        hit_lines(starts, offsets, cap).len() == if hit_lines(
            starts,
            offsets,
            offsets.len() as int,
        ).len() <= cap {
            hit_lines(starts, offsets, offsets.len() as int).len() as int
        } else {
            cap
        },
{
    let at = lines_at(starts, offsets);
    let all = without_repeats(at);
    let listed = hit_lines(starts, offsets, cap);
    lemma_without_repeats_keeps(at, line);
    assert(hit_lines(starts, offsets, offsets.len() as int) == all);
    assert(all.take(all.len() as int) =~= all);
    if listed.contains(line) {
        let i = choose|i: int| 0 <= i < listed.len() && listed[i] == line;
        assert(all[i] == line);
        assert(at.contains(line));
        let k = choose|k: int| 0 <= k < at.len() && at[k] == line;
        assert(line_at(starts, offsets[k] as int) == line);
    }
    if offsets.len() <= cap {
        assert forall|k: int|
            0 <= k < offsets.len() && line_at(starts, #[trigger] offsets[k] as int)
                == line implies listed.contains(line) by {
            assert(at[k] == line);
        }
    }
}

/// One match more, in whatever order the matches come: its line is listed behind the
/// others, unless it is the line that was listed last or the cap is reached.
pub proof fn lemma_one_match_more(
    starts: Seq<int>,
    offsets: Seq<usize>,
    off: usize,
    cap: int,
)
    requires
        0 <= cap,
    ensures
        hit_lines(starts, Seq::empty(), cap).len() == 0,
        ({
            let listed = hit_lines(starts, offsets, cap);
            let line = line_at(starts, off as int);
            hit_lines(starts, offsets.push(off), cap) == if listed.len() == cap || (listed.len() > 0
                && listed.last() == line) {
                listed
            } else {
                listed.push(line)
            }
        }),
{
    let at = lines_at(starts, offsets);
    let after = lines_at(starts, offsets.push(off));
    let line = line_at(starts, off as int);
    assert(lines_at(starts, Seq::empty()) =~= Seq::empty());
    assert(after.drop_last() =~= at);
    assert(after.last() == line);
    let before = without_repeats(at);
    let all = without_repeats(after);
    if before.len() >= cap {
        assert(before.take(cap) =~= all.take(cap));
        assert(before.len() == cap ==> before =~= before.take(cap));
        assert(all.len() == cap ==> all =~= all.take(cap));
    }
}

/// A list without its repetitions holds what the list holds, and is no longer.
proof fn lemma_without_repeats_keeps(lines: Seq<int>, line: int)
    ensures
        without_repeats(lines).len() <= lines.len(),
        without_repeats(lines).contains(line) <==> lines.contains(line),
    decreases lines.len(),
{
    if lines.len() > 0 {
        let init = lines.drop_last();
        let before = without_repeats(init);
        let all = without_repeats(lines);
        lemma_without_repeats_keeps(init, line);
        if lines.contains(line) {
            let k = choose|k: int| 0 <= k < lines.len() && lines[k] == line;
            if k < init.len() {
                assert(init[k] == line);
                let i = choose|i: int| 0 <= i < before.len() && before[i] == line;
                assert(all[i] == line);
            } else {
                assert(all.last() == line);
                assert(all[all.len() - 1] == line);
            }
        }
        if all.contains(line) {
            let i = choose|i: int| 0 <= i < all.len() && all[i] == line;
            if i < before.len() {
                assert(before[i] == line);
                let k = choose|k: int| 0 <= k < init.len() && init[k] == line;
                assert(lines[k] == line);
            } else {
                assert(lines[lines.len() - 1] == line);
            }
        }
    }
}

proof fn lemma_without_repeats_rises(starts: Seq<int>, offsets: Seq<usize>, len: int)
    requires
        are_match_starts(offsets, len),
    ensures
        ({
            let all = without_repeats(lines_at(starts, offsets));
            &&& forall|i: int, j: int| 0 <= i < j < all.len() ==> all[i] < all[j]
            &&& offsets.len() > 0 ==> all.len() > 0 && all.last() == line_at(
                starts,
                offsets.last() as int,
            )
        }),
    decreases offsets.len(),
{
    if offsets.len() > 0 {
        let init = offsets.drop_last();
        lemma_without_repeats_rises(starts, init, len);
        assert(lines_at(starts, offsets).drop_last() =~= lines_at(starts, init));
        let before = without_repeats(lines_at(starts, init));
        let all = without_repeats(lines_at(starts, offsets));
        let line = line_at(starts, offsets.last() as int);
        assert(lines_at(starts, offsets).last() == line);
        if init.len() > 0 {
            assert(init.last() <= offsets.last());
            lemma_line_at_rises(starts, init.last() as int, offsets.last() as int);
            assert(forall|i: int| 0 <= i < before.len() ==> before[i] <= before.last());
        } else {
            assert(before =~= Seq::empty());
        }
        assert(all == if before.len() > 0 && before.last() == line {
            before
        } else {
            before.push(line)
        });
    }
}

} // verus!
