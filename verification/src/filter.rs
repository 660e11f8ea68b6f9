//! Filtering lines by the conditions of a query.

use vstd::prelude::*;
use vstd::utf8::encode_utf8;

use crate::chunk::lemma_chunk_len;
use crate::fields::{field_needle, first_value, next_value, written_key, FieldExtractor};
use crate::lines::{
    are_complete, first_line_ok, grown_first, lemma_complete_lines_stay, lines_of,
};
use crate::logfile::LogFile;
use crate::number::{at_most, is_at_most, is_less, less, number_of, read_number, reads_numbers};
use crate::query::{clause_views, texts, Clause, ClauseView, Op};
use crate::screen::{lemma_first_look_misses_nothing, Look};
use crate::search::as_ints;
use crate::text::{
    contains_ascii_ci, contains_fold, eq_ascii_ci, has_prefix_fold, same_fold, starts_with_ascii_ci,
};
use crate::value::{
    cell_display, display, json_parse, layer, navigate, parse_line, value_tree, walk, JsonTree,
    Layer,
};

verus! {

/// A number compares with another as asked. Texts are not compared so.
pub open spec fn number_holds(op: Op, n: u64, t: u64) -> bool {
    match op {
        Op::Gt => less(t, n),
        Op::GtEq => at_most(t, n),
        Op::Lt => less(n, t),
        Op::LtEq => at_most(n, t),
        _ => false,
    }
}

/// Two numbers are there, and compare as asked.
pub open spec fn numbers_hold(op: Op, n: Option<u64>, t: Option<u64>) -> bool {
    match (n, t) {
        (Some(a), Some(b)) => number_holds(op, a, b),
        _ => false,
    }
}

/// Compares two numbers, where both are there.
pub fn compare_numbers(op: Op, n: Option<u64>, t: Option<u64>) -> (out: bool)
    ensures
        out == numbers_hold(op, n, t),
{
    match (n, t) {
        (Some(a), Some(b)) => match op {
            Op::Gt => is_less(b, a),
            Op::GtEq => is_at_most(b, a),
            Op::Lt => is_less(a, b),
            Op::LtEq => is_at_most(a, b),
            _ => false,
        },
        _ => false,
    }
}

/// A text compares with a target as asked: by its letters, whatever their case, or as a
/// number that `num` reads.
pub open spec fn token_holds(
    token: Seq<u8>,
    op: Op,
    target: Seq<char>,
    num: spec_fn(Seq<u8>) -> Option<u64>,
) -> bool {
    match op {
        Op::Eq => same_fold(token, encode_utf8(target)),
        Op::Prefix => has_prefix_fold(token, encode_utf8(target)),
        _ => numbers_hold(op, num(token), num(encode_utf8(target))),
    }
}

/// The numbers that a function reads from texts.
pub open spec fn reader<F: Fn(&[u8]) -> Option<u64>>(numeric: F) -> spec_fn(Seq<u8>) -> Option<
    u64,
> {
    |text: Seq<u8>| number_of(numeric, text)
}

/// Compares the text of a value with a target. A string of digits counts as a number
/// here.
pub fn token_matches<F: Fn(&[u8]) -> Option<u64>>(
    token: &[u8],
    op: Op,
    target: &str,
    numeric: &F,
) -> (out: bool)
    requires
        reads_numbers(*numeric),
    ensures
        out == token_holds(token@, op, target@, reader(*numeric)),
{
    let wanted: &[u8] = target.as_bytes();
    match op {
        Op::Eq => eq_ascii_ci(token, wanted),
        Op::Prefix => starts_with_ascii_ci(token, wanted),
        _ => match read_number(numeric, token) {
            Some(n) => {
                let t: Option<u64> = read_number(numeric, wanted);
                compare_numbers(op, Some(n), t)
            },
            None => false,
        },
    }
}

/// A value compares with a target as asked: by what a cell shows, whatever the case of
/// ASCII letters, or as a number. A string is no number here.
pub open spec fn value_holds(
    tree: JsonTree,
    op: Op,
    target: Seq<char>,
    num: spec_fn(Seq<u8>) -> Option<u64>,
) -> bool {
    match op {
        Op::Eq => same_fold(encode_utf8(display(tree)), encode_utf8(target)),
        Op::Prefix => has_prefix_fold(encode_utf8(display(tree)), encode_utf8(target)),
        _ => match tree {
            JsonTree::Num(text) => numbers_hold(
                op,
                num(encode_utf8(text)),
                num(encode_utf8(target)),
            ),
            _ => false,
        },
    }
}

/// Compares a value with a target.
pub fn compare_val<F: Fn(&[u8]) -> Option<u64>>(
    val: &serde_json::Value,
    op: Op,
    target: &str,
    numeric: &F,
) -> (out: bool)
    requires
        reads_numbers(*numeric),
    ensures
        out == value_holds(value_tree(*val), op, target@, reader(*numeric)),
{
    let wanted: &[u8] = target.as_bytes();
    match op {
        Op::Eq => {
            let shown: String = cell_display(val);
            eq_ascii_ci(shown.as_str().as_bytes(), wanted)
        },
        Op::Prefix => {
            let shown: String = cell_display(val);
            starts_with_ascii_ci(shown.as_str().as_bytes(), wanted)
        },
        _ => match layer(val) {
            Layer::Num(text) => {
                let n: Option<u64> = read_number(numeric, text.as_str().as_bytes());
                let t: Option<u64> = read_number(numeric, wanted);
                compare_numbers(op, n, t)
            },
            _ => false,
        },
    }
}

/// A line meets a condition.
///
/// A word stands in it. A field of one key is the first that is written so. A field that
/// several keys lead to is looked up in the value that the line is, so that how the line
/// writes it does not matter; a line that fails the first look is not parsed for it.
pub open spec fn clause_holds(
    line: Seq<u8>,
    clause: ClauseView,
    num: spec_fn(Seq<u8>) -> Option<u64>,
) -> bool {
    match clause {
        ClauseView::Bare(word) => contains_fold(line, encode_utf8(word)),
        ClauseView::Field { path, op, value } => {
            if path.len() == 1 {
                match next_value(line, written_key(path[0]), 0) {
                    Some((token, _)) => token_holds(token, op, value, num),
                    None => false,
                }
            } else {
                json_parse(line) matches Some(tree) && walk(tree, path) matches Some(inner)
                    && value_holds(inner, op, value, num)
            }
        },
    }
}

/// A line meets all conditions.
pub open spec fn line_holds(
    line: Seq<u8>,
    clauses: Seq<ClauseView>,
    num: spec_fn(Seq<u8>) -> Option<u64>,
) -> bool {
    forall|i: int| 0 <= i < clauses.len() ==> clause_holds(line, #[trigger] clauses[i], num)
}

/// The numbers of the lines from `from` up to `to` that meet all conditions.
pub open spec fn matching(
    lines: Seq<Seq<u8>>,
    clauses: Seq<ClauseView>,
    num: spec_fn(Seq<u8>) -> Option<u64>,
    from: int,
    to: int,
) -> Seq<int>
    decreases to - from,
{
    if from >= to {
        Seq::empty()
    } else {
        let before = matching(lines, clauses, num, from, to - 1);
        if line_holds(lines[to - 1], clauses, num) {
            before.push(to - 1)
        } else {
            before
        }
    }
}

/// A condition made ready for many lines: its key is prepared once.
enum Compiled {
    Bare(Vec<u8>),
    Flat { field: FieldExtractor, op: Op, value: String },
    Deep { look: Option<Look>, path: Vec<String>, op: Op, value: String },
}

/// The condition is made ready.
spec fn is_compiled(compiled: Compiled, clause: ClauseView) -> bool {
    match (compiled, clause) {
        (Compiled::Bare(bytes), ClauseView::Bare(word)) => bytes@ == encode_utf8(word),
        (
            Compiled::Flat { field, op: o, value: v },
            ClauseView::Field { path, op, value },
        ) => path.len() == 1 && field@ == written_key(path[0]) && o == op && v@ == value,
        (
            Compiled::Deep { look, path: p, op: o, value: v },
            ClauseView::Field { path, op, value },
        ) => {
            &&& path.len() != 1
            &&& texts(p@) == path
            &&& o == op
            &&& v@ == value
            &&& look matches Some(l) ==> path.len() > 0 && l.is_for(written_key(path.last()))
        },
        _ => false,
    }
}

fn clone_texts(path: &Vec<String>) -> (out: Vec<String>)
    ensures
        texts(out@) == texts(path@),
{
    let mut copy: Vec<String> = Vec::new();
    let mut i: usize = 0;
    while i < path.len()
        invariant
            i <= path@.len(),
            copy@.len() == i,
            forall|k: int| 0 <= k < i ==> (#[trigger] copy@[k])@ == path@[k]@,
        decreases path@.len() - i,
    {
        copy.push(path[i].clone());
        i = i + 1;
    }
    assert(texts(copy@) =~= texts(path@));
    copy
}

/// Makes a condition ready.
fn compile(clause: &Clause) -> (out: Compiled)
    ensures
        is_compiled(out, clause@),
{
    match clause {
        Clause::Bare(word) => {
            let mut bytes: Vec<u8> = Vec::new();
            bytes.extend_from_slice(word.as_str().as_bytes());
            assert(bytes@ =~= encode_utf8(word@));
            Compiled::Bare(bytes)
        },
        Clause::Field { path, op, value } => {
            if path.len() == 1 {
                assert(texts(path@)[0] == path@[0]@);
                let field = FieldExtractor::new(path[0].as_str());
                Compiled::Flat { field, op: *op, value: value.clone() }
            } else {
                let n: usize = path.len();
                let look = if n > 0 {
                    assert(texts(path@).last() == path@.last()@);
                    let needle: Vec<u8> = field_needle(path[n - 1].as_str());
                    Some(Look::prepare(needle.as_slice()))
                } else {
                    None
                };
                Compiled::Deep { look, path: clone_texts(path), op: *op, value: value.clone() }
            }
        },
    }
}

/// The conditions are made ready, one for one.
spec fn are_compiled(compiled: Seq<Compiled>, clauses: Seq<ClauseView>) -> bool {
    &&& compiled.len() == clauses.len()
    &&& forall|i: int|
        0 <= i < compiled.len() ==> is_compiled(#[trigger] compiled[i], clauses[i])
}

fn compile_all(clauses: &[Clause]) -> (out: Vec<Compiled>)
    ensures
        are_compiled(out@, clause_views(clauses@)),
{
    let mut out: Vec<Compiled> = Vec::new();
    let mut i: usize = 0;
    while i < clauses.len()
        invariant
            i <= clauses@.len(),
            out@.len() == i,
            forall|k: int| 0 <= k < i ==> is_compiled(#[trigger] out@[k], clauses@[k]@),
        decreases clauses@.len() - i,
    {
        out.push(compile(&clauses[i]));
        i = i + 1;
    }
    out
}

fn clause_matches<F: Fn(&[u8]) -> Option<u64>>(
    line: &[u8],
    compiled: &Compiled,
    numeric: &F,
    Ghost(clause): Ghost<ClauseView>,
) -> (out: bool)
    requires
        reads_numbers(*numeric),
        is_compiled(*compiled, clause),
    ensures
        out == clause_holds(line@, clause, reader(*numeric)),
{
    match compiled {
        Compiled::Bare(word) => contains_ascii_ci(line, word.as_slice()),
        Compiled::Flat { field, op, value } => match field.extract(line) {
            Some(token) => token_matches(token, *op, value.as_str(), numeric),
            None => false,
        },
        Compiled::Deep { look, path, op, value } => {
            if let Some(l) = look {
                let ghost keys = texts(path@);
                let ghost num = reader(*numeric);
                if !l.passes(line, *op, value.as_str(), numeric, Ghost(written_key(keys.last()))) {
                    proof {
                        if clause_holds(line@, clause, num) {
                            let tree = json_parse(line@)->Some_0;
                            let inner = walk(tree, keys)->Some_0;
                            lemma_first_look_misses_nothing(
                                line@,
                                tree,
                                keys,
                                inner,
                                *op,
                                value@,
                                num,
                            );
                        }
                    }
                    return false;
                }
            }
            match parse_line(line) {
                None => false,
                Some(parsed) => match navigate(&parsed, path.as_slice()) {
                    None => false,
                    Some(inner) => compare_val(inner, *op, value.as_str(), numeric),
                },
            }
        },
    }
}

fn line_matches<F: Fn(&[u8]) -> Option<u64>>(
    line: &[u8],
    compiled: &Vec<Compiled>,
    numeric: &F,
    Ghost(clauses): Ghost<Seq<ClauseView>>,
) -> (out: bool)
    requires
        reads_numbers(*numeric),
        are_compiled(compiled@, clauses),
    ensures
        out == line_holds(line@, clauses, reader(*numeric)),
{
    let mut i: usize = 0;
    while i < compiled.len()
        invariant
            reads_numbers(*numeric),
            are_compiled(compiled@, clauses),
            i <= clauses.len(),
            forall|k: int|
                0 <= k < i ==> clause_holds(line@, #[trigger] clauses[k], reader(*numeric)),
        decreases clauses.len() - i,
    {
        if !clause_matches(line, &compiled[i], numeric, Ghost(clauses[i as int])) {
            return false;
        }
        i = i + 1;
    }
    true
}

/// The lines from `begin` up to `end` that meet all conditions, by their numbers. Ranges
/// can be filtered side by side and joined in their order.
pub fn filter_range<F: Fn(&[u8]) -> Option<u64>>(
    file: &LogFile,
    clauses: &[Clause],
    begin: u64,
    end: u64,
    numeric: &F,
) -> (out: Vec<u64>)
    requires
        reads_numbers(*numeric),
    ensures
        as_ints(out@) == matching(
            file@.lines(),
            clause_views(clauses@),
            reader(*numeric),
            begin as int,
            if end < file@.lines().len() {
                end as int
            } else {
                file@.lines().len() as int
            },
        ),
{
    let compiled = compile_all(clauses);
    let ghost lines = file@.lines();
    let ghost views = clause_views(clauses@);
    let ghost num = reader(*numeric);
    let count: u64 = file.line_count();
    let stop: u64 = if end < count {
        end
    } else {
        count
    };
    let mut hits: Vec<u64> = Vec::new();
    let mut walk = file.lines_from(begin);
    let mut at: u64 = begin;
    assert(as_ints(hits@) =~= matching(lines, views, num, begin as int, at as int));
    while at < stop
        invariant
            reads_numbers(*numeric),
            num == reader(*numeric),
            are_compiled(compiled@, views),
            stop <= count,
            count == lines.len(),
            begin <= at,
            begin < stop ==> at <= stop,
            begin >= stop ==> at == begin,
            walk@.lines == lines,
            walk@.next == at,
            as_ints(hits@) == matching(lines, views, num, begin as int, at as int),
        decreases stop - at,
    {
        let ghost before = hits@;
        match walk.next() {
            Some((i, line)) => {
                if line_matches(line, &compiled, numeric, Ghost(views)) {
                    hits.push(i);
                    assert(as_ints(hits@) =~= as_ints(before).push(i as int));
                }
            },
            None => {},
        }
        at = at + 1;
    }
    hits
}

/// The lines from `start_line` on that meet all conditions, by their numbers.
pub fn run_filter_from<F: Fn(&[u8]) -> Option<u64>>(
    file: &LogFile,
    clauses: &[Clause],
    start_line: u64,
    numeric: &F,
) -> (out: Vec<u64>)
    requires
        reads_numbers(*numeric),
    ensures
        as_ints(out@) == matching(
            file@.lines(),
            clause_views(clauses@),
            reader(*numeric),
            start_line as int,
            file@.lines().len() as int,
        ),
{
    filter_range(file, clauses, start_line, file.line_count(), numeric)
}

/// All lines that meet all conditions, by their numbers. Without a condition these are
/// all lines.
pub fn run_filter<F: Fn(&[u8]) -> Option<u64>>(
    file: &LogFile,
    clauses: &[Clause],
    numeric: &F,
) -> (out: Vec<u64>)
    requires
        reads_numbers(*numeric),
    ensures
        as_ints(out@) == matching(
            file@.lines(),
            clause_views(clauses@),
            reader(*numeric),
            0,
            file@.lines().len() as int,
        ),
{
    run_filter_from(file, clauses, 0, numeric)
}

/// From this many lines on, a filter runs over several ranges.
pub const PARALLEL_FILTER_THRESHOLD: u64 = 100000;

/// The most ranges that a filter runs over.
pub const MAX_FILTER_THREADS: u64 = 8;

/// `ranges` cuts the lines from `start` up to `total` into adjoining ranges, none of
/// them empty.
pub open spec fn covers(ranges: Seq<(u64, u64)>, start: int, total: int) -> bool {
    &&& ranges.len() == 0 <==> start >= total
    &&& ranges.len() > 0 ==> ranges[0].0 == start && ranges.last().1 == total
    &&& forall|k: int| 0 <= k < ranges.len() ==> (#[trigger] ranges[k]).0 < ranges[k].1 <= total
    &&& forall|k: int| 0 <= k < ranges.len() - 1 ==> (#[trigger] ranges[k]).1 == ranges[k + 1].0
}

/// How many ranges `remaining` lines are filtered in, where `available` threads can run.
pub open spec fn filter_threads(remaining: int, available: int) -> int {
    if remaining < PARALLEL_FILTER_THRESHOLD || available <= 1 {
        1
    } else if available < MAX_FILTER_THREADS {
        available
    } else {
        MAX_FILTER_THREADS as int
    }
}

/// The size of all but the last of the ranges.
pub open spec fn range_len(remaining: int, threads: int) -> int {
    (remaining + threads - 1) / threads
}

/// Cuts the lines from `start` up to `total` into ranges to be filtered side by side.
pub fn plan_filter(start: u64, total: u64, available: u64) -> (out: Vec<(u64, u64)>)
    ensures
        covers(out@, start as int, total as int),
        out@.len() <= filter_threads(total - start, available as int),
        forall|k: int|
            0 <= k < out@.len() - 1 ==> (#[trigger] out@[k]).1 - out@[k].0 == range_len(
                total - start,
                filter_threads(total - start, available as int),
            ),
        out@.len() > 0 ==> out@.last().1 - out@.last().0 <= range_len(
            total - start,
            filter_threads(total - start, available as int),
        ),
{
    let mut ranges: Vec<(u64, u64)> = Vec::new();
    if start >= total {
        return ranges;
    }
    let remaining: u64 = total - start;
    let threads: u64 = if remaining < PARALLEL_FILTER_THRESHOLD || available <= 1 {
        1
    } else if available < MAX_FILTER_THREADS {
        available
    } else {
        MAX_FILTER_THREADS
    };
    proof {
        lemma_chunk_len(remaining as int, threads as int);
    }
    let size: u64 = if remaining % threads == 0 {
        remaining / threads
    } else {
        remaining / threads + 1
    };
    let mut at: u64 = start;
    while at < total
        invariant
            start <= at <= total,
            start < total,
            remaining == total - start,
            threads == filter_threads(remaining as int, available as int),
            threads > 0,
            size == range_len(remaining as int, threads as int),
            size > 0,
            size * threads >= remaining,
            ranges@.len() == 0 <==> at == start,
            ranges@.len() > 0 ==> ranges@[0].0 == start && ranges@.last().1 == at,
            forall|k: int|
                0 <= k < ranges@.len() ==> (#[trigger] ranges@[k]).0 < ranges@[k].1 <= total,
            forall|k: int|
                0 <= k < ranges@.len() - 1 ==> (#[trigger] ranges@[k]).1 == ranges@[k + 1].0,
            forall|k: int|
                0 <= k < ranges@.len() - 1 ==> (#[trigger] ranges@[k]).1 - ranges@[k].0 == size,
            ranges@.len() > 0 ==> ranges@.last().1 - ranges@.last().0 <= size,
            at < total ==> size * ranges@.len() == at - start,
            at < total && ranges@.len() > 0 ==> ranges@.last().1 - ranges@.last().0 == size,
            ranges@.len() <= threads,
        decreases total - at,
    {
        let end: u64 = if total - at > size {
            at + size
        } else {
            total
        };
        proof {
            let n = ranges@.len() as int;
            assert(n < threads) by (nonlinear_arith)
                requires
                    size * n == at - start,
                    at - start < remaining,
                    size * threads >= remaining,
                    size > 0,
            ;
            assert(size * (n + 1) == size * n + size) by (nonlinear_arith);
        }
        ranges.push((at, end));
        at = end;
    }
    ranges
}

/// Some lists, one behind the other.
pub open spec fn joined(lists: Seq<Seq<int>>) -> Seq<int>
    decreases lists.len(),
{
    if lists.len() == 0 {
        Seq::empty()
    } else {
        joined(lists.drop_last()) + lists.last()
    }
}

/// Joins the hits of some ranges in their order.
pub fn join_hits(parts: &[Vec<u64>]) -> (out: Vec<u64>)
    ensures
        as_ints(out@) == joined(parts@.map_values(|part: Vec<u64>| as_ints(part@))),
{
    let ghost lists = parts@.map_values(|part: Vec<u64>| as_ints(part@));
    let mut hits: Vec<u64> = Vec::new();
    let mut k: usize = 0;
    assert(lists.take(0) =~= Seq::empty());
    assert(as_ints(hits@) =~= Seq::empty());
    while k < parts.len()
        invariant
            lists == parts@.map_values(|part: Vec<u64>| as_ints(part@)),
            k <= lists.len(),
            as_ints(hits@) == joined(lists.take(k as int)),
        decreases lists.len() - k,
    {
        let ghost before = hits@;
        hits.extend_from_slice(parts[k].as_slice());
        proof {
            assert(lists.take(k + 1).drop_last() =~= lists.take(k as int));
            assert(hits@ =~= before + parts@[k as int]@);
            assert(as_ints(hits@) =~= as_ints(before) + as_ints(parts@[k as int]@));
        }
        k = k + 1;
    }
    assert(lists.take(k as int) =~= lists);
    hits
}

/// The lines of a filter are numbered upwards and lie within the range.
pub proof fn lemma_matching_rises(
    lines: Seq<Seq<u8>>,
    clauses: Seq<ClauseView>,
    num: spec_fn(Seq<u8>) -> Option<u64>,
    from: int,
    to: int,
)
    ensures
        forall|k: int|
            0 <= k < matching(lines, clauses, num, from, to).len() ==> from <= #[trigger] matching(
                lines,
                clauses,
                num,
                from,
                to,
            )[k] < to,
        forall|j: int, k: int|
            0 <= j < k < matching(lines, clauses, num, from, to).len() ==> matching(
                lines,
                clauses,
                num,
                from,
                to,
            )[j] < matching(lines, clauses, num, from, to)[k],
    decreases to - from,
{
    if from < to {
        lemma_matching_rises(lines, clauses, num, from, to - 1);
        let before = matching(lines, clauses, num, from, to - 1);
        let all = matching(lines, clauses, num, from, to);
        assert forall|k: int| 0 <= k < all.len() implies from <= #[trigger] all[k] < to by {
            if k < before.len() {
                assert(from <= before[k] < to - 1);
            }
        }
        assert forall|j: int, k: int| 0 <= j < k < all.len() implies all[j] < all[k] by {
            assert(from <= before[j] < to - 1);
        }
    }
}

/// A line of the range is listed exactly where it meets all conditions.
pub proof fn lemma_matching_is_exact(
    lines: Seq<Seq<u8>>,
    clauses: Seq<ClauseView>,
    num: spec_fn(Seq<u8>) -> Option<u64>,
    from: int,
    to: int,
    i: int,
)
    requires
        from <= i < to,
    ensures
        matching(lines, clauses, num, from, to).contains(i) <==> line_holds(
            lines[i],
            clauses,
            num,
        ),
    decreases to - from,
{
    let before = matching(lines, clauses, num, from, to - 1);
    let all = matching(lines, clauses, num, from, to);
    if i < to - 1 {
        lemma_matching_is_exact(lines, clauses, num, from, to - 1, i);
        if before.contains(i) {
            let k = choose|k: int| 0 <= k < before.len() && before[k] == i;
            assert(all[k] == i);
        }
        if all.contains(i) {
            let k = choose|k: int| 0 <= k < all.len() && all[k] == i;
            assert(before[k] == i);
        }
    } else {
        lemma_matching_rises(lines, clauses, num, from, to - 1);
        if line_holds(lines[i], clauses, num) {
            assert(all[before.len() as int] == i);
        } else if all.contains(i) {
            let k = choose|k: int| 0 <= k < all.len() && all[k] == i;
            assert(before[k] == i);
        }
    }
}

/// Filtering from line `mid` on gives what filtering everything gives from there on: the
/// hits before it and the hits from it on, joined, are all hits.
pub proof fn lemma_matching_split(
    lines: Seq<Seq<u8>>,
    clauses: Seq<ClauseView>,
    num: spec_fn(Seq<u8>) -> Option<u64>,
    from: int,
    mid: int,
    to: int,
)
    requires
        from <= mid <= to,
    ensures
        matching(lines, clauses, num, from, to) == matching(lines, clauses, num, from, mid)
            + matching(lines, clauses, num, mid, to),
    decreases to - mid,
{
    if mid < to {
        lemma_matching_split(lines, clauses, num, from, mid, to - 1);
    }
    assert(matching(lines, clauses, num, from, to) =~= matching(lines, clauses, num, from, mid)
        + matching(lines, clauses, num, mid, to));
}

/// The hits of ranges that cover some lines, joined in their order, are the hits of those
/// lines.
pub proof fn lemma_ranges_join(
    lines: Seq<Seq<u8>>,
    clauses: Seq<ClauseView>,
    num: spec_fn(Seq<u8>) -> Option<u64>,
    ranges: Seq<(u64, u64)>,
    start: int,
    total: int,
)
    requires
        covers(ranges, start, total),
    ensures
        joined(
            ranges.map_values(
                |r: (u64, u64)| matching(lines, clauses, num, r.0 as int, r.1 as int),
            ),
        ) == matching(lines, clauses, num, start, total),
{
    if ranges.len() > 0 {
        lemma_ranges_join_prefix(lines, clauses, num, ranges, start, total, ranges.len() as int);
        assert(ranges.take(ranges.len() as int) =~= ranges);
    } else {
        assert(ranges.map_values(
            |r: (u64, u64)| matching(lines, clauses, num, r.0 as int, r.1 as int),
        ) =~= Seq::empty());
    }
}

proof fn lemma_ranges_join_prefix(
    lines: Seq<Seq<u8>>,
    clauses: Seq<ClauseView>,
    num: spec_fn(Seq<u8>) -> Option<u64>,
    ranges: Seq<(u64, u64)>,
    start: int,
    total: int,
    k: int,
)
    requires
        covers(ranges, start, total),
        1 <= k <= ranges.len(),
    ensures
        joined(
            ranges.take(k).map_values(
                |r: (u64, u64)| matching(lines, clauses, num, r.0 as int, r.1 as int),
            ),
        ) == matching(lines, clauses, num, start, ranges[k - 1].1 as int),
        start <= ranges[k - 1].0,
    decreases k,
{
    let hits = |r: (u64, u64)| matching(lines, clauses, num, r.0 as int, r.1 as int);
    let lists = ranges.take(k).map_values(hits);
    assert(lists.drop_last() =~= ranges.take(k - 1).map_values(hits));
    assert(lists.last() == hits(ranges[k - 1]));
    if k > 1 {
        lemma_ranges_join_prefix(lines, clauses, num, ranges, start, total, k - 1);
        assert(ranges[k - 2].1 == ranges[k - 1].0);
        lemma_matching_split(
            lines,
            clauses,
            num,
            start,
            ranges[k - 1].0 as int,
            ranges[k - 1].1 as int,
        );
    } else {
        assert(joined(lists.drop_last()) =~= Seq::empty());
        assert(joined(lists) =~= lists.last());
    }
}

/// One condition more: the lines that met the others and meet it too.
pub proof fn lemma_conditions_add_up(
    line: Seq<u8>,
    clauses: Seq<ClauseView>,
    clause: ClauseView,
    num: spec_fn(Seq<u8>) -> Option<u64>,
)
    ensures
        line_holds(line, clauses.push(clause), num) <==> line_holds(line, clauses, num)
            && clause_holds(line, clause, num),
{
    let all = clauses.push(clause);
    if line_holds(line, all, num) {
        assert(clause_holds(line, all[clauses.len() as int], num));
        assert forall|i: int| 0 <= i < clauses.len() implies clause_holds(
            line,
            #[trigger] clauses[i],
            num,
        ) by {
            assert(clause_holds(line, all[i], num));
        }
    }
}

/// A condition that a field of one key begins with a text is the test that
/// [`starts_with_ascii_ci`] makes of the field's value: whoever counts lines by that test
/// counts the lines that the filter shows.
pub proof fn lemma_prefix_condition(
    line: Seq<u8>,
    key: Seq<char>,
    prefix: Seq<char>,
    num: spec_fn(Seq<u8>) -> Option<u64>,
)
    ensures
        clause_holds(
            line,
            ClauseView::Field { path: seq![key], op: Op::Prefix, value: prefix },
            num,
        ) <==> match first_value(line, written_key(key)) {
            Some(value) => has_prefix_fold(value, encode_utf8(prefix)),
            None => false,
        },
{
    assert(seq![key][0] == key);
}

proof fn lemma_matching_agrees(
    a: Seq<Seq<u8>>,
    b: Seq<Seq<u8>>,
    clauses: Seq<ClauseView>,
    num: spec_fn(Seq<u8>) -> Option<u64>,
    from: int,
    to: int,
)
    requires
        forall|i: int| from <= i < to ==> #[trigger] a[i] == b[i],
    ensures
        matching(a, clauses, num, from, to) == matching(b, clauses, num, from, to),
    decreases to - from,
{
    if from < to {
        lemma_matching_agrees(a, b, clauses, num, from, to - 1);
        assert(a[to - 1] == b[to - 1]);
    }
}

/// A file that grew is filtered by filtering the lines behind those that were complete
/// before: the old hits and the new ones, joined, are all hits of the file as it is then
/// opened.
pub proof fn lemma_grown_file_is_filtered_on(
    old: Seq<u8>,
    new: Seq<u8>,
    first: int,
    m: int,
    clauses: Seq<ClauseView>,
    num: spec_fn(Seq<u8>) -> Option<u64>,
)
    requires
        first_line_ok(old, first),
        old.len() == 0 ==> first == 0,
        old.len() < new.len(),
        old == new.take(old.len() as int),
        are_complete(old, first, m),
    ensures
        ({
            let lines = lines_of(new, grown_first(first, old, new));
            matching(lines, clauses, num, 0, lines.len() as int) == matching(
                lines_of(old, first),
                clauses,
                num,
                0,
                m,
            ) + matching(lines, clauses, num, m, lines.len() as int)
        }),
{
    let before = lines_of(old, first);
    let lines = lines_of(new, grown_first(first, old, new));
    assert forall|i: int| 0 <= i < m implies #[trigger] before[i] == lines[i] by {
        lemma_complete_lines_stay(old, new, first, m, i);
    }
    if m > 0 {
        lemma_complete_lines_stay(old, new, first, m, 0);
    }
    lemma_matching_agrees(before, lines, clauses, num, 0, m);
    lemma_matching_split(lines, clauses, num, 0, m, lines.len() as int);
}

/// Hits are joined list by list: no list gives no hit, one list its own, and lists behind
/// others their hits behind those of the others.
pub proof fn lemma_lists_join(a: Seq<Seq<int>>, b: Seq<Seq<int>>, list: Seq<int>)
    ensures
        joined(Seq::empty()) == Seq::<int>::empty(),
        joined(seq![list]) == list,
        joined(a + b) == joined(a) + joined(b),
    decreases b.len(),
{
    assert(seq![list].drop_last() =~= Seq::empty());
    assert(joined(seq![list].drop_last()) =~= Seq::empty());
    assert(joined(seq![list]) =~= list);
    if b.len() == 0 {
        assert(a + b =~= a);
        assert(joined(a + b) =~= joined(a) + joined(b));
    } else {
        lemma_lists_join(a, b.drop_last(), list);
        assert((a + b).drop_last() =~= a + b.drop_last());
        assert(joined(a + b) =~= joined(a) + joined(b));
    }
}

/// Fewer than a hundred thousand lines are filtered as one range, and so are any lines that
/// only one thread can be had for; else there are as many ranges as threads, up to eight.
/// The ranges are no longer than it takes to hold all lines.
pub proof fn lemma_ranges_are_few(remaining: int, available: int)
    requires
        0 < remaining,
        0 <= available,
    ensures
        remaining < 100000 || available <= 1 ==> filter_threads(remaining, available) == 1,
        remaining >= 100000 && 1 < available <= 8 ==> filter_threads(remaining, available)
            == available,
        remaining >= 100000 && available > 8 ==> filter_threads(remaining, available) == 8,
        ({
            let threads = filter_threads(remaining, available);
            let size = range_len(remaining, threads);
            size * threads >= remaining && (size - 1) * threads < remaining
        }),
{
    let threads = filter_threads(remaining, available);
    let size = range_len(remaining, threads);
    lemma_chunk_len(remaining, threads);
    vstd::arithmetic::div_mod::lemma_fundamental_div_mod(remaining + threads - 1, threads);
    assert((size - 1) * threads == threads * size - threads) by (nonlinear_arith);
}

} // verus!
