//! Whether a file holds JSON lines, and the columns of one that does.

use vstd::prelude::*;

use crate::logfile::LogFile;
use crate::value::{
    clamped, json_parse, layer, members, parse_line, value_width, width_of, JsonTree,
    Layer, Member, WIDTH_CLAMP,
};

verus! {

/// A column: a top-level key of the lines.
#[derive(Debug, Clone)]
pub struct Column {
    /// The key.
    pub name: String,
    /// The width at which it is shown, in characters.
    pub width_chars: usize,
}

/// The columns in the order in which their keys are first seen.
#[derive(Debug, Clone)]
pub struct Schema {
    /// The columns.
    pub columns: Vec<Column>,
}

/// What a column is.
#[verifier::ext_equal]
pub struct ColumnView {
    pub name: Seq<char>,
    pub width: int,
}

impl View for Column {
    type V = ColumnView;

    open spec fn view(&self) -> ColumnView {
        ColumnView { name: self.name@, width: self.width_chars as int }
    }
}

/// What some columns are.
pub open spec fn column_views(columns: Seq<Column>) -> Seq<ColumnView> {
    columns.map_values(|c: Column| c@)
}

/// The names of some columns.
pub open spec fn column_names(columns: Seq<Column>) -> Seq<Seq<char>> {
    columns.map_values(|c: Column| c.name@)
}

/// The most lines that are looked at to tell JSON lines.
pub const DETECT_SAMPLE: u64 = 64;

/// The bytes after which no further line is looked at to tell JSON lines.
pub const DETECT_SAMPLE_BYTES: usize = 2097152;

/// The most lines that are looked at for columns.
pub const SCHEMA_SAMPLE: u64 = 512;

/// The bytes after which no further line is looked at for columns.
pub const SCHEMA_SAMPLE_BYTES: usize = 4194304;

/// The lines that are looked at whatever their length.
pub const MIN_SAMPLE_LINES: u64 = 6;

/// The most columns.
pub const MAX_COLUMNS: usize = 16;

/// The number of bytes of some lines.
pub open spec fn total_len(lines: Seq<Seq<u8>>) -> int
    decreases lines.len(),
{
    if lines.len() == 0 {
        0
    } else {
        total_len(lines.drop_last()) + lines.last().len()
    }
}

/// The sampled bytes have reached the budget before line `i`, which is behind the lines
/// that are always looked at.
pub open spec fn budget_spent(lines: Seq<Seq<u8>>, budget: int, i: int) -> bool {
    i >= MIN_SAMPLE_LINES && total_len(lines.take(i)) >= budget
}

/// The number of leading lines that a sample takes, given that it takes the first `i`:
/// up to `limit` lines, unless the budget of bytes is spent before.
pub open spec fn sample_end(lines: Seq<Seq<u8>>, limit: int, budget: int, i: int) -> int
    decreases limit - i,
{
    if i >= limit || i >= lines.len() || budget_spent(lines, budget, i) {
        i
    } else {
        sample_end(lines, limit, budget, i + 1)
    }
}

/// The lines that a sample takes.
pub open spec fn sample(lines: Seq<Seq<u8>>, limit: int, budget: int) -> Seq<Seq<u8>> {
    lines.take(sample_end(lines, limit, budget, 0))
}

/// A line that is a JSON object.
pub open spec fn is_object_line(line: Seq<u8>) -> bool {
    &&& line.len() > 0
    &&& json_parse(line) matches Some(tree) && tree is Obj
}

/// The number of lines that are not empty.
pub open spec fn count_nonempty(lines: Seq<Seq<u8>>) -> int
    decreases lines.len(),
{
    if lines.len() == 0 {
        0
    } else {
        count_nonempty(lines.drop_last()) + if lines.last().len() > 0 {
            1int
        } else {
            0
        }
    }
}

/// The number of lines that are JSON objects.
pub open spec fn count_objects(lines: Seq<Seq<u8>>) -> int
    decreases lines.len(),
{
    if lines.len() == 0 {
        0
    } else {
        count_objects(lines.drop_last()) + if is_object_line(lines.last()) {
            1int
        } else {
            0
        }
    }
}

/// Nine in ten lines are objects.
pub open spec fn nine_in_ten(nonempty: int, objects: int) -> bool {
    10 * objects >= 9 * nonempty
}

/// Three lines or more, nine in ten of them objects.
pub open spec fn mostly_objects(nonempty: int, objects: int) -> bool {
    nonempty >= 3 && nine_in_ten(nonempty, objects)
}

/// The lines of a file look like JSON lines.
pub open spec fn looks_like_jsonl(lines: Seq<Seq<u8>>) -> bool {
    let seen = sample(lines, DETECT_SAMPLE as int, DETECT_SAMPLE_BYTES as int);
    mostly_objects(count_nonempty(seen), count_objects(seen))
}

/// Whether enough lines, and enough of them, are objects.
pub fn are_mostly_objects(nonempty: u64, objects: u64) -> (out: bool)
    ensures
        out == mostly_objects(nonempty as int, objects as int),
{
    nonempty >= 3 && are_nine_in_ten(nonempty, objects)
}

/// Whether nine in ten lines are objects.
fn are_nine_in_ten(nonempty: u64, objects: u64) -> (out: bool)
    ensures
        out == nine_in_ten(nonempty as int, objects as int),
{
    (objects as u128) * 10 >= (nonempty as u128) * 9
}

fn is_object(line: &[u8]) -> (out: bool)
    ensures
        out == (json_parse(line@) matches Some(tree) && tree is Obj),
{
    match parse_line(line) {
        Some(value) => match layer(&value) {
            Layer::Obj(_) => true,
            _ => false,
        },
        None => false,
    }
}

/// Counts the lines that are not empty, and those that are objects, among the first lines
/// of a file.
fn count_first(file: &LogFile) -> (out: (u64, u64))
    ensures
        ({
            let first = sample(file@.lines(), DETECT_SAMPLE as int, DETECT_SAMPLE_BYTES as int);
            out.0 == count_nonempty(first) && out.1 == count_objects(first)
        }),
{
    let ghost lines = file@.lines();
    let ghost limit = DETECT_SAMPLE as int;
    let ghost budget = DETECT_SAMPLE_BYTES as int;
    let count: u64 = file.line_count();
    let mut nonempty: u64 = 0;
    let mut objects: u64 = 0;
    let mut sampled: usize = 0;
    let mut i: u64 = 0;
    assert(lines.take(0) =~= Seq::empty());
    while i < DETECT_SAMPLE && i < count && !(i >= MIN_SAMPLE_LINES && sampled
        >= DETECT_SAMPLE_BYTES)
        invariant
            lines == file@.lines(),
            count == lines.len(),
            limit == DETECT_SAMPLE,
            budget == DETECT_SAMPLE_BYTES,
            i <= count,
            i <= DETECT_SAMPLE,
            sampled == total_len(lines.take(i as int)) || (sampled == usize::MAX && total_len(
                lines.take(i as int),
            ) > usize::MAX),
            nonempty == count_nonempty(lines.take(i as int)),
            objects == count_objects(lines.take(i as int)),
            objects <= nonempty <= i,
            sample_end(lines, limit, budget, i as int) == sample_end(lines, limit, budget, 0),
        decreases DETECT_SAMPLE - i,
    {
        let line: &[u8] = file.line(i);
        proof {
            let next = lines.take(i + 1);
            assert(next.drop_last() =~= lines.take(i as int));
            assert(next.last() == line@);
        }
        sampled = sampled.saturating_add(line.len());
        if line.len() > 0 {
            nonempty = nonempty + 1;
            if is_object(line) {
                objects = objects + 1;
            }
        }
        i = i + 1;
    }
    (nonempty, objects)
}

/// Whether a file holds JSON lines: of the sampled lines that are not empty, of which
/// there must be three, nine in ten are JSON objects.
pub fn detect(file: &LogFile) -> (out: bool)
    ensures
        out == looks_like_jsonl(file@.lines()),
{
    let (nonempty, objects) = count_first(file);
    are_mostly_objects(nonempty, objects)
}

/// The place of the first column of a name, from the `k`-th on.
pub open spec fn column_at(columns: Seq<ColumnView>, name: Seq<char>, k: int) -> Option<int>
    decreases columns.len() - k,
{
    if k >= columns.len() {
        None
    } else if columns[k].name == name {
        Some(k)
    } else {
        column_at(columns, name, k + 1)
    }
}

/// The width of a column without values: that of its name, exact up to the most that a
/// column can have.
pub open spec fn name_width(name: Seq<char>) -> int {
    if name.len() <= WIDTH_CLAMP {
        name.len() as int
    } else {
        WIDTH_CLAMP + 1
    }
}

/// The greater of two widths.
pub open spec fn wider(a: int, b: int) -> int {
    if a >= b {
        a
    } else {
        b
    }
}

/// The columns with one more field: its column becomes wide enough for it. A new column
/// is put at the end, unless there are as many as there may be.
pub open spec fn add_field(columns: Seq<ColumnView>, name: Seq<char>, width: int) -> Seq<
    ColumnView,
> {
    match column_at(columns, name, 0) {
        Some(k) => columns.update(
            k,
            ColumnView { name, width: wider(columns[k].width, width) },
        ),
        None => if columns.len() < MAX_COLUMNS {
            columns.push(ColumnView { name, width: wider(name_width(name), width) })
        } else {
            columns
        },
    }
}

/// The columns with some more fields, in turn.
pub open spec fn add_fields(columns: Seq<ColumnView>, fields: Seq<(Seq<char>, int)>) -> Seq<
    ColumnView,
>
    decreases fields.len(),
{
    if fields.len() == 0 {
        columns
    } else {
        add_field(add_fields(columns, fields.drop_last()), fields.last().0, fields.last().1)
    }
}

/// The names and widths of the members of an object.
pub open spec fn measured(fields: Seq<Member>) -> Seq<(Seq<char>, int)> {
    fields.map_values(|m: Member| (m.key, width_of(m.value)))
}

/// The columns that some lines have: those of their objects, in the order in which they
/// are first seen. Lines that are no objects are passed over.
pub open spec fn columns_of(lines: Seq<Seq<u8>>) -> Seq<ColumnView>
    decreases lines.len(),
{
    if lines.len() == 0 {
        Seq::empty()
    } else {
        let before = columns_of(lines.drop_last());
        match json_parse(lines.last()) {
            Some(JsonTree::Obj(fields)) => add_fields(before, measured(fields)),
            _ => before,
        }
    }
}

/// Columns with their widths within the bounds.
pub open spec fn fitted(columns: Seq<ColumnView>) -> Seq<ColumnView> {
    columns.map_values(|c: ColumnView| ColumnView { name: c.name, width: clamped(c.width) })
}

/// The first lines of a file, of which there are enough to tell, show that it does not
/// hold JSON lines.
pub open spec fn is_told_other(lines: Seq<Seq<u8>>) -> bool {
    let first = sample(lines, DETECT_SAMPLE as int, DETECT_SAMPLE_BYTES as int);
    count_nonempty(first) >= 3 && !nine_in_ten(count_nonempty(first), count_objects(first))
}

/// The columns of a file: those of the objects among its sampled lines, if they have any
/// and the file is not told to hold other lines.
pub open spec fn schema_of(lines: Seq<Seq<u8>>) -> Option<Seq<ColumnView>> {
    let seen = sample(lines, SCHEMA_SAMPLE as int, SCHEMA_SAMPLE_BYTES as int);
    let columns = columns_of(seen);
    if columns.len() == 0 || is_told_other(lines) {
        None
    } else {
        Some(fitted(columns))
    }
}

/// The columns of an optional schema.
pub open spec fn schema_view(schema: Option<Schema>) -> Option<Seq<ColumnView>> {
    match schema {
        Some(s) => Some(column_views(s.columns@)),
        None => None,
    }
}

fn find_column(columns: &Vec<Column>, name: &String) -> (out: Option<usize>)
    ensures
        match out {
            Some(k) => column_at(column_views(columns@), name@, 0) == Some(k as int) && k
                < columns@.len() && columns@[k as int].name@ == name@,
            None => column_at(column_views(columns@), name@, 0) is None,
        },
{
    let ghost views = column_views(columns@);
    let mut k: usize = 0;
    while k < columns.len()
        invariant
            views == column_views(columns@),
            k <= views.len(),
            column_at(views, name@, k as int) == column_at(views, name@, 0),
        decreases views.len() - k,
    {
        assert(views[k as int] == columns@[k as int]@);
        if columns[k].name == *name {
            return Some(k);
        }
        k = k + 1;
    }
    None
}

/// The characters of a name, counted no further than needed.
fn measure_name(name: &String) -> (out: usize)
    ensures
        out == name_width(name@),
{
    crate::value::count_chars(name.as_str(), WIDTH_CLAMP + 1)
}

/// Adds the fields of a line, each a name and the width of its value, to the columns.
pub fn merge_fields(columns: &mut Vec<Column>, fields: &[(String, usize)])
    ensures
        column_views(final(columns)@) == add_fields(
            column_views(old(columns)@),
            field_views(fields@),
        ),
{
    let ghost before = column_views(columns@);
    let ghost wanted = field_views(fields@);
    let mut i: usize = 0;
    assert(wanted.take(0) =~= Seq::empty());
    while i < fields.len()
        invariant
            wanted == field_views(fields@),
            i <= wanted.len(),
            column_views(columns@) == add_fields(before, wanted.take(i as int)),
        decreases wanted.len() - i,
    {
        let ghost now = column_views(columns@);
        let name: &String = &fields[i].0;
        let width: usize = fields[i].1;
        proof {
            assert(wanted.take(i + 1).drop_last() =~= wanted.take(i as int));
            assert(wanted.take(i + 1).last() == (name@, width as int));
        }
        match find_column(columns, name) {
            Some(k) => {
                if columns[k].width_chars < width {
                    columns[k].width_chars = width;
                }
                assert(column_views(columns@) =~= add_field(now, name@, width as int));
            },
            None => {
                if columns.len() < MAX_COLUMNS {
                    let own: usize = measure_name(name);
                    let width_chars: usize = if own >= width {
                        own
                    } else {
                        width
                    };
                    columns.push(Column { name: name.clone(), width_chars });
                    assert(column_views(columns@) =~= add_field(now, name@, width as int));
                }
            },
        }
        i = i + 1;
    }
    assert(wanted.take(i as int) =~= wanted);
}

/// What some names and widths are.
pub open spec fn field_views(fields: Seq<(String, usize)>) -> Seq<(Seq<char>, int)> {
    fields.map_values(|f: (String, usize)| (f.0@, f.1 as int))
}

fn measure_fields(line: &[u8]) -> (out: Option<Vec<(String, usize)>>)
    ensures
        match json_parse(line@) {
            Some(JsonTree::Obj(fields)) => out is Some && field_views(out->Some_0@) == measured(
                fields,
            ),
            _ => out is None,
        },
{
    let value = match parse_line(line) {
        Some(value) => value,
        None => {
            return None;
        },
    };
    match layer(&value) {
        Layer::Obj(pairs) => {
            let ghost fields = members(pairs@);
            let mut out: Vec<(String, usize)> = Vec::new();
            let mut i: usize = 0;
            while i < pairs.len()
                invariant
                    fields == members(pairs@),
                    i <= pairs@.len(),
                    out@.len() == i,
                    forall|k: int|
                        0 <= k < i ==> (#[trigger] out@[k]).0@ == fields[k].key && out@[k].1
                            == width_of(fields[k].value),
                decreases pairs@.len() - i,
            {
                out.push((pairs[i].0.clone(), value_width(pairs[i].1)));
                i = i + 1;
            }
            assert(field_views(out@) =~= measured(fields));
            Some(out)
        },
        _ => None,
    }
}

/// A schema of the columns found, with their widths within the bounds; none without a
/// column.
pub fn finish_schema(columns: Vec<Column>) -> (out: Option<Schema>)
    ensures
        columns@.len() == 0 <==> out is None,
        out is Some ==> schema_view(out) == Some(fitted(column_views(columns@))),
{
    if columns.len() == 0 {
        return None;
    }
    let ghost before = column_views(columns@);
    let mut columns = columns;
    let mut i: usize = 0;
    while i < columns.len()
        invariant
            i <= columns@.len(),
            columns@.len() == before.len(),
            forall|k: int| 0 <= k < i ==> (#[trigger] columns@[k])@ == fitted(before)[k],
            forall|k: int| i <= k < before.len() ==> (#[trigger] columns@[k])@ == before[k],
        decreases before.len() - i,
    {
        let width: usize = columns[i].width_chars;
        columns[i].width_chars = if width < 4 {
            4
        } else if width > WIDTH_CLAMP {
            WIDTH_CLAMP
        } else {
            width
        };
        i = i + 1;
    }
    assert(column_views(columns@) =~= fitted(before));
    Some(Schema { columns })
}

/// Finds the columns of a file of JSON lines in a sample of its lines; lines that are no
/// objects are passed over. A file whose first lines tell that it holds others has no
/// columns.
pub fn discover_schema(file: &LogFile) -> (out: Option<Schema>)
    ensures
        schema_view(out) == schema_of(file@.lines()),
{
    let (nonempty, objects) = count_first(file);
    if nonempty >= 3 && !are_nine_in_ten(nonempty, objects) {
        return None;
    }
    let ghost lines = file@.lines();
    let ghost limit = SCHEMA_SAMPLE as int;
    let ghost budget = SCHEMA_SAMPLE_BYTES as int;
    let count: u64 = file.line_count();
    let mut columns: Vec<Column> = Vec::new();
    let mut sampled: usize = 0;
    let mut i: u64 = 0;
    assert(lines.take(0) =~= Seq::empty());
    assert(column_views(columns@) =~= Seq::empty());
    while i < SCHEMA_SAMPLE && i < count && !(i >= MIN_SAMPLE_LINES && sampled
        >= SCHEMA_SAMPLE_BYTES)
        invariant
            lines == file@.lines(),
            count == lines.len(),
            limit == SCHEMA_SAMPLE,
            budget == SCHEMA_SAMPLE_BYTES,
            i <= count,
            i <= SCHEMA_SAMPLE,
            sampled == total_len(lines.take(i as int)) || (sampled == usize::MAX && total_len(
                lines.take(i as int),
            ) > usize::MAX),
            column_views(columns@) == columns_of(lines.take(i as int)),
            sample_end(lines, limit, budget, i as int) == sample_end(lines, limit, budget, 0),
        decreases SCHEMA_SAMPLE - i,
    {
        let line: &[u8] = file.line(i);
        proof {
            let next = lines.take(i + 1);
            assert(next.drop_last() =~= lines.take(i as int));
            assert(next.last() == line@);
        }
        sampled = sampled.saturating_add(line.len());
        if let Some(fields) = measure_fields(line) {
            merge_fields(&mut columns, fields.as_slice());
        }
        i = i + 1;
    }
    finish_schema(columns)
}

pub(crate) proof fn lemma_column_at(columns: Seq<ColumnView>, name: Seq<char>, k: int)
    requires
        0 <= k,
    ensures
        match column_at(columns, name, k) {
            Some(i) => k <= i < columns.len() && columns[i].name == name,
            None => forall|i: int| k <= i < columns.len() ==> (#[trigger] columns[i]).name != name,
        },
    decreases columns.len() - k,
{
    if k < columns.len() && columns[k].name != name {
        lemma_column_at(columns, name, k + 1);
    }
}

/// No two columns have one name, and there are not too many.
pub open spec fn are_columns(columns: Seq<ColumnView>) -> bool {
    &&& columns.len() <= MAX_COLUMNS
    &&& forall|i: int, j: int|
        0 <= i < j < columns.len() ==> (#[trigger] columns[i]).name != (#[trigger] columns[j]).name
}

pub(crate) proof fn lemma_add_fields(columns: Seq<ColumnView>, fields: Seq<(Seq<char>, int)>)
    requires
        are_columns(columns),
    ensures
        are_columns(add_fields(columns, fields)),
        columns.len() <= add_fields(columns, fields).len(),
        forall|i: int|
            0 <= i < columns.len() ==> (#[trigger] add_fields(columns, fields)[i]).name
                == columns[i].name,
    decreases fields.len(),
{
    if fields.len() > 0 {
        lemma_add_fields(columns, fields.drop_last());
        lemma_column_at(add_fields(columns, fields.drop_last()), fields.last().0, 0);
    }
}

pub(crate) proof fn lemma_columns_of(lines: Seq<Seq<u8>>)
    ensures
        are_columns(columns_of(lines)),
    decreases lines.len(),
{
    if lines.len() > 0 {
        lemma_columns_of(lines.drop_last());
        if let Some(JsonTree::Obj(fields)) = json_parse(lines.last()) {
            lemma_add_fields(columns_of(lines.drop_last()), measured(fields));
        }
    }
}

/// A schema has at least one column and no more than may be, each one under a name of
/// its own and with a width within the bounds.
pub proof fn lemma_schema_bounds(lines: Seq<Seq<u8>>)
    ensures
        schema_of(lines) matches Some(columns) ==> {
            &&& 1 <= columns.len()
            &&& are_columns(columns)
            &&& forall|i: int|
                0 <= i < columns.len() ==> 4 <= (#[trigger] columns[i]).width <= WIDTH_CLAMP
        },
{
    lemma_columns_of(sample(lines, SCHEMA_SAMPLE as int, SCHEMA_SAMPLE_BYTES as int));
}

/// A file that is told to hold JSON lines has the columns that its sampled lines have, and
/// one that is told to hold others has none.
pub proof fn lemma_detection_decides_columns(lines: Seq<Seq<u8>>)
    ensures
        looks_like_jsonl(lines) ==> !is_told_other(lines),
        looks_like_jsonl(lines) && columns_of(
            sample(lines, SCHEMA_SAMPLE as int, SCHEMA_SAMPLE_BYTES as int),
        ).len() > 0 ==> schema_of(lines) is Some,
        is_told_other(lines) ==> schema_of(lines) is None,
{
}

/// More lines keep the columns that were found, in their places.
pub proof fn lemma_columns_stay(lines: Seq<Seq<u8>>, line: Seq<u8>)
    ensures
        columns_of(lines).len() <= columns_of(lines.push(line)).len(),
        forall|i: int|
            0 <= i < columns_of(lines).len() ==> (#[trigger] columns_of(lines.push(line))[i]).name
                == columns_of(lines)[i].name,
{
    lemma_columns_of(lines);
    assert(lines.push(line).drop_last() =~= lines);
    if let Some(JsonTree::Obj(fields)) = json_parse(line) {
        lemma_add_fields(columns_of(lines), measured(fields));
    }
}

/// A sample is bounded in its lines and in its bytes: without its last line it is under
/// the budget, but for the lines that are always looked at.
pub proof fn lemma_sample_bounded(lines: Seq<Seq<u8>>, limit: int, budget: int)
    requires
        0 <= limit,
    ensures
        ({
            let k = sample_end(lines, limit, budget, 0);
            &&& 0 <= k <= limit
            &&& k <= lines.len()
            &&& k > MIN_SAMPLE_LINES ==> total_len(lines.take(k - 1)) < budget
        }),
{
    lemma_sample_end(lines, limit, budget, 0);
}

proof fn lemma_sample_end(lines: Seq<Seq<u8>>, limit: int, budget: int, i: int)
    requires
        0 <= i <= limit,
        i <= lines.len(),
        i > MIN_SAMPLE_LINES ==> !budget_spent(lines, budget, i - 1),
    ensures
        ({
            let k = sample_end(lines, limit, budget, i);
            &&& i <= k <= limit
            &&& k <= lines.len()
            &&& k > MIN_SAMPLE_LINES ==> !budget_spent(lines, budget, k - 1)
        }),
    decreases limit - i,
{
    if !(i >= limit || i >= lines.len() || budget_spent(lines, budget, i)) {
        lemma_sample_end(lines, limit, budget, i + 1);
    }
}

} // verus!
