//! What the columns of a file are: their names, their order and their widths.

use vstd::prelude::*;
use vstd::utf8::encode_utf8;

use crate::schema::{
    add_field, add_fields, are_columns, column_at, columns_of, count_nonempty, count_objects,
    lemma_add_fields, lemma_column_at, lemma_columns_of, lemma_sample_bounded, looks_like_jsonl,
    measured, mostly_objects, name_width, sample, sample_end, schema_of, total_len, ColumnView, MAX_COLUMNS,
    MIN_SAMPLE_LINES,
};
use crate::value::{
    clamped, compact_text, display, json_parse, lemma_width_is_exact, width_of, JsonTree, Member,
};

verus! {

/// A number of characters as the width of a column: at least 4, and at most 32.
pub open spec fn as_width(chars: int) -> int {
    if chars <= 4 {
        4
    } else if chars >= 32 {
        32
    } else {
        chars
    }
}

/// A line is an object of which a member has a value under a name.
pub open spec fn has_value(
    lines: Seq<Seq<u8>>,
    name: Seq<char>,
    value: JsonTree,
    line: int,
    member: int,
) -> bool {
    &&& 0 <= line < lines.len()
    &&& json_parse(lines[line]) matches Some(JsonTree::Obj(fields)) && 0 <= member < fields.len()
        && fields[member].key == name && fields[member].value == value
}

/// The width of a column is wide enough for its name and for every value under it, and no
/// wider than one of them needs.
spec fn fits(lines: Seq<Seq<u8>>, column: ColumnView) -> bool {
    &&& as_width(column.name.len() as int) <= as_width(column.width)
    &&& forall|value: JsonTree, l: int, m: int| #[trigger]
        has_value(lines, column.name, value, l, m) ==> as_width(display(value).len() as int)
            <= as_width(column.width)
    &&& as_width(column.width) == as_width(column.name.len() as int) || exists|
        value: JsonTree,
        l: int,
        m: int,
    | #[trigger]
        has_value(lines, column.name, value, l, m) && as_width(column.width) == as_width(
            display(value).len() as int,
        )
}

/// Widths within the bounds of a column.
pub proof fn lemma_bounds_of_widths(width: int)
    ensures
        clamped(width) == as_width(width),
{
}

/// A string is measured by its characters, and any other value by those of its compact
/// text; a string of more than thirty-two characters, and a text of more than two hundred
/// and fifty-six bytes, are measured as one character too wide for any column.
pub proof fn lemma_measured_width(tree: JsonTree, text: Seq<char>)
    ensures
        text.len() <= 32 ==> width_of(JsonTree::Str(text)) == text.len(),
        text.len() > 32 ==> width_of(JsonTree::Str(text)) == 33,
        !(tree is Str) && encode_utf8(compact_text(tree)).len() <= 256 ==> width_of(tree)
            == compact_text(tree).len(),
        !(tree is Str) && encode_utf8(compact_text(tree)).len() > 256 ==> width_of(tree) == 33,
{
}

proof fn lemma_value_width(tree: JsonTree)
    ensures
        as_width(width_of(tree)) == as_width(display(tree).len() as int),
{
    lemma_width_is_exact(tree);
}

/// Field `m` of some fields has a name.
spec fn lists(fields: Seq<(Seq<char>, int)>, name: Seq<char>, m: int) -> bool {
    0 <= m < fields.len() && fields[m].0 == name
}

/// How a column comes of a column before, if there was one, and of fields.
spec fn grows(
    before: Option<ColumnView>,
    fields: Seq<(Seq<char>, int)>,
    column: ColumnView,
) -> bool {
    &&& before matches Some(c) ==> c.name == column.name && c.width <= column.width
    &&& before is None ==> name_width(column.name) <= column.width && exists|m: int| #[trigger]
        lists(fields, column.name, m)
    &&& forall|m: int| #[trigger] lists(fields, column.name, m) ==> fields[m].1 <= column.width
    &&& {
        ||| before matches Some(c) && c.width == column.width
        ||| before is None && column.width == name_width(column.name)
        ||| exists|m: int| #[trigger] lists(fields, column.name, m) && fields[m].1 == column.width
    }
}

/// The column at a place, if there was one.
spec fn column_before(columns: Seq<ColumnView>, i: int) -> Option<ColumnView> {
    if i < columns.len() {
        Some(columns[i])
    } else {
        None
    }
}

proof fn lemma_fields_grow(columns: Seq<ColumnView>, fields: Seq<(Seq<char>, int)>, i: int)
    requires
        are_columns(columns),
        0 <= i < add_fields(columns, fields).len(),
    ensures
        grows(column_before(columns, i), fields, add_fields(columns, fields)[i]),
    decreases fields.len(),
{
    if fields.len() > 0 {
        let init = fields.drop_last();
        let (name, width) = fields.last();
        let mid = add_fields(columns, init);
        let all = add_fields(columns, fields);
        lemma_add_fields(columns, init);
        lemma_column_at(mid, name, 0);
        assert(all == add_field(mid, name, width));
        let column = all[i];
        let last = fields.len() - 1;
        assert forall|m: int| 0 <= m < init.len() implies #[trigger] fields[m] == init[m] by {}
        if i < mid.len() {
            lemma_fields_grow(columns, init, i);
            assert(mid[i].name == column.name);
            assert forall|m: int| #[trigger] lists(fields, column.name, m) implies fields[m].1
                <= column.width by {
                if m < init.len() {
                    assert(lists(init, column.name, m));
                } else if column_at(mid, name, 0) != Some(i) {
                    // Another column would have the same name.
                    let k = column_at(mid, name, 0)->Some_0;
                    assert(mid[k].name == mid[i].name);
                }
            }
            if exists|m: int| #[trigger] lists(init, column.name, m) && init[m].1 == mid[i].width {
                let m = choose|m: int| #[trigger]
                    lists(init, column.name, m) && init[m].1 == mid[i].width;
                assert(lists(fields, column.name, m));
            }
            if column_before(columns, i) is None {
                let m = choose|m: int| #[trigger] lists(init, column.name, m);
                assert(lists(fields, column.name, m));
            }
            if column.width != mid[i].width {
                assert(lists(fields, column.name, last));
            }
        } else {
            assert(column.name == name);
            assert(lists(fields, name, last));
            assert forall|m: int| #[trigger] lists(fields, name, m) implies fields[m].1
                <= column.width by {
                if m < init.len() {
                    assert(lists(init, name, m));
                    lemma_listed_is_column(columns, init, m);
                }
            }
        }
    } else {
        assert(add_fields(columns, fields)[i] == columns[i]);
    }
}

/// A field that was added has a column, where there was room.
proof fn lemma_listed_is_column(columns: Seq<ColumnView>, fields: Seq<(Seq<char>, int)>, m: int)
    requires
        are_columns(columns),
        0 <= m < fields.len(),
        add_fields(columns, fields).len() < MAX_COLUMNS,
    ensures
        column_at(add_fields(columns, fields), fields[m].0, 0) is Some,
    decreases fields.len(),
{
    let init = fields.drop_last();
    let mid = add_fields(columns, init);
    let all = add_fields(columns, fields);
    lemma_add_fields(columns, init);
    lemma_add_fields(columns, fields);
    lemma_column_at(mid, fields.last().0, 0);
    lemma_column_at(all, fields[m].0, 0);
    if m < init.len() {
        assert(fields[m] == init[m]);
        lemma_listed_is_column(columns, init, m);
        lemma_column_at(mid, fields[m].0, 0);
        let k = column_at(mid, fields[m].0, 0)->Some_0;
        assert(all[k].name == mid[k].name);
    } else {
        match column_at(mid, fields.last().0, 0) {
            Some(k) => {
                assert(all[k].name == fields[m].0);
            },
            None => {
                assert(all[mid.len() as int].name == fields[m].0);
            },
        }
    }
}

proof fn lemma_columns_fit(lines: Seq<Seq<u8>>, i: int)
    requires
        0 <= i < columns_of(lines).len(),
    ensures
        fits(lines, columns_of(lines)[i]),
    decreases lines.len(),
{
    let init = lines.drop_last();
    let last = lines.len() - 1;
    let before = columns_of(init);
    let column = columns_of(lines)[i];
    lemma_columns_of(init);
    lemma_columns_of(lines);
    assert forall|value: JsonTree, l: int, m: int| #[trigger]
        has_value(init, column.name, value, l, m) implies has_value(
        lines,
        column.name,
        value,
        l,
        m,
    ) by {
        assert(init[l] == lines[l]);
    }
    if i < before.len() {
        lemma_columns_fit(init, i);
    }
    match json_parse(lines.last()) {
        Some(JsonTree::Obj(members)) => {
            let fields = measured(members);
            lemma_add_fields(before, fields);
            lemma_fields_grow(before, fields, i);
            let old = column_before(before, i);
            assert forall|value: JsonTree, l: int, m: int| #[trigger]
                has_value(lines, column.name, value, l, m) implies as_width(
                display(value).len() as int,
            ) <= as_width(column.width) by {
                lemma_value_width(value);
                if l < last {
                    assert(init[l] == lines[l]);
                    assert(has_value(init, column.name, value, l, m));
                    if i >= before.len() {
                        lemma_name_is_column(init, column.name, value, l, m);
                        // The name would be that of a column before.
                        let k = column_at(before, column.name, 0)->Some_0;
                        lemma_column_at(before, column.name, 0);
                        assert(columns_of(lines)[k].name == column.name);
                    }
                } else {
                    assert(lists(fields, column.name, m));
                    assert(fields[m].1 == width_of(value));
                }
            }
            if exists|m: int| #[trigger]
                lists(fields, column.name, m) && fields[m].1 == column.width {
                let m = choose|m: int| #[trigger]
                    lists(fields, column.name, m) && fields[m].1 == column.width;
                let value = members[m].value;
                lemma_value_width(value);
                assert(has_value(lines, column.name, value, last, m));
            } else if old is Some {
                if as_width(before[i].width) != as_width(column.name.len() as int) {
                    let (value, l, m) = choose|value: JsonTree, l: int, m: int| #[trigger]
                        has_value(init, column.name, value, l, m) && as_width(before[i].width)
                            == as_width(display(value).len() as int);
                    assert(has_value(lines, column.name, value, l, m));
                }
            }
        },
        _ => {
            assert forall|value: JsonTree, l: int, m: int| #[trigger]
                has_value(lines, column.name, value, l, m) implies has_value(
                init,
                column.name,
                value,
                l,
                m,
            ) by {
                if l < last {
                    assert(init[l] == lines[l]);
                }
            }
        },
    }
}

/// A name that a line has a value under is that of a column, where there is room.
proof fn lemma_name_is_column(
    lines: Seq<Seq<u8>>,
    name: Seq<char>,
    value: JsonTree,
    l: int,
    m: int,
)
    requires
        has_value(lines, name, value, l, m),
        columns_of(lines).len() < MAX_COLUMNS,
    ensures
        column_at(columns_of(lines), name, 0) is Some,
    decreases lines.len(),
{
    let init = lines.drop_last();
    let before = columns_of(init);
    let all = columns_of(lines);
    lemma_columns_of(init);
    lemma_column_at(all, name, 0);
    if let Some(JsonTree::Obj(members)) = json_parse(lines.last()) {
        lemma_add_fields(before, measured(members));
    }
    if l < lines.len() - 1 {
        assert(init[l] == lines[l]);
        lemma_name_is_column(init, name, value, l, m);
        lemma_column_at(before, name, 0);
        let k = column_at(before, name, 0)->Some_0;
        assert(all[k].name == name);
    } else {
        let members = json_parse(lines.last())->Some_0->Obj_0;
        assert(measured(members)[m].0 == name);
        lemma_listed_is_column(before, measured(members), m);
    }
}

/// The width of a column is, within its bounds, the greatest of the numbers of characters
/// of its name and of what cells show for the values that the sampled lines have under it:
/// it is at least each of them, and one of them.
pub proof fn lemma_widths_are_greatest(lines: Seq<Seq<u8>>, i: int)
    requires
        schema_of(lines) is Some,
        0 <= i < schema_of(lines)->Some_0.len(),
    ensures
        ({
            let seen = sample(lines, 512, 4194304);
            let column = schema_of(lines)->Some_0[i];
            &&& as_width(column.name.len() as int) <= column.width
            &&& forall|value: JsonTree, l: int, m: int| #[trigger]
                has_value(seen, column.name, value, l, m) ==> as_width(
                    display(value).len() as int,
                ) <= column.width
            &&& column.width == as_width(column.name.len() as int) || exists|
                value: JsonTree,
                l: int,
                m: int,
            | #[trigger]
                has_value(seen, column.name, value, l, m) && column.width == as_width(
                    display(value).len() as int,
                )
        }),
{
    let seen = sample(lines, 512, 4194304);
    lemma_columns_fit(seen, i);
    lemma_bounds_of_widths(columns_of(seen)[i].width);
}

/// More lines make no column narrower.
pub proof fn lemma_columns_do_not_shrink(lines: Seq<Seq<u8>>, line: Seq<u8>, i: int)
    requires
        0 <= i < columns_of(lines).len(),
    ensures
        i < columns_of(lines.push(line)).len(),
        columns_of(lines.push(line))[i].name == columns_of(lines)[i].name,
        columns_of(lines)[i].width <= columns_of(lines.push(line))[i].width,
{
    lemma_columns_of(lines);
    assert(lines.push(line).drop_last() =~= lines);
    if let Some(JsonTree::Obj(fields)) = json_parse(line) {
        lemma_add_fields(columns_of(lines), measured(fields));
        lemma_fields_grow(columns_of(lines), measured(fields), i);
    }
}

proof fn lemma_prefix_columns(lines: Seq<Seq<u8>>, k: int, i: int)
    requires
        0 <= k <= lines.len(),
        0 <= i < columns_of(lines.take(k)).len(),
    ensures
        i < columns_of(lines).len(),
        columns_of(lines)[i].name == columns_of(lines.take(k))[i].name,
        columns_of(lines.take(k))[i].width <= columns_of(lines)[i].width,
    decreases lines.len() - k,
{
    if k < lines.len() {
        assert(lines.take(k).push(lines[k]) =~= lines.take(k + 1));
        lemma_columns_do_not_shrink(lines.take(k), lines[k], i);
        lemma_prefix_columns(lines, k + 1, i);
    } else {
        assert(lines.take(k) =~= lines);
    }
}

proof fn lemma_sample_grows(
    lines: Seq<Seq<u8>>,
    more: Seq<Seq<u8>>,
    limit: int,
    budget: int,
    i: int,
)
    requires
        0 <= i <= limit,
        i <= lines.len(),
    ensures
        sample_end(lines, limit, budget, i) <= sample_end(lines + more, limit, budget, i),
    decreases limit - i,
{
    assert((lines + more).take(i) =~= lines.take(i));
    lemma_sample_full_from(lines + more, limit, budget, i);
    if !(i >= limit || i >= lines.len() || (i >= MIN_SAMPLE_LINES && total_len(lines.take(i))
        >= budget)) {
        lemma_sample_grows(lines, more, limit, budget, i + 1);
    }
}

/// A file with more lines at its end has the columns that it had, in their places, and none
/// of them is narrower.
pub proof fn lemma_more_lines_keep_columns(lines: Seq<Seq<u8>>, more: Seq<Seq<u8>>, i: int)
    requires
        schema_of(lines) is Some,
        schema_of(lines + more) is Some,
        0 <= i < schema_of(lines)->Some_0.len(),
    ensures
        i < schema_of(lines + more)->Some_0.len(),
        schema_of(lines + more)->Some_0[i].name == schema_of(lines)->Some_0[i].name,
        schema_of(lines)->Some_0[i].width <= schema_of(lines + more)->Some_0[i].width,
{
    let seen = sample(lines, 512, 4194304);
    let longer = sample(lines + more, 512, 4194304);
    lemma_sample_grows(lines, more, 512, 4194304, 0);
    lemma_sample_full_from(lines, 512, 4194304, 0);
    lemma_sample_full_from(lines + more, 512, 4194304, 0);
    assert(longer.take(seen.len() as int) =~= seen);
    lemma_prefix_columns(longer, seen.len() as int, i);
}

/// One field more: the first column of its name becomes at least as wide as it and no other
/// changes. A field without a column gets one at the end, as wide as it and its name, of
/// which no more than thirty-three characters count, unless there are sixteen.
pub proof fn lemma_one_field_more(
    columns: Seq<ColumnView>,
    name: Seq<char>,
    width: int,
    k: int,
)
    ensures
        0 <= k < columns.len() && columns[k].name == name && (forall|j: int|
            0 <= j < k ==> (#[trigger] columns[j]).name != name) ==> {
            let after = add_fields(columns, seq![(name, width)]);
            &&& after.len() == columns.len()
            &&& forall|j: int| 0 <= j < columns.len() && j != k ==> #[trigger] after[j] == columns[j]
            &&& after[k].name == name
            &&& after[k].width >= width && after[k].width >= columns[k].width
            &&& after[k].width == width || after[k].width == columns[k].width
        },
        (forall|j: int| 0 <= j < columns.len() ==> (#[trigger] columns[j]).name != name) ==> {
            let after = add_fields(columns, seq![(name, width)]);
            let own = if name.len() <= 33 {
                name.len() as int
            } else {
                33
            };
            &&& columns.len() >= 16 ==> after == columns
            &&& columns.len() < 16 ==> {
                &&& after.drop_last() == columns
                &&& after.last().name == name
                &&& after.last().width >= own && after.last().width >= width
                &&& after.last().width == own || after.last().width == width
            }
        },
{
    let one = seq![(name, width)];
    assert(one.drop_last() =~= Seq::empty());
    assert(add_fields(columns, one.drop_last()) == columns);
    assert(add_fields(columns, one) == add_field(columns, name, width));
    lemma_column_at(columns, name, 0);
    if 0 <= k < columns.len() && columns[k].name == name && (forall|j: int|
        0 <= j < k ==> (#[trigger] columns[j]).name != name) {
        lemma_first_column(columns, name, 0, k);
    }
    if forall|j: int| 0 <= j < columns.len() ==> (#[trigger] columns[j]).name != name {
        if columns.len() < 16 {
            assert(add_field(columns, name, width).drop_last() =~= columns);
        }
    }
}

proof fn lemma_first_column(columns: Seq<ColumnView>, name: Seq<char>, from: int, k: int)
    requires
        0 <= from <= k < columns.len(),
        columns[k].name == name,
        forall|j: int| 0 <= j < k ==> (#[trigger] columns[j]).name != name,
    ensures
        column_at(columns, name, from) == Some(k),
    decreases k - from,
{
    if from < k {
        lemma_first_column(columns, name, from + 1, k);
    }
}

/// The keys of the objects among some lines, in the order in which they stand there.
pub open spec fn keys_seen(lines: Seq<Seq<u8>>) -> Seq<Seq<char>>
    decreases lines.len(),
{
    if lines.len() == 0 {
        Seq::empty()
    } else {
        keys_seen(lines.drop_last()) + match json_parse(lines.last()) {
            Some(JsonTree::Obj(fields)) => fields.map_values(|m: Member| m.key),
            _ => Seq::empty(),
        }
    }
}

/// The first `limit` different elements of a list, in the order in which they first stand
/// there.
pub open spec fn first_different(keys: Seq<Seq<char>>, limit: int) -> Seq<Seq<char>>
    decreases keys.len(),
{
    if keys.len() == 0 {
        Seq::empty()
    } else {
        let before = first_different(keys.drop_last(), limit);
        if before.contains(keys.last()) || before.len() >= limit {
            before
        } else {
            before.push(keys.last())
        }
    }
}

/// The names of some columns.
pub open spec fn names_of(columns: Seq<ColumnView>) -> Seq<Seq<char>> {
    columns.map_values(|c: ColumnView| c.name)
}

proof fn lemma_names_added(
    columns: Seq<ColumnView>,
    fields: Seq<(Seq<char>, int)>,
    keys: Seq<Seq<char>>,
)
    requires
        names_of(columns) == first_different(keys, MAX_COLUMNS as int),
    ensures
        names_of(add_fields(columns, fields)) == first_different(
            keys + fields.map_values(|f: (Seq<char>, int)| f.0),
            MAX_COLUMNS as int,
        ),
    decreases fields.len(),
{
    let more = fields.map_values(|f: (Seq<char>, int)| f.0);
    if fields.len() == 0 {
        assert(keys + more =~= keys);
    } else {
        let init = fields.drop_last();
        let (name, width) = fields.last();
        let mid = add_fields(columns, init);
        lemma_names_added(columns, init, keys);
        let all = keys + more;
        assert(all.drop_last() =~= keys + init.map_values(|f: (Seq<char>, int)| f.0));
        assert(all.last() == name);
        lemma_column_at(mid, name, 0);
        let names = names_of(mid);
        match column_at(mid, name, 0) {
            Some(k) => {
                assert(names[k] == name);
                assert(names_of(add_fields(columns, fields)) =~= names);
            },
            None => {
                if names.contains(name) {
                    let k = choose|k: int| 0 <= k < names.len() && names[k] == name;
                    assert(mid[k].name == name);
                }
                if mid.len() < MAX_COLUMNS {
                    assert(names_of(add_fields(columns, fields)) =~= names.push(name));
                }
            },
        }
    }
}

/// The columns of some lines are the first sixteen different keys of their objects, in the
/// order in which they are first seen.
pub proof fn lemma_columns_are_first_keys(lines: Seq<Seq<u8>>)
    ensures
        names_of(columns_of(lines)) == first_different(keys_seen(lines), 16),
    decreases lines.len(),
{
    if lines.len() == 0 {
        assert(names_of(columns_of(lines)) =~= first_different(keys_seen(lines), 16));
    } else {
        let init = lines.drop_last();
        lemma_columns_are_first_keys(init);
        match json_parse(lines.last()) {
            Some(JsonTree::Obj(fields)) => {
                lemma_names_added(columns_of(init), measured(fields), keys_seen(init));
                assert(measured(fields).map_values(|f: (Seq<char>, int)| f.0) =~= fields.map_values(
                    |m: Member| m.key,
                ));
            },
            _ => {
                assert(keys_seen(lines) =~= keys_seen(init));
            },
        }
    }
}

proof fn lemma_some_are_different(keys: Seq<Seq<char>>)
    ensures
        keys.len() > 0 <==> first_different(keys, 16).len() > 0,
    decreases keys.len(),
{
    if keys.len() > 0 {
        lemma_some_are_different(keys.drop_last());
    }
}

/// A file has a schema exactly where an object among its sampled lines has a key, and not
/// both three or more of its first lines are not empty and fewer than nine in ten of those
/// are objects. It names the first sixteen different keys of the sampled lines.
pub proof fn lemma_schema_names(lines: Seq<Seq<u8>>)
    ensures
        ({
            let seen = sample(lines, 512, 4194304);
            let first = sample(lines, 64, 2097152);
            &&& schema_of(lines) is Some <==> keys_seen(seen).len() > 0 && !(count_nonempty(first)
                >= 3 && 10 * count_objects(first) < 9 * count_nonempty(first))
            &&& schema_of(lines) matches Some(columns) ==> names_of(columns) == first_different(
                keys_seen(seen),
                16,
            )
        }),
{
    let seen = sample(lines, 512, 4194304);
    lemma_columns_are_first_keys(seen);
    lemma_some_are_different(keys_seen(seen));
    assert(names_of(columns_of(seen)).len() == columns_of(seen).len());
    if let Some(columns) = schema_of(lines) {
        assert(names_of(columns) =~= names_of(columns_of(seen)));
    }
}

/// A sample takes the lines in their order from the first on, and goes on until it has
/// `limit` lines, or all, or has six lines and its budget of bytes; it takes no further
/// line then.
pub proof fn lemma_sample_is_full(lines: Seq<Seq<u8>>, limit: int, budget: int)
    requires
        0 <= limit,
    ensures
        ({
            let seen = sample(lines, limit, budget);
            &&& seen.len() <= lines.len()
            &&& seen == lines.take(seen.len() as int)
            &&& {
                ||| seen.len() == limit
                ||| seen.len() == lines.len()
                ||| seen.len() >= 6 && total_len(seen) >= budget
            }
            &&& seen.len() <= limit
            &&& seen.len() > 6 ==> total_len(seen.drop_last()) < budget
        }),
{
    lemma_sample_full_from(lines, limit, budget, 0);
    lemma_sample_bounded(lines, limit, budget);
    let seen = sample(lines, limit, budget);
    if seen.len() > 6 {
        assert(seen.drop_last() =~= lines.take(seen.len() - 1));
    }
}

proof fn lemma_sample_full_from(lines: Seq<Seq<u8>>, limit: int, budget: int, i: int)
    requires
        0 <= i <= limit,
        i <= lines.len(),
    ensures
        ({
            let k = sample_end(lines, limit, budget, i);
            &&& i <= k <= limit
            &&& k <= lines.len()
            &&& k == limit || k == lines.len() || (k >= 6 && total_len(lines.take(k)) >= budget)
        }),
    decreases limit - i,
{
    if !(i >= limit || i >= lines.len() || (i >= MIN_SAMPLE_LINES && total_len(lines.take(i))
        >= budget)) {
        lemma_sample_full_from(lines, limit, budget, i + 1);
    }
}

/// Counting goes line by line: each line that is not empty counts, and each one that is a
/// JSON object; lines add up.
pub proof fn lemma_counts_add_up(a: Seq<Seq<u8>>, line: Seq<u8>, b: Seq<Seq<u8>>)
    ensures
        count_nonempty(Seq::empty()) == 0 && count_objects(Seq::empty()) == 0,
        count_nonempty(a.push(line)) == count_nonempty(a) + if line.len() > 0 {
            1int
        } else {
            0
        },
        count_objects(a.push(line)) == count_objects(a) + if line.len() > 0 && (json_parse(
            line,
        ) matches Some(tree) && tree is Obj) {
            1int
        } else {
            0
        },
        total_len(a.push(line)) == total_len(a) + line.len(),
        count_nonempty(a + b) == count_nonempty(a) + count_nonempty(b),
        count_objects(a + b) == count_objects(a) + count_objects(b),
    decreases b.len(),
{
    assert(a.push(line).drop_last() =~= a);
    if b.len() == 0 {
        assert(a + b =~= a);
    } else {
        assert((a + b).drop_last() =~= a + b.drop_last());
        lemma_counts_add_up(a, line, b.drop_last());
    }
}

/// Lines are mostly objects where there are three or more, and nine in ten of them are.
pub proof fn lemma_mostly_objects(nonempty: int, objects: int)
    ensures
        mostly_objects(nonempty, objects) <==> nonempty >= 3 && 10 * objects >= 9 * nonempty,
{
}

/// A file is told to hold JSON lines exactly where, of its first lines, at least three are
/// not empty and nine in ten of those are objects.
pub proof fn lemma_detection(lines: Seq<Seq<u8>>)
    ensures
        ({
            let first = sample(lines, 64, 2097152);
            looks_like_jsonl(lines) <==> count_nonempty(first) >= 3 && 10 * count_objects(first)
                >= 9 * count_nonempty(first)
        }),
{
}

} // verus!
