//! What a line unfolds to, and where a path leads within it.

use vstd::prelude::*;

use crate::text::{bracketed, decimal, digits_value, is_digit, position_of, unsigned};
use crate::value::{
    compact_text, container_rows, display, flattened, is_container, item_rows, member_rows,
    member_value, rows_of, step, walk, JsonTree, Member, RowView,
};

verus! {

/// The character of a digit.
pub open spec fn digit_of(d: nat) -> char {
    seq!['0', '1', '2', '3', '4', '5', '6', '7', '8', '9'][d as int]
}

/// A number below ten is written by its digit, and ten times another number with one digit
/// more by that number's digits and this digit.
pub proof fn lemma_decimal_digits(n: nat, d: nat)
    requires
        d < 10,
    ensures
        decimal(d) == seq![digit_of(d)],
        n > 0 ==> decimal(10 * n + d) == decimal(n).push(digit_of(d)),
{
    assert((10 * n + d) % 10 == d && (10 * n + d) / 10 == n) by (nonlinear_arith)
        requires
            d < 10,
    ;
}

proof fn lemma_decimal_reads(n: nat)
    ensures
        decimal(n).len() > 0,
        forall|i: int| 0 <= i < decimal(n).len() ==> '0' <= #[trigger] decimal(n)[i] <= '9',
        digits_value(decimal(n)) == n,
        n > 0 ==> decimal(n)[0] != '0',
    decreases n,
{
    let digits = decimal(n);
    if n >= 10 {
        lemma_decimal_reads(n / 10);
        assert(digits.drop_last() =~= decimal(n / 10));
        assert(digits[0] == decimal(n / 10)[0]);
        assert forall|i: int| 0 <= i < digits.len() implies '0' <= #[trigger] digits[i]
            <= '9' by {
            if i < digits.len() - 1 {
                assert(digits[i] == decimal(n / 10)[i]);
            }
        }
    } else {
        assert(digits.drop_last() =~= Seq::empty());
        assert(digits_value(digits.drop_last()) == 0);
    }
}

/// The decimal digits of a position are read as that position, with or without a plus
/// sign before them; they begin with no zero, but for the digit of zero itself. A number
/// beyond all positions is not read.
pub proof fn lemma_positions_read_back(n: nat)
    ensures
        n <= usize::MAX ==> position_of(decimal(n)) == Some(n as int),
        n <= usize::MAX ==> position_of(seq!['+'] + decimal(n)) == Some(n as int),
        n > usize::MAX ==> position_of(decimal(n)) is None,
        n > usize::MAX ==> position_of(seq!['+'] + decimal(n)) is None,
        n > 0 ==> decimal(n)[0] != '0',
{
    lemma_decimal_reads(n);
    assert(unsigned(decimal(n)) == decimal(n));
    assert((seq!['+'] + decimal(n)).skip(1) =~= decimal(n));
}

/// Zeros before the digits of a position do not matter.
pub proof fn lemma_leading_zeros(digits: Seq<char>)
    requires
        digits.len() > 0,
        forall|i: int| 0 <= i < digits.len() ==> '0' <= #[trigger] digits[i] <= '9',
    ensures
        position_of(seq!['0'] + digits) == position_of(digits),
{
    let all = seq!['0'] + digits;
    lemma_zero_before(digits);
    assert forall|i: int| 0 <= i < all.len() implies is_digit(#[trigger] all[i]) by {
        if i > 0 {
            assert(all[i] == digits[i - 1]);
        }
    }
    assert forall|i: int| 0 <= i < digits.len() implies is_digit(#[trigger] digits[i]) by {}
    assert('0' <= digits[0] <= '9');
}

proof fn lemma_zero_before(digits: Seq<char>)
    ensures
        digits_value(seq!['0'] + digits) == digits_value(digits),
    decreases digits.len(),
{
    let all = seq!['0'] + digits;
    if digits.len() > 0 {
        lemma_zero_before(digits.drop_last());
        assert(all.drop_last() =~= seq!['0'] + digits.drop_last());
    } else {
        assert(all.drop_last() =~= Seq::empty());
        assert(digits_value(all.drop_last()) == 0);
    }
}

/// A text with anything but digits behind its plus sign, if it has one, or without a
/// digit, is no position.
pub proof fn lemma_other_texts_are_no_positions(text: Seq<char>, i: int)
    ensures
        text.len() == 0 ==> position_of(text) is None,
        text == seq!['+'] ==> position_of(text) is None,
        0 <= i < text.len() && !('0' <= text[i] <= '9') && !(i == 0 && text[i] == '+')
            ==> position_of(text) is None,
{
    if text == seq!['+'] {
        assert(unsigned(text).len() == 0);
    }
    if 0 <= i < text.len() && !('0' <= text[i] <= '9') && !(i == 0 && text[i] == '+') {
        let digits = unsigned(text);
        let k = i - (text.len() - digits.len());
        assert(digits[k] == text[i]);
        assert(!is_digit(digits[k]));
    }
}

/// A key leads to the member of an object that has it, and nowhere where none has it; where
/// several have it, to the first.
pub proof fn lemma_key_leads_to_member(fields: Seq<Member>, key: Seq<char>, i: int)
    ensures
        0 <= i < fields.len() && fields[i].key == key && (forall|j: int|
            0 <= j < i ==> (#[trigger] fields[j]).key != key) ==> step(
            JsonTree::Obj(fields),
            key,
        ) == Some(fields[i].value),
        (forall|j: int| 0 <= j < fields.len() ==> (#[trigger] fields[j]).key != key) ==> step(
            JsonTree::Obj(fields),
            key,
        ) is None,
{
    lemma_member_from(fields, key, 0, i);
}

proof fn lemma_member_from(fields: Seq<Member>, key: Seq<char>, k: int, i: int)
    requires
        0 <= k,
    ensures
        k <= i < fields.len() && fields[i].key == key && (forall|j: int|
            k <= j < i ==> (#[trigger] fields[j]).key != key) ==> member_value(fields, key, k)
            == Some(fields[i].value),
        (forall|j: int| k <= j < fields.len() ==> (#[trigger] fields[j]).key != key)
            ==> member_value(fields, key, k) is None,
    decreases fields.len() - k,
{
    if k < fields.len() {
        lemma_member_from(fields, key, k + 1, i);
    }
}

/// A position leads to the item of an array that stands there, counted from zero, and
/// nowhere behind the last item.
pub proof fn lemma_position_leads_to_item(items: Seq<JsonTree>, i: nat)
    ensures
        i < items.len() && i <= usize::MAX ==> step(JsonTree::Arr(items), decimal(i)) == Some(items[i as int]),
        i >= items.len() ==> step(JsonTree::Arr(items), decimal(i)) is None,
{
    lemma_positions_read_back(i);
}

/// Within an array, what is no position leads nowhere; within a value that is neither an
/// object nor an array, everything does.
pub proof fn lemma_nothing_lies_within(tree: JsonTree, segment: Seq<char>)
    ensures
        tree is Arr && position_of(segment) is None ==> step(tree, segment) is None,
        !(tree is Arr) && !(tree is Obj) ==> step(tree, segment) is None,
{
}

/// The empty path leads to the value itself, a path of one segment one step into it, and
/// one path behind another to where the second leads from where the first leads.
pub proof fn lemma_paths_join(tree: JsonTree, path: Seq<Seq<char>>, more: Seq<Seq<char>>)
    ensures
        walk(tree, Seq::empty()) == Some(tree),
        path.len() == 1 ==> walk(tree, path) == step(tree, path[0]),
        walk(tree, path + more) == match walk(tree, path) {
            Some(inner) => walk(inner, more),
            None => None,
        },
    decreases path.len(),
{
    if path.len() == 0 {
        assert(path + more =~= more);
    } else {
        assert((path + more).skip(1) =~= path.skip(1) + more);
        if let Some(inner) = step(tree, path[0]) {
            lemma_paths_join(inner, path.skip(1), more);
            assert(path.len() == 1 ==> path.skip(1) =~= Seq::empty());
        }
    }
}

/// A string is shown by its text, and any other value by its compact JSON text.
pub proof fn lemma_shown(tree: JsonTree, text: Seq<char>)
    ensures
        display(JsonTree::Str(text)) == text,
        !(tree is Str) ==> display(tree) == compact_text(tree),
{
}

/// The first row of a value is its own, under its label, at its depth. It is the only one
/// of a value that is neither an object nor an array; all others are deeper.
pub proof fn lemma_first_row(label: Seq<char>, tree: JsonTree, depth: int)
    ensures
        rows_of(label, tree, depth).len() >= 1,
        rows_of(label, tree, depth)[0].depth == depth,
        rows_of(label, tree, depth)[0].label == label,
        rows_of(label, tree, depth)[0].value == display(tree),
        !(tree is Obj) && !(tree is Arr) ==> rows_of(label, tree, depth).len() == 1,
        forall|k: int|
            1 <= k < rows_of(label, tree, depth).len() ==> (#[trigger] rows_of(
                label,
                tree,
                depth,
            )[k]).depth > depth,
    decreases tree, 1int,
{
    match tree {
        JsonTree::Obj(fields) => {
            assert(decreases_to!(tree => fields));
            lemma_member_depths(fields, depth + 1);
            assert forall|k: int| 1 <= k < rows_of(label, tree, depth).len() implies (
            #[trigger] rows_of(label, tree, depth)[k]).depth > depth by {
                assert(rows_of(label, tree, depth)[k] == member_rows(fields, depth + 1)[k - 1]);
            }
        },
        JsonTree::Arr(items) => {
            assert(decreases_to!(tree => items));
            lemma_item_depths(items, depth + 1);
            assert forall|k: int| 1 <= k < rows_of(label, tree, depth).len() implies (
            #[trigger] rows_of(label, tree, depth)[k]).depth > depth by {
                assert(rows_of(label, tree, depth)[k] == item_rows(items, depth + 1)[k - 1]);
            }
        },
        _ => {},
    }
}

proof fn lemma_member_depths(fields: Seq<Member>, depth: int)
    ensures
        forall|k: int|
            0 <= k < member_rows(fields, depth).len() ==> (#[trigger] member_rows(
                fields,
                depth,
            )[k]).depth >= depth,
    decreases fields, 0int,
{
    if fields.len() > 0 {
        let init = fields.drop_last();
        let last = fields.last();
        let before = member_rows(init, depth);
        assert(decreases_to!(fields => init));
        lemma_member_depths(init, depth);
        assert(decreases_to!(fields => fields[fields.len() - 1]));
        assert(decreases_to!(last => last.value));
        lemma_first_row(last.key, last.value, depth);
        let rows = rows_of(last.key, last.value, depth);
        assert forall|k: int| 0 <= k < member_rows(fields, depth).len() implies (
        #[trigger] member_rows(fields, depth)[k]).depth >= depth by {
            if k < before.len() {
                assert(member_rows(fields, depth)[k] == before[k]);
            } else {
                assert(member_rows(fields, depth)[k] == rows[k - before.len()]);
            }
        }
    }
}

proof fn lemma_item_depths(items: Seq<JsonTree>, depth: int)
    ensures
        forall|k: int|
            0 <= k < item_rows(items, depth).len() ==> (#[trigger] item_rows(
                items,
                depth,
            )[k]).depth >= depth,
    decreases items, 0int,
{
    if items.len() > 0 {
        let init = items.drop_last();
        let before = item_rows(init, depth);
        let label = bracketed((items.len() - 1) as nat);
        assert(decreases_to!(items => init));
        lemma_item_depths(init, depth);
        assert(decreases_to!(items => items[items.len() - 1]));
        lemma_first_row(label, items.last(), depth);
        let rows = rows_of(label, items.last(), depth);
        assert forall|k: int| 0 <= k < item_rows(items, depth).len() implies (
        #[trigger] item_rows(items, depth)[k]).depth >= depth by {
            if k < before.len() {
                assert(item_rows(items, depth)[k] == before[k]);
            } else {
                assert(item_rows(items, depth)[k] == rows[k - before.len()]);
            }
        }
    }
}

proof fn lemma_member_rows_join(a: Seq<Member>, b: Seq<Member>, depth: int)
    ensures
        member_rows(a + b, depth) == member_rows(a, depth) + member_rows(b, depth),
    decreases b.len(),
{
    if b.len() == 0 {
        assert(a + b =~= a);
        assert(member_rows(a + b, depth) =~= member_rows(a, depth) + member_rows(b, depth));
    } else {
        lemma_member_rows_join(a, b.drop_last(), depth);
        assert((a + b).drop_last() =~= a + b.drop_last());
        assert(member_rows(a + b, depth) =~= member_rows(a, depth) + member_rows(b, depth));
    }
}

/// Below the row of an object stand the rows of its members, in their order: those of the
/// first members before those of the others, and those of one member under its key, one
/// level deeper.
pub proof fn lemma_rows_of_members(
    label: Seq<char>,
    a: Seq<Member>,
    b: Seq<Member>,
    depth: int,
)
    ensures
        rows_of(label, JsonTree::Obj(a + b), depth).skip(1) == rows_of(
            label,
            JsonTree::Obj(a),
            depth,
        ).skip(1) + rows_of(label, JsonTree::Obj(b), depth).skip(1),
        a.len() == 1 ==> rows_of(label, JsonTree::Obj(a), depth).skip(1) == rows_of(
            a[0].key,
            a[0].value,
            depth + 1,
        ),
{
    lemma_member_rows_join(a, b, depth + 1);
    assert(rows_of(label, JsonTree::Obj(a + b), depth).skip(1) =~= member_rows(a + b, depth + 1));
    assert(rows_of(label, JsonTree::Obj(a), depth).skip(1) =~= member_rows(a, depth + 1));
    assert(rows_of(label, JsonTree::Obj(b), depth).skip(1) =~= member_rows(b, depth + 1));
    if a.len() == 1 {
        assert(member_rows(a.drop_last(), depth + 1) =~= Seq::empty());
        assert(member_rows(a, depth + 1) =~= rows_of(a[0].key, a[0].value, depth + 1));
    }
}

/// Below the row of an array stand the rows of its items, in their order, each one under
/// its position in brackets, one level deeper.
pub proof fn lemma_rows_of_items(
    label: Seq<char>,
    items: Seq<JsonTree>,
    item: JsonTree,
    depth: int,
)
    ensures
        rows_of(label, JsonTree::Arr(Seq::empty()), depth).len() == 1,
        rows_of(label, JsonTree::Arr(items.push(item)), depth).skip(1) == rows_of(
            label,
            JsonTree::Arr(items),
            depth,
        ).skip(1) + rows_of(seq!['['] + decimal(items.len()) + seq![']'], item, depth + 1),
{
    let all = items.push(item);
    assert(all.drop_last() =~= items);
    assert(rows_of(label, JsonTree::Arr(all), depth).skip(1) =~= item_rows(all, depth + 1));
    assert(rows_of(label, JsonTree::Arr(items), depth).skip(1) =~= item_rows(items, depth + 1));
    assert(item_rows(Seq::<JsonTree>::empty(), depth + 1) =~= Seq::empty());
}

proof fn lemma_container_rows_join(a: Seq<Member>, b: Seq<Member>)
    ensures
        container_rows(a + b) == container_rows(a) + container_rows(b),
    decreases b.len(),
{
    if b.len() == 0 {
        assert(a + b =~= a);
        assert(container_rows(a + b) =~= container_rows(a) + container_rows(b));
    } else {
        lemma_container_rows_join(a, b.drop_last());
        assert((a + b).drop_last() =~= a + b.drop_last());
        assert(container_rows(a + b) =~= container_rows(a) + container_rows(b));
    }
}

/// A line unfolds to the rows of its members, in their order: of an object or an array
/// under its key, at depth one, and none of any other member. A line that is no object
/// unfolds to nothing.
pub proof fn lemma_unfolded_line(a: Seq<Member>, b: Seq<Member>, tree: JsonTree)
    ensures
        flattened(JsonTree::Obj(a + b)) == flattened(JsonTree::Obj(a)) + flattened(
            JsonTree::Obj(b),
        ),
        a.len() == 1 ==> flattened(JsonTree::Obj(a)) == if a[0].value is Obj || a[0].value is Arr {
            rows_of(a[0].key, a[0].value, 1)
        } else {
            Seq::empty()
        },
        !(tree is Obj) ==> flattened(tree).len() == 0,
{
    lemma_container_rows_join(a, b);
    if a.len() == 1 {
        assert(container_rows(a.drop_last()) =~= Seq::empty());
        assert(container_rows(a) =~= if is_container(a[0].value) {
            rows_of(a[0].key, a[0].value, 1)
        } else {
            Seq::empty()
        });
    }
}

/// Some rows have one at a depth that shows a value.
pub open spec fn have_row(rows: Seq<RowView>, depth: int, value: Seq<char>) -> bool {
    exists|k: int|
        0 <= k < rows.len() && (#[trigger] rows[k]).depth == depth && rows[k].value == value
}

proof fn lemma_row_among(rows: Seq<RowView>, part: Seq<RowView>, at: int, depth: int, value: Seq<char>)
    requires
        0 <= at,
        at + part.len() <= rows.len(),
        part == rows.subrange(at, at + part.len()),
        have_row(part, depth, value),
    ensures
        have_row(rows, depth, value),
{
    let k = choose|k: int|
        0 <= k < part.len() && (#[trigger] part[k]).depth == depth && part[k].value == value;
    assert(rows[at + k] == part[k]);
}

/// The rows of one member stand among those of all members.
proof fn lemma_member_among(fields: Seq<Member>, i: int, depth: int) -> (at: int)
    requires
        0 <= i < fields.len(),
    ensures
        ({
            let part = rows_of(fields[i].key, fields[i].value, depth);
            &&& 0 <= at
            &&& at + part.len() <= member_rows(fields, depth).len()
            &&& part == member_rows(fields, depth).subrange(at, at + part.len())
        }),
    decreases fields.len(),
{
    let init = fields.drop_last();
    let before = member_rows(init, depth);
    let all = member_rows(fields, depth);
    if i < init.len() {
        let at = lemma_member_among(init, i, depth);
        let part = rows_of(fields[i].key, fields[i].value, depth);
        assert(init[i] == fields[i]);
        assert(all.subrange(at, at + part.len()) =~= before.subrange(at, at + part.len()));
        at
    } else {
        let part = rows_of(fields[i].key, fields[i].value, depth);
        let at = before.len() as int;
        assert(all.subrange(at, at + part.len()) =~= part);
        at
    }
}

proof fn lemma_item_among(items: Seq<JsonTree>, i: int, depth: int) -> (at: int)
    requires
        0 <= i < items.len(),
    ensures
        ({
            let part = rows_of(bracketed(i as nat), items[i], depth);
            &&& 0 <= at
            &&& at + part.len() <= item_rows(items, depth).len()
            &&& part == item_rows(items, depth).subrange(at, at + part.len())
        }),
    decreases items.len(),
{
    let init = items.drop_last();
    let before = item_rows(init, depth);
    let all = item_rows(items, depth);
    let part = rows_of(bracketed(i as nat), items[i], depth);
    if i < init.len() {
        let at = lemma_item_among(init, i, depth);
        assert(init[i] == items[i]);
        assert(all.subrange(at, at + part.len()) =~= before.subrange(at, at + part.len()));
        at
    } else {
        let at = before.len() as int;
        assert(all.subrange(at, at + part.len()) =~= part);
        at
    }
}

/// Every value that a path leads to within a value has a row that shows it, as many levels
/// deeper as the path has segments.
pub proof fn lemma_paths_have_rows(
    label: Seq<char>,
    tree: JsonTree,
    depth: int,
    path: Seq<Seq<char>>,
)
    ensures
        walk(tree, path) matches Some(inner) ==> have_row(
            rows_of(label, tree, depth),
            depth + path.len(),
            display(inner),
        ),
    decreases path.len(),
{
    let rows = rows_of(label, tree, depth);
    if walk(tree, path) is Some {
        let inner = walk(tree, path)->Some_0;
        if path.len() == 0 {
            lemma_first_row(label, tree, depth);
            assert(rows[0].depth == depth && rows[0].value == display(inner));
        } else {
            match tree {
                JsonTree::Obj(fields) => {
                    let i = lemma_member_place(fields, path[0], 0);
                    lemma_paths_have_rows(
                        fields[i].key,
                        fields[i].value,
                        depth + 1,
                        path.skip(1),
                    );
                    let at = lemma_member_among(fields, i, depth + 1);
                    let part = rows_of(fields[i].key, fields[i].value, depth + 1);
                    let below = member_rows(fields, depth + 1);
                    assert(rows.subrange(at + 1, at + 1 + part.len()) =~= below.subrange(
                        at,
                        at + part.len(),
                    ));
                    lemma_row_among(rows, part, at + 1, depth + path.len(), display(inner));
                },
                JsonTree::Arr(items) => {
                    let i = position_of(path[0])->Some_0;
                    lemma_position_is_not_negative(path[0]);
                    lemma_paths_have_rows(
                        bracketed(i as nat),
                        items[i],
                        depth + 1,
                        path.skip(1),
                    );
                    let at = lemma_item_among(items, i, depth + 1);
                    let part = rows_of(bracketed(i as nat), items[i], depth + 1);
                    let below = item_rows(items, depth + 1);
                    assert(rows.subrange(at + 1, at + 1 + part.len()) =~= below.subrange(
                        at,
                        at + part.len(),
                    ));
                    lemma_row_among(rows, part, at + 1, depth + path.len(), display(inner));
                },
                _ => {},
            }
        }
    }
}

proof fn lemma_position_is_not_negative(text: Seq<char>)
    ensures
        position_of(text) matches Some(i) ==> i >= 0,
{
    if position_of(text) is Some {
        let digits = unsigned(text);
        crate::text::lemma_digits_grow(digits, digits.len() as int);
    }
}

proof fn lemma_member_place(fields: Seq<Member>, key: Seq<char>, k: int) -> (i: int)
    requires
        0 <= k,
        member_value(fields, key, k) is Some,
    ensures
        k <= i < fields.len(),
        fields[i].key == key,
        member_value(fields, key, k) == Some(fields[i].value),
    decreases fields.len() - k,
{
    if fields[k].key == key {
        k
    } else {
        lemma_member_place(fields, key, k + 1)
    }
}

} // verus!
