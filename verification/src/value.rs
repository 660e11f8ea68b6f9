//! JSON values: reading a line, showing a value in a cell, unfolding what is nested.
//!
//! The values are those of `serde_json`; contracts speak of the tree that a value is.

use vstd::prelude::*;
use vstd::utf8::encode_utf8;

use crate::text::{bracketed, item_label, parse_position, position_of};
use crate::written::is_value_of;

verus! {

/// What a JSON value is. A number is the text that it is shown by.
#[verifier::ext_equal]
pub enum JsonTree {
    Null,
    Bool(bool),
    Num(Seq<char>),
    Str(Seq<char>),
    Arr(Seq<JsonTree>),
    Obj(Seq<Member>),
}

/// A member of an object.
#[verifier::ext_equal]
pub struct Member {
    pub key: Seq<char>,
    pub value: JsonTree,
}

/// A value of `serde_json`.
#[verifier::external_type_specification]
#[verifier::external_body]
pub struct ExValue(serde_json::Value);

/// An error of `serde_json`.
#[verifier::external_type_specification]
#[verifier::external_body]
pub struct ExJsonError(serde_json::Error);

/// What a value holds: its kind, its items or its members in their order.
pub uninterp spec fn value_tree(value: serde_json::Value) -> JsonTree;

/// What `serde_json::from_slice` gives for some bytes.
pub uninterp spec fn slice_value(bytes: Seq<u8>) -> Option<JsonTree>;

/// The value that some bytes are the JSON text of, if they are one: what
/// `serde_json::from_slice` gives for them, which is a value as the bytes write it.
pub open spec fn json_parse(bytes: Seq<u8>) -> Option<JsonTree> {
    match slice_value(bytes) {
        Some(tree) => if is_value_of(bytes, tree) {
            Some(tree)
        } else {
            None
        },
        None => None,
    }
}

/// Reads a value from its JSON text (`serde_json::from_slice`). What it reads, and
/// whether it reads anything, depends on the bytes alone. A number that it reads is shown
/// by a text of a number. Where the bytes hold no backslash, strings are read as they
/// stand between their quotes: the key of every member stands in quotes, and behind it,
/// with white space before and behind a colon, its value. An integer of at most eighteen
/// digits is shown by those digits.
#[verifier::external_body]
fn parse_value(raw: &[u8]) -> (out: Result<serde_json::Value, serde_json::Error>)
    ensures
        match out {
            Ok(value) => slice_value(raw@) == Some(value_tree(value)) && is_value_of(
                raw@,
                value_tree(value),
            ),
            Err(_) => slice_value(raw@) is None,
        },
{
    serde_json::from_slice(raw)
}

/// The outermost layer of a value.
pub(crate) enum Layer<'a> {
    Null,
    Bool(bool),
    Num(String),
    Str(&'a String),
    Arr(&'a Vec<serde_json::Value>),
    Obj(Vec<(&'a String, &'a serde_json::Value)>),
}

/// The trees of some values.
pub open spec fn trees(values: Seq<serde_json::Value>) -> Seq<JsonTree> {
    values.map_values(|v: serde_json::Value| value_tree(v))
}

/// The members that some keys and values make.
pub open spec fn members(pairs: Seq<(&String, &serde_json::Value)>) -> Seq<Member> {
    pairs.map_values(
        |p: (&String, &serde_json::Value)| Member { key: p.0@, value: value_tree(*p.1) },
    )
}

pub(crate) open spec fn layer_tree(layer: Layer) -> JsonTree {
    match layer {
        Layer::Null => JsonTree::Null,
        Layer::Bool(b) => JsonTree::Bool(b),
        Layer::Num(text) => JsonTree::Num(text@),
        Layer::Str(text) => JsonTree::Str(text@),
        Layer::Arr(items) => JsonTree::Arr(trees(items@)),
        Layer::Obj(pairs) => JsonTree::Obj(members(pairs@)),
    }
}

/// Takes the outermost layer off a value: one variant for each of
/// `serde_json::Value`, with a number as its text (`Number::to_string`) and an object
/// as its keys and values in their order (`Map::iter`).
#[verifier::external_body]
pub(crate) fn layer<'a>(value: &'a serde_json::Value) -> (out: Layer<'a>)
    ensures
        layer_tree(out) == value_tree(*value),
{
    match value {
        serde_json::Value::Null => Layer::Null,
        serde_json::Value::Bool(b) => Layer::Bool(*b),
        serde_json::Value::Number(n) => Layer::Num(n.to_string()),
        serde_json::Value::String(s) => Layer::Str(s),
        serde_json::Value::Array(items) => Layer::Arr(items),
        serde_json::Value::Object(map) => Layer::Obj(map.iter().collect()),
    }
}

/// A hexadecimal digit.
pub open spec fn hex_digit(n: int) -> char {
    if n < 10 {
        (n + 0x30) as char
    } else {
        (n - 10 + 0x61) as char
    }
}

/// A character as JSON writes it within a string: quotes, backslashes and control
/// characters are escaped.
pub open spec fn escaped_char(c: char) -> Seq<char> {
    let n = c as int;
    if c == '"' || c == '\\' {
        seq!['\\', c]
    } else if n == 0x08 {
        seq!['\\', 'b']
    } else if n == 0x09 {
        seq!['\\', 't']
    } else if n == 0x0A {
        seq!['\\', 'n']
    } else if n == 0x0C {
        seq!['\\', 'f']
    } else if n == 0x0D {
        seq!['\\', 'r']
    } else if n < 0x20 {
        seq!['\\', 'u', '0', '0', hex_digit(n / 16), hex_digit(n % 16)]
    } else {
        seq![c]
    }
}

/// A text as JSON writes it between the quotes of a string.
pub open spec fn escaped(text: Seq<char>) -> Seq<char>
    decreases text.len(),
{
    if text.len() == 0 {
        Seq::empty()
    } else {
        escaped(text.drop_last()) + escaped_char(text.last())
    }
}

/// A text as a JSON string.
pub open spec fn quoted(text: Seq<char>) -> Seq<char> {
    seq!['"'] + escaped(text) + seq!['"']
}

/// The compact JSON text of a value: without white space, its items or members in their
/// order.
pub open spec fn compact_text(tree: JsonTree) -> Seq<char>
    decreases tree,
{
    match tree {
        JsonTree::Null => "null"@,
        JsonTree::Bool(b) => if b {
            "true"@
        } else {
            "false"@
        },
        JsonTree::Num(text) => text,
        JsonTree::Str(text) => quoted(text),
        JsonTree::Arr(items) => seq!['['] + item_texts(items) + seq![']'],
        JsonTree::Obj(fields) => seq!['{'] + member_texts(fields) + seq!['}'],
    }
}

/// The compact texts of some items, with commas between them.
pub open spec fn item_texts(items: Seq<JsonTree>) -> Seq<char>
    decreases items,
{
    if items.len() == 0 {
        Seq::empty()
    } else if items.len() == 1 {
        compact_text(items[0])
    } else {
        item_texts(items.drop_last()) + seq![','] + compact_text(items.last())
    }
}

/// The compact texts of some members, with commas between them.
pub open spec fn member_texts(fields: Seq<Member>) -> Seq<char>
    decreases fields,
{
    if fields.len() == 0 {
        Seq::empty()
    } else {
        let last = quoted(fields.last().key) + seq![':'] + compact_text(fields.last().value);
        if fields.len() == 1 {
            last
        } else {
            member_texts(fields.drop_last()) + seq![','] + last
        }
    }
}

/// The compact JSON text of a value (`serde_json::Value::to_string`): a number by its
/// text, a string quoted and escaped, an array and an object with their brackets, commas
/// and colons.
#[verifier::external_body]
fn text_of(value: &serde_json::Value) -> (out: String)
    ensures
        out@ == compact_text(value_tree(*value)),
{
    value.to_string()
}

/// Reads a line of JSON.
pub fn parse_line(raw: &[u8]) -> (out: Option<serde_json::Value>)
    ensures
        match out {
            Some(value) => json_parse(raw@) == Some(value_tree(value)),
            None => json_parse(raw@) is None,
        },
{
    match parse_value(raw) {
        Ok(value) => Some(value),
        Err(_) => None,
    }
}

/// A line is read as what `serde_json::from_slice` gives for its bytes, whatever kind of
/// value that is, and as nothing where it gives nothing.
pub proof fn lemma_line_is_read_as_given(raw: Seq<u8>, tree: JsonTree)
    ensures
        slice_value(raw) == Some(tree) && is_value_of(raw, tree) <==> json_parse(raw) == Some(tree),
        slice_value(raw) is None ==> json_parse(raw) is None,
{
}

/// How a value is shown in a cell: a string by its text, all else by its compact JSON
/// text.
pub open spec fn display(tree: JsonTree) -> Seq<char> {
    match tree {
        JsonTree::Str(text) => text,
        _ => compact_text(tree),
    }
}

/// Shows a value in a cell.
pub fn cell_display(val: &serde_json::Value) -> (out: String)
    ensures
        out@ == display(value_tree(*val)),
{
    match layer(val) {
        Layer::Str(text) => text.clone(),
        _ => text_of(val),
    }
}

/// A row of an unfolded value.
#[derive(Debug, Clone, PartialEq)]
pub struct SubRow {
    /// How deep the row is nested: 1 for a top-level field.
    pub depth: usize,
    /// The key, or the number of the item in brackets.
    pub label: String,
    /// The value as a cell shows it.
    pub value: String,
}

/// What a row is.
#[verifier::ext_equal]
pub struct RowView {
    pub depth: int,
    pub label: Seq<char>,
    pub value: Seq<char>,
}

impl View for SubRow {
    type V = RowView;

    open spec fn view(&self) -> RowView {
        RowView { depth: self.depth as int, label: self.label@, value: self.value@ }
    }
}

/// What some rows are.
pub open spec fn row_views(rows: Seq<SubRow>) -> Seq<RowView> {
    rows.map_values(|r: SubRow| r@)
}

/// An object or an array.
pub open spec fn is_container(tree: JsonTree) -> bool {
    tree is Obj || tree is Arr
}

/// The rows of a value: one for itself, and one level deeper those of its members or
/// items in turn.
pub open spec fn rows_of(label: Seq<char>, tree: JsonTree, depth: int) -> Seq<RowView>
    decreases tree,
{
    let own = seq![RowView { depth, label, value: display(tree) }];
    match tree {
        JsonTree::Obj(fields) => own + member_rows(fields, depth + 1),
        JsonTree::Arr(items) => own + item_rows(items, depth + 1),
        _ => own,
    }
}

/// The rows of the members of an object.
pub open spec fn member_rows(fields: Seq<Member>, depth: int) -> Seq<RowView>
    decreases fields,
{
    if fields.len() == 0 {
        Seq::empty()
    } else {
        member_rows(fields.drop_last(), depth) + rows_of(
            fields.last().key,
            fields.last().value,
            depth,
        )
    }
}

/// The rows of the items of an array.
pub open spec fn item_rows(items: Seq<JsonTree>, depth: int) -> Seq<RowView>
    decreases items,
{
    if items.len() == 0 {
        Seq::empty()
    } else {
        item_rows(items.drop_last(), depth) + rows_of(
            bracketed((items.len() - 1) as nat),
            items.last(),
            depth,
        )
    }
}

/// The rows of those members that are objects or arrays.
pub open spec fn container_rows(fields: Seq<Member>) -> Seq<RowView>
    decreases fields.len(),
{
    if fields.len() == 0 {
        Seq::empty()
    } else {
        let before = container_rows(fields.drop_last());
        if is_container(fields.last().value) {
            before + rows_of(fields.last().key, fields.last().value, 1)
        } else {
            before
        }
    }
}

/// The rows of an unfolded line: those of its top-level objects and arrays. Its other
/// fields are columns.
pub open spec fn flattened(tree: JsonTree) -> Seq<RowView> {
    match tree {
        JsonTree::Obj(fields) => container_rows(fields),
        _ => Seq::empty(),
    }
}

/// A line has something to unfold.
pub open spec fn expandable(tree: JsonTree) -> bool {
    tree matches JsonTree::Obj(fields) && exists|i: int|
        0 <= i < fields.len() && is_container((#[trigger] fields[i]).value)
}

fn holds_container(value: &serde_json::Value) -> (out: bool)
    ensures
        out == is_container(value_tree(*value)),
{
    match layer(value) {
        Layer::Arr(_) => true,
        Layer::Obj(_) => true,
        _ => false,
    }
}

/// Adds the rows of a value that `parents` rows enclose.
fn flatten_into(
    label: String,
    value: &serde_json::Value,
    parents: usize,
    out: &mut Vec<SubRow>,
)
    requires
        parents <= old(out)@.len(),
    ensures
        row_views(final(out)@) == row_views(old(out)@) + rows_of(
            label@,
            value_tree(*value),
            parents + 1,
        ),
        final(out)@.len() > old(out)@.len(),
    decreases value_tree(*value),
{
    let ghost tree = value_tree(*value);
    let ghost before = row_views(out@);
    let ghost name = label@;
    let shown: String = cell_display(value);
    out.push(SubRow { depth: 0, label, value: shown });
    let last: usize = out.len() - 1;
    let depth: usize = parents + 1;
    out[last].depth = depth;
    let ghost own = seq![RowView { depth: depth as int, label: name, value: display(tree) }];
    assert(row_views(out@) =~= before + own);
    match layer(value) {
        Layer::Obj(pairs) => {
            let ghost fields = members(pairs@);
            let mut i: usize = 0;
            assert(fields.take(0) =~= Seq::empty());
            assert(row_views(out@) =~= before + own + member_rows(fields.take(0), depth + 1));
            while i < pairs.len()
                invariant
                    tree == JsonTree::Obj(fields),
                    tree == value_tree(*value),
                    fields == members(pairs@),
                    i <= pairs@.len(),
                    depth <= out@.len(),
                    before.len() < out@.len(),
                    row_views(out@) == before + own + member_rows(
                        fields.take(i as int),
                        depth + 1,
                    ),
                decreases pairs@.len() - i,
            {
                proof {
                    assert(fields.take(i + 1).drop_last() =~= fields.take(i as int));
                    assert(fields.take(i + 1).last() == fields[i as int]);
                    assert(decreases_to!(tree => tree->Obj_0));
                    assert(decreases_to!(fields => fields[i as int]));
                    assert(decreases_to!(fields[i as int] => fields[i as int].value));
                }
                flatten_into(pairs[i].0.clone(), pairs[i].1, depth, out);
                i = i + 1;
                assert(row_views(out@) =~= before + own + member_rows(
                    fields.take(i as int),
                    depth + 1,
                ));
            }
            assert(fields.take(i as int) =~= fields);
            assert(row_views(out@) =~= before + rows_of(name, tree, depth as int));
        },
        Layer::Arr(values) => {
            let ghost items = trees(values@);
            let mut i: usize = 0;
            assert(items.take(0) =~= Seq::empty());
            assert(row_views(out@) =~= before + own + item_rows(items.take(0), depth + 1));
            while i < values.len()
                invariant
                    tree == JsonTree::Arr(items),
                    tree == value_tree(*value),
                    items == trees(values@),
                    i <= values@.len(),
                    depth <= out@.len(),
                    before.len() < out@.len(),
                    row_views(out@) == before + own + item_rows(items.take(i as int), depth + 1),
                decreases values@.len() - i,
            {
                proof {
                    assert(items.take(i + 1).drop_last() =~= items.take(i as int));
                    assert(items.take(i + 1).last() == items[i as int]);
                    assert(decreases_to!(tree => tree->Arr_0));
                    assert(decreases_to!(items => items[i as int]));
                }
                flatten_into(item_label(i), &values[i], depth, out);
                i = i + 1;
                assert(row_views(out@) =~= before + own + item_rows(
                    items.take(i as int),
                    depth + 1,
                ));
            }
            assert(items.take(i as int) =~= items);
            assert(row_views(out@) =~= before + rows_of(name, tree, depth as int));
        },
        _ => {
            assert(row_views(out@) =~= before + rows_of(name, tree, depth as int));
        },
    }
}

/// Unfolds a line: the rows of its top-level objects and arrays.
pub fn flatten(value: &serde_json::Value) -> (out: Vec<SubRow>)
    ensures
        row_views(out@) == flattened(value_tree(*value)),
{
    let mut out: Vec<SubRow> = Vec::new();
    assert(row_views(out@) =~= Seq::empty());
    if let Layer::Obj(pairs) = layer(value) {
        let ghost fields = members(pairs@);
        let mut i: usize = 0;
        assert(fields.take(0) =~= Seq::empty());
        while i < pairs.len()
            invariant
                fields == members(pairs@),
                i <= pairs@.len(),
                row_views(out@) == container_rows(fields.take(i as int)),
            decreases pairs@.len() - i,
        {
            proof {
                assert(fields.take(i + 1).drop_last() =~= fields.take(i as int));
                assert(fields.take(i + 1).last() == fields[i as int]);
            }
            if holds_container(pairs[i].1) {
                flatten_into(pairs[i].0.clone(), pairs[i].1, 0, &mut out);
            }
            i = i + 1;
        }
        assert(fields.take(i as int) =~= fields);
    }
    out
}

/// Whether a line has something to unfold.
pub fn is_expandable(value: &serde_json::Value) -> (out: bool)
    ensures
        out == expandable(value_tree(*value)),
{
    if let Layer::Obj(pairs) = layer(value) {
        let ghost fields = members(pairs@);
        let mut i: usize = 0;
        while i < pairs.len()
            invariant
                value_tree(*value) == JsonTree::Obj(fields),
                fields == members(pairs@),
                i <= pairs@.len(),
                forall|k: int| 0 <= k < i ==> !is_container((#[trigger] fields[k]).value),
            decreases pairs@.len() - i,
        {
            assert(fields[i as int].value == value_tree(*pairs@[i as int].1));
            if holds_container(pairs[i].1) {
                return true;
            }
            i = i + 1;
        }
    }
    false
}

proof fn lemma_container_rows(fields: Seq<Member>)
    ensures
        container_rows(fields).len() > 0 <==> exists|i: int|
            0 <= i < fields.len() && is_container((#[trigger] fields[i]).value),
    decreases fields.len(),
{
    if fields.len() > 0 {
        let before = fields.drop_last();
        lemma_container_rows(before);
        if exists|i: int| 0 <= i < before.len() && is_container((#[trigger] before[i]).value) {
            let i = choose|i: int|
                0 <= i < before.len() && is_container((#[trigger] before[i]).value);
            assert(fields[i] == before[i]);
        }
        if exists|i: int| 0 <= i < fields.len() && is_container((#[trigger] fields[i]).value) {
            let i = choose|i: int|
                0 <= i < fields.len() && is_container((#[trigger] fields[i]).value);
            if i < before.len() {
                assert(before[i] == fields[i]);
            }
        }
    }
}

/// A line has something to unfold exactly where unfolding it gives a row.
pub proof fn lemma_expandable_has_rows(tree: JsonTree)
    ensures
        expandable(tree) <==> flattened(tree).len() > 0,
{
    if let JsonTree::Obj(fields) = tree {
        lemma_container_rows(fields);
    }
}

/// The value of the first member with the given key, from the `k`-th on.
pub open spec fn member_value(fields: Seq<Member>, key: Seq<char>, k: int) -> Option<JsonTree>
    decreases fields.len() - k,
{
    if k >= fields.len() {
        None
    } else if fields[k].key == key {
        Some(fields[k].value)
    } else {
        member_value(fields, key, k + 1)
    }
}

/// One step into a value: the member with that key, or the item at that position.
pub open spec fn step(tree: JsonTree, segment: Seq<char>) -> Option<JsonTree> {
    match tree {
        JsonTree::Obj(fields) => member_value(fields, segment, 0),
        JsonTree::Arr(items) => match position_of(segment) {
            Some(i) => if i < items.len() {
                Some(items[i])
            } else {
                None
            },
            None => None,
        },
        _ => None,
    }
}

/// What a path leads to.
pub open spec fn walk(tree: JsonTree, path: Seq<Seq<char>>) -> Option<JsonTree>
    decreases path.len(),
{
    if path.len() == 0 {
        Some(tree)
    } else {
        match step(tree, path[0]) {
            Some(inner) => walk(inner, path.skip(1)),
            None => None,
        }
    }
}

/// The tree of an optional value.
pub open spec fn tree_of(value: Option<&serde_json::Value>) -> Option<JsonTree> {
    match value {
        Some(v) => Some(value_tree(*v)),
        None => None,
    }
}

/// The member of an object with a key (`serde_json::Value::get` with a string); none
/// of a value that is no object. An object has no two members with one key.
#[verifier::external_body]
fn get_member<'a>(value: &'a serde_json::Value, key: &str) -> (out: Option<&'a serde_json::Value>)
    ensures
        tree_of(out) == match value_tree(*value) {
            JsonTree::Obj(fields) => member_value(fields, key@, 0),
            _ => None,
        },
{
    value.get(key)
}

/// Follows a path into a value: the key of a member of an object, or the position of an
/// item of an array. Nothing lies within other values.
pub fn navigate<'a>(val: &'a serde_json::Value, path: &[String]) -> (out: Option<
    &'a serde_json::Value,
>)
    ensures
        tree_of(out) == walk(value_tree(*val), path@.map_values(|s: String| s@)),
{
    let ghost segments = path@.map_values(|s: String| s@);
    let mut at: &'a serde_json::Value = val;
    let mut i: usize = 0;
    assert(segments.skip(0) =~= segments);
    while i < path.len()
        invariant
            segments == path@.map_values(|s: String| s@),
            i <= segments.len(),
            walk(value_tree(*at), segments.skip(i as int)) == walk(value_tree(*val), segments),
        decreases segments.len() - i,
    {
        let segment: &str = path[i].as_str();
        proof {
            let rest = segments.skip(i as int);
            assert(rest[0] == segment@);
            assert(rest.skip(1) =~= segments.skip(i + 1));
        }
        match layer(at) {
            Layer::Obj(_) => match get_member(at, segment) {
                Some(inner) => {
                    at = inner;
                },
                None => {
                    return None;
                },
            },
            Layer::Arr(items) => match parse_position(segment) {
                Some(k) => {
                    if k >= items.len() {
                        return None;
                    }
                    at = &items[k];
                },
                None => {
                    return None;
                },
            },
            _ => {
                return None;
            },
        }
        i = i + 1;
    }
    Some(at)
}

/// The bytes of the compact JSON text of a value.
pub open spec fn compact_bytes(tree: JsonTree) -> Seq<u8> {
    encode_utf8(compact_text(tree))
}

/// Writes the compact JSON text of a value to a buffer of a fixed size
/// (`serde_json::to_writer` to a slice of bytes, which takes bytes until it is full and
/// then fails). It gives the number of bytes left over, and nothing where the text is
/// too long.
#[verifier::external_body]
fn write_text(value: &serde_json::Value, buffer: &mut Vec<u8>) -> (out: Option<usize>)
    ensures
        final(buffer)@.len() == old(buffer)@.len(),
        match out {
            Some(left) => {
                let text = compact_bytes(value_tree(*value));
                text.len() + left == old(buffer)@.len() && final(buffer)@.take(text.len() as int)
                    == text
            },
            None => compact_bytes(value_tree(*value)).len() > old(buffer)@.len(),
        },
{
    let mut rest: &mut [u8] = buffer.as_mut_slice();
    match serde_json::to_writer(&mut rest, value) {
        Ok(()) => Some(rest.len()),
        Err(_) => None,
    }
}

fn zeros(len: usize) -> (out: Vec<u8>)
    ensures
        out@.len() == len,
{
    let mut buffer: Vec<u8> = Vec::with_capacity(len);
    while buffer.len() < len
        invariant
            buffer@.len() <= len,
        decreases len - buffer@.len(),
    {
        buffer.push(0);
    }
    buffer
}

/// The size of the first buffer that a text is written to.
pub const FIRST_BUFFER: usize = 256;

/// The compact JSON text of a value, where it takes at most `cap` bytes. A longer text
/// is given up without being written out.
pub fn compact_prefix(value: &serde_json::Value, cap: usize) -> (out: Option<Vec<u8>>)
    ensures
        match out {
            Some(bytes) => bytes@ == compact_bytes(value_tree(*value)) && bytes@.len() <= cap,
            None => compact_bytes(value_tree(*value)).len() > cap,
        },
{
    let ghost text = compact_bytes(value_tree(*value));
    let mut size: usize = if cap < FIRST_BUFFER {
        cap
    } else {
        FIRST_BUFFER
    };
    loop
        invariant
            text == compact_bytes(value_tree(*value)),
            size <= cap,
            size == cap || size >= FIRST_BUFFER,
        decreases cap - size,
    {
        let mut buffer: Vec<u8> = zeros(size);
        match write_text(value, &mut buffer) {
            Some(left) => {
                buffer.truncate(size - left);
                assert(buffer@ =~= text);
                return Some(buffer);
            },
            None => {
                if size == cap {
                    return None;
                }
                size = if size > cap / 2 {
                    cap
                } else {
                    size * 2
                };
            },
        }
    }
}

/// The number of characters of a text, counted no further than `cap`.
pub(crate) fn count_chars(text: &str, cap: usize) -> (out: usize)
    ensures
        out == if text@.len() < cap {
            text@.len()
        } else {
            cap as nat
        },
{
    let mut n: usize = 0;
    for c in it: text.chars()
        invariant
            it.seq() == text@,
            n == it.index(),
            n <= cap,
    {
        if n == cap {
            return n;
        }
        n = n + 1;
    }
    n
}

/// The most characters of a column.
pub const WIDTH_CLAMP: usize = 32;

/// The longest text, in bytes, whose characters are counted.
pub const WIDTH_PROBE_BYTES: usize = 256;

/// The width of a value in a cell, exact up to the most that a column can have.
pub open spec fn width_of(tree: JsonTree) -> int {
    match tree {
        JsonTree::Str(text) => if text.len() <= WIDTH_CLAMP {
            text.len() as int
        } else {
            WIDTH_CLAMP + 1
        },
        _ => if compact_bytes(tree).len() <= WIDTH_PROBE_BYTES {
            compact_text(tree).len() as int
        } else {
            WIDTH_CLAMP + 1
        },
    }
}

/// Measures the width of a value in a cell, no further than needed.
pub fn value_width(value: &serde_json::Value) -> (out: usize)
    ensures
        out == width_of(value_tree(*value)),
{
    match layer(value) {
        Layer::Str(text) => count_chars(text.as_str(), WIDTH_CLAMP + 1),
        _ => match compact_prefix(value, WIDTH_PROBE_BYTES) {
            Some(_) => {
                let text: String = text_of(value);
                proof {
                    lemma_encoded_len(text@);
                }
                count_chars(text.as_str(), WIDTH_PROBE_BYTES)
            },
            None => WIDTH_CLAMP + 1,
        },
    }
}

/// A width within the bounds of a column.
pub open spec fn clamped(width: int) -> int {
    if width < 4 {
        4
    } else if width > WIDTH_CLAMP {
        WIDTH_CLAMP as int
    } else {
        width
    }
}

/// Within the bounds of a column, the measured width is the number of characters that
/// the cell shows.
pub proof fn lemma_width_is_exact(tree: JsonTree)
    ensures
        clamped(width_of(tree)) == clamped(display(tree).len() as int),
{
    lemma_encoded_len(compact_text(tree));
}

/// A text takes at least a byte and at most four bytes for each character.
proof fn lemma_encoded_len(text: Seq<char>)
    ensures
        text.len() <= encode_utf8(text).len() <= 4 * text.len(),
    decreases text.len(),
{
    if text.len() > 0 {
        lemma_encoded_len(text.drop_first());
    }
}

} // verus!
