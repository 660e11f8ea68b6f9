//! How the bytes of a JSON text write the value that they are.

use vstd::prelude::*;
use vstd::utf8::encode_utf8;

use crate::bytes::{BACKSLASH, COLON, NEWLINE, NINE, QUOTE, RETURN, SPACE, TAB, ZERO};
use crate::fields::stands_at;
use crate::scan::{in_number, value_at, word_false, word_null, word_true, FieldKind, ValueView};
use crate::value::{JsonTree, Member};

verus! {

/// White space between the parts of a JSON text.
pub open spec fn is_json_white(b: u8) -> bool {
    b == SPACE || b == TAB || b == NEWLINE || b == RETURN
}

/// The first position at or behind `i` that is not white space, or the end.
pub open spec fn skip_white(bytes: Seq<u8>, i: int) -> int
    decreases bytes.len() - i,
{
    if i < bytes.len() && is_json_white(bytes[i]) {
        skip_white(bytes, i + 1)
    } else {
        i
    }
}

/// A key between quotes.
pub open spec fn quoted_key(key: Seq<char>) -> Seq<u8> {
    seq![QUOTE] + encode_utf8(key) + seq![QUOTE]
}

/// The value behind a key that ends before `q`: what follows a colon.
pub open spec fn value_behind(bytes: Seq<u8>, q: int) -> Option<ValueView> {
    let colon = skip_white(bytes, q);
    if colon < bytes.len() && bytes[colon] == COLON {
        value_at(bytes, skip_white(bytes, colon + 1))
    } else {
        None
    }
}

/// Decimal digits, few enough for a number that every form of an integer can hold.
pub open spec fn is_short_integer(text: Seq<u8>) -> bool {
    &&& 0 < text.len() <= 18
    &&& forall|i: int| 0 <= i < text.len() ==> ZERO <= #[trigger] text[i] <= NINE
}

/// A value that was read without looking further is what a tree is: a string, a truth
/// value and null by their text, a short integer by its digits, and any other number, an
/// array and an object by their kind.
pub open spec fn reads_as(value: ValueView, tree: JsonTree) -> bool {
    match tree {
        JsonTree::Null => value.kind == FieldKind::Null && value.raw == word_null(),
        JsonTree::Bool(b) => value.kind == FieldKind::Bool && value.raw == if b {
            word_true()
        } else {
            word_false()
        },
        JsonTree::Num(text) => value.kind == FieldKind::Num && (is_short_integer(value.raw)
            ==> value.raw == encode_utf8(text)),
        JsonTree::Str(text) => value.kind == FieldKind::Str && value.raw == encode_utf8(text),
        _ => value.kind == FieldKind::Nested,
    }
}

/// At `p` some bytes write a member of an object: its key between quotes, a colon, and its
/// value.
pub open spec fn writes_member(bytes: Seq<u8>, p: int, member: Member) -> bool {
    &&& stands_at(bytes, quoted_key(member.key), p)
    &&& value_behind(bytes, p + quoted_key(member.key).len()) matches Some(value) && reads_as(
        value,
        member.value,
    )
}

/// Every member of every object in a value, at any depth, is written somewhere.
pub open spec fn is_written(bytes: Seq<u8>, tree: JsonTree) -> bool
    decreases tree,
{
    match tree {
        JsonTree::Arr(items) => forall|i: int|
            0 <= i < items.len() ==> is_written(bytes, #[trigger] items[i]),
        JsonTree::Obj(fields) => forall|i: int|
            0 <= i < fields.len() ==> {
                &&& exists|p: int| writes_member(bytes, p, #[trigger] fields[i])
                &&& is_written(bytes, fields[i].value)
            },
        _ => true,
    }
}

/// A text of a number: bytes of numbers, of which the first is a digit or a minus sign.
pub open spec fn is_number_text(text: Seq<char>) -> bool {
    &&& text.len() > 0
    &&& text[0] == '-' || '0' <= text[0] <= '9'
    &&& forall|i: int|
        0 <= i < text.len() ==> #[trigger] text[i] as int <= 0x7F && in_number(text[i] as u8)
}

/// The numbers in a value have texts of numbers.
pub open spec fn has_number_texts(tree: JsonTree) -> bool
    decreases tree,
{
    match tree {
        JsonTree::Num(text) => is_number_text(text),
        JsonTree::Arr(items) => forall|i: int|
            0 <= i < items.len() ==> has_number_texts(#[trigger] items[i]),
        JsonTree::Obj(fields) => forall|i: int|
            0 <= i < fields.len() ==> has_number_texts((#[trigger] fields[i]).value),
        _ => true,
    }
}

/// A value as reading its text gives it: numbers have texts of numbers, and where the text
/// escapes nothing, it writes the members of all objects.
pub open spec fn is_value_of(bytes: Seq<u8>, tree: JsonTree) -> bool {
    &&& has_number_texts(tree)
    &&& !bytes.contains(BACKSLASH) ==> is_written(bytes, tree)
}

/// Skips white space.
pub(crate) fn skip_white_from(bytes: &[u8], from: usize) -> (out: usize)
    requires
        from <= bytes@.len(),
    ensures
        out == skip_white(bytes@, from as int),
        from <= out <= bytes@.len(),
{
    let mut i: usize = from;
    while i < bytes.len() && (bytes[i] == SPACE || bytes[i] == TAB || bytes[i] == NEWLINE
        || bytes[i] == RETURN)
        invariant
            from <= i <= bytes@.len(),
            skip_white(bytes@, i as int) == skip_white(bytes@, from as int),
        decreases bytes@.len() - i,
    {
        i = i + 1;
    }
    i
}

} // verus!
