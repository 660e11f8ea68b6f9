//! The value of a top-level field of a JSON line, found in one pass over its bytes.
//!
//! Only keys of the outermost object count: a key of the same name in a nested
//! object or array does not, nor does text that looks like a key inside a string.
//! Keys are compared as they are written, escapes included. Of a key that is
//! written twice the first one counts.

use vstd::prelude::*;
use vstd::utf8::encode_utf8;

use crate::bytes::{
    has_prefix, starts_with, BACKSLASH, CLOSE_BRACE, CLOSE_BRACKET, COLON, LOWER_E, MINUS, NINE,
    OPEN_BRACE, OPEN_BRACKET, PLUS, POINT, QUOTE, SPACE, TAB, UPPER_E, ZERO,
};

verus! {

/// What a field holds.
#[derive(Debug, Clone, Copy, PartialEq, Eq, Structural)]
pub enum FieldKind {
    /// A number.
    Num,
    /// A string.
    Str,
    /// `true` or `false`.
    Bool,
    /// `null`.
    Null,
    /// An object or an array.
    Nested,
}

/// The value of a field, as written.
#[derive(Debug, Clone, Copy, PartialEq, Eq)]
pub struct FieldValue<'a> {
    /// What it is.
    pub kind: FieldKind,
    /// The text of a number, `true`, `false` or `null`; what stands between the
    /// quotes of a string; nothing for an object or an array.
    pub raw: &'a [u8],
    /// Whether a string holds an escape, so that its text is not yet its value.
    pub has_escapes: bool,
}

/// The value of a field.
pub struct ValueView {
    pub kind: FieldKind,
    pub raw: Seq<u8>,
    pub has_escapes: bool,
}

impl<'a> View for FieldValue<'a> {
    type V = ValueView;

    open spec fn view(&self) -> ValueView {
        ValueView { kind: self.kind, raw: self.raw@, has_escapes: self.has_escapes }
    }
}

/// A space or a tab.
pub open spec fn is_blank(b: u8) -> bool {
    b == SPACE || b == TAB
}

/// The first position at or behind `i` that is not blank, or the end.
pub open spec fn skip_blanks(line: Seq<u8>, i: int) -> int
    decreases line.len() - i,
{
    if i < line.len() && is_blank(line[i]) {
        skip_blanks(line, i + 1)
    } else {
        i
    }
}

/// The position of the quote that closes the string whose text begins at `i`. A
/// byte behind a backslash belongs to the text, whatever it is.
pub open spec fn string_end(line: Seq<u8>, i: int) -> Option<int>
    decreases line.len() - i,
{
    if i >= line.len() {
        None
    } else if line[i] == QUOTE {
        Some(i)
    } else if line[i] != BACKSLASH {
        string_end(line, i + 1)
    } else if i + 1 < line.len() {
        string_end(line, i + 2)
    } else {
        None
    }
}

/// Where the tokens of a line start, from position `p` on: a string is one token,
/// and so is each byte outside of strings. A string that is not closed is the last
/// token.
pub open spec fn tokens_from(line: Seq<u8>, p: int) -> Seq<int>
    decreases line.len() - p,
{
    if p < 0 || p >= line.len() {
        Seq::empty()
    } else if line[p] == QUOTE {
        match string_end(line, p + 1) {
            Some(e) => {
                proof {
                    lemma_string_end(line, p + 1);
                }
                seq![p] + tokens_from(line, e + 1)
            },
            None => seq![p],
        }
    } else {
        seq![p] + tokens_from(line, p + 1)
    }
}

/// Where the tokens of a line start.
pub open spec fn tokens(line: Seq<u8>) -> Seq<int> {
    tokens_from(line, 0)
}

/// How many brackets the given tokens leave open.
pub open spec fn nesting(line: Seq<u8>, toks: Seq<int>) -> int
    decreases toks.len(),
{
    if toks.len() == 0 {
        0
    } else {
        let b = line[toks.last()];
        let before = nesting(line, toks.drop_last());
        if b == OPEN_BRACE || b == OPEN_BRACKET {
            before + 1
        } else if b == CLOSE_BRACE || b == CLOSE_BRACKET {
            before - 1
        } else {
            before
        }
    }
}

/// Of the given tokens, the last bracket that opens outside of all others opens an
/// object.
pub open spec fn in_object(line: Seq<u8>, toks: Seq<int>) -> bool
    decreases toks.len(),
{
    if toks.len() == 0 {
        false
    } else {
        let b = line[toks.last()];
        if (b == OPEN_BRACE || b == OPEN_BRACKET) && nesting(line, toks.drop_last()) == 0 {
            b == OPEN_BRACE
        } else {
            in_object(line, toks.drop_last())
        }
    }
}

/// The token at `p` is the string `key`, and a colon follows it.
pub open spec fn is_key(line: Seq<u8>, p: int, key: Seq<u8>) -> bool {
    &&& line[p] == QUOTE
    &&& string_end(line, p + 1) matches Some(e) && {
        let colon = skip_blanks(line, e + 1);
        &&& line.subrange(p + 1, e) == key
        &&& colon < line.len() && line[colon] == COLON
    }
}

/// Token `j` is the key `key` of the outermost object.
pub open spec fn is_top_key(line: Seq<u8>, j: int, key: Seq<u8>) -> bool {
    &&& 0 <= j < tokens(line).len()
    &&& nesting(line, tokens(line).take(j)) == 1
    &&& in_object(line, tokens(line).take(j))
    &&& is_key(line, tokens(line)[j], key)
}

/// Token `j` is the first that is the key `key` of the outermost object.
pub open spec fn is_first_top_key(line: Seq<u8>, j: int, key: Seq<u8>) -> bool {
    &&& is_top_key(line, j, key)
    &&& forall|i: int| 0 <= i < j ==> !is_top_key(line, i, key)
}

/// The byte may stand in a number.
pub open spec fn in_number(b: u8) -> bool {
    b == MINUS || b == PLUS || ZERO <= b <= NINE || b == POINT || b == LOWER_E || b == UPPER_E
}

/// The first position at or behind `i` that cannot stand in a number, or the end.
pub open spec fn number_end(line: Seq<u8>, i: int) -> int
    decreases line.len() - i,
{
    if i < line.len() && in_number(line[i]) {
        number_end(line, i + 1)
    } else {
        i
    }
}

/// A literal word as a value.
pub open spec fn word_value(kind: FieldKind, word: Seq<u8>) -> Option<ValueView> {
    Some(ValueView { kind, raw: word, has_escapes: false })
}

/// `true` in bytes.
pub open spec fn word_true() -> Seq<u8> {
    seq![0x74, 0x72, 0x75, 0x65]
}

/// `false` in bytes.
pub open spec fn word_false() -> Seq<u8> {
    seq![0x66, 0x61, 0x6C, 0x73, 0x65]
}

/// `null` in bytes.
pub open spec fn word_null() -> Seq<u8> {
    seq![0x6E, 0x75, 0x6C, 0x6C]
}

/// The value that begins at or behind `i`, behind blanks. A value that is cut off,
/// or that begins like none, is no value.
pub open spec fn value_at(line: Seq<u8>, i: int) -> Option<ValueView> {
    let s = skip_blanks(line, i);
    let rest = line.skip(s);
    if s >= line.len() {
        None
    } else if line[s] == QUOTE {
        match string_end(line, s + 1) {
            Some(e) => Some(
                ValueView {
                    kind: FieldKind::Str,
                    raw: line.subrange(s + 1, e),
                    has_escapes: line.subrange(s + 1, e).contains(BACKSLASH),
                },
            ),
            None => None,
        }
    } else if line[s] == OPEN_BRACE || line[s] == OPEN_BRACKET {
        Some(ValueView { kind: FieldKind::Nested, raw: Seq::empty(), has_escapes: false })
    } else if has_prefix(rest, word_true()) {
        word_value(FieldKind::Bool, word_true())
    } else if has_prefix(rest, word_false()) {
        word_value(FieldKind::Bool, word_false())
    } else if has_prefix(rest, word_null()) {
        word_value(FieldKind::Null, word_null())
    } else if line[s] == MINUS || ZERO <= line[s] <= NINE {
        word_value(FieldKind::Num, line.subrange(s, number_end(line, s)))
    } else {
        None
    }
}

/// The value of the field `key` of a line: what follows the first such key of the
/// outermost object.
pub open spec fn field_of(line: Seq<u8>, key: Seq<u8>) -> Option<ValueView> {
    if exists|j: int| is_top_key(line, j, key) {
        let j = choose|j: int| is_first_top_key(line, j, key);
        let e = string_end(line, tokens(line)[j] + 1)->Some_0;
        value_at(line, skip_blanks(line, e + 1) + 1)
    } else {
        None
    }
}

/// The view of an optional value.
pub open spec fn value_view(value: Option<FieldValue>) -> Option<ValueView> {
    match value {
        Some(v) => Some(v@),
        None => None,
    }
}

/// A string ends at a quote of the line.
pub proof fn lemma_string_end(line: Seq<u8>, i: int)
    requires
        0 <= i,
    ensures
        string_end(line, i) matches Some(e) ==> i <= e < line.len() && line[e] == QUOTE,
    decreases line.len() - i,
{
    if i < line.len() && line[i] != QUOTE {
        if line[i] != BACKSLASH {
            lemma_string_end(line, i + 1);
        } else if i + 1 < line.len() {
            lemma_string_end(line, i + 2);
        }
    }
}

pub(crate) fn skip_blanks_from(line: &[u8], from: usize) -> (out: usize)
    requires
        from <= line@.len(),
    ensures
        out == skip_blanks(line@, from as int),
        from <= out <= line@.len(),
{
    let mut i: usize = from;
    while i < line.len() && (line[i] == SPACE || line[i] == TAB)
        invariant
            from <= i <= line@.len(),
            skip_blanks(line@, i as int) == skip_blanks(line@, from as int),
        decreases line@.len() - i,
    {
        i = i + 1;
    }
    i
}

/// The end of a string whose text begins at `from`, and whether the text holds an
/// escape.
pub(crate) fn scan_string_end(line: &[u8], from: usize) -> (out: Option<(usize, bool)>)
    requires
        from <= line@.len(),
    ensures
        match out {
            Some((e, escaped)) => {
                &&& string_end(line@, from as int) == Some(e as int)
                &&& from <= e < line@.len()
                &&& escaped == line@.subrange(from as int, e as int).contains(BACKSLASH)
            },
            None => string_end(line@, from as int) is None,
        },
{
    let mut i: usize = from;
    let mut escaped: bool = false;
    while i < line.len()
        invariant
            from <= i <= line@.len(),
            string_end(line@, i as int) == string_end(line@, from as int),
            escaped ==> exists|k: int| from <= k < i && line@[k] == BACKSLASH,
            !escaped ==> forall|k: int| from <= k < i ==> line@[k] != BACKSLASH,
        decreases line@.len() - i,
    {
        let b: u8 = line[i];
        if b == QUOTE {
            proof {
                let text = line@.subrange(from as int, i as int);
                if escaped {
                    let k = choose|k: int| from <= k < i && line@[k] == BACKSLASH;
                    assert(text[k - from] == BACKSLASH);
                }
            }
            return Some((i, escaped));
        }
        if b == BACKSLASH {
            escaped = true;
            assert(line@[i as int] == BACKSLASH);
            if line.len() - i < 2 {
                return None;
            }
            i = i + 2;
        } else {
            i = i + 1;
        }
    }
    None
}

fn number_end_from(line: &[u8], from: usize) -> (out: usize)
    requires
        from <= line@.len(),
    ensures
        out == number_end(line@, from as int),
        from <= out <= line@.len(),
{
    let mut i: usize = from;
    while i < line.len() && (line[i] == MINUS || line[i] == PLUS || (ZERO <= line[i] && line[i]
        <= NINE) || line[i] == POINT || line[i] == LOWER_E || line[i] == UPPER_E)
        invariant
            from <= i <= line@.len(),
            number_end(line@, i as int) == number_end(line@, from as int),
        decreases line@.len() - i,
    {
        i = i + 1;
    }
    i
}

/// Reads the value that begins at or behind `from`. Behind the end there is none.
pub fn read_value<'a>(line: &'a [u8], from: usize) -> (out: Option<FieldValue<'a>>)
    ensures
        value_view(out) == value_at(line@, from as int),
{
    if from >= line.len() {
        return None;
    }
    let s: usize = skip_blanks_from(line, from);
    if s >= line.len() {
        return None;
    }
    let b: u8 = line[s];
    if b == QUOTE {
        return match scan_string_end(line, s + 1) {
            Some((e, has_escapes)) => Some(
                FieldValue { kind: FieldKind::Str, raw: &line[s + 1..e], has_escapes },
            ),
            None => None,
        };
    }
    if b == OPEN_BRACE || b == OPEN_BRACKET {
        let raw: &'a [u8] = &line[s..s];
        assert(raw@ =~= Seq::empty());
        return Some(FieldValue { kind: FieldKind::Nested, raw, has_escapes: false });
    }
    let rest: &'a [u8] = &line[s..line.len()];
    assert(rest@ =~= line@.skip(s as int));
    let t: [u8; 4] = [0x74, 0x72, 0x75, 0x65];
    let f: [u8; 5] = [0x66, 0x61, 0x6C, 0x73, 0x65];
    let n: [u8; 4] = [0x6E, 0x75, 0x6C, 0x6C];
    assert(t@ =~= word_true());
    assert(f@ =~= word_false());
    assert(n@ =~= word_null());
    if starts_with(rest, &t) {
        let raw: &'a [u8] = &rest[0..4];
        assert(raw@ =~= word_true());
        return Some(FieldValue { kind: FieldKind::Bool, raw, has_escapes: false });
    }
    if starts_with(rest, &f) {
        let raw: &'a [u8] = &rest[0..5];
        assert(raw@ =~= word_false());
        return Some(FieldValue { kind: FieldKind::Bool, raw, has_escapes: false });
    }
    if starts_with(rest, &n) {
        let raw: &'a [u8] = &rest[0..4];
        assert(raw@ =~= word_null());
        return Some(FieldValue { kind: FieldKind::Null, raw, has_escapes: false });
    }
    if b == MINUS || (ZERO <= b && b <= NINE) {
        let e: usize = number_end_from(line, s);
        return Some(FieldValue { kind: FieldKind::Num, raw: &line[s..e], has_escapes: false });
    }
    None
}

pub(crate) fn same_bytes(a: &[u8], b: &[u8]) -> (out: bool)
    ensures
        out == (a@ == b@),
{
    if a.len() != b.len() {
        return false;
    }
    let same = starts_with(a, b);
    assert(a@.take(b@.len() as int) =~= a@);
    same
}

/// Finds the value of the top-level field `key` in a JSON line. There is none where
/// the line has no such key, is cut off before the value ends, or is no object.
pub fn scan_field<'a>(line: &'a [u8], key: &str) -> (out: Option<FieldValue<'a>>)
    ensures
        value_view(out) == field_of(line@, encode_utf8(key@)),
{
    let wanted: &[u8] = key.as_bytes();
    let ghost mut done: Seq<int> = Seq::empty();
    let mut i: usize = 0;
    let mut depth: i128 = 0;
    let mut object: bool = false;
    assert(tokens(line@) =~= done + tokens_from(line@, 0));
    while i < line.len()
        invariant
            wanted@ == encode_utf8(key@),
            i <= line@.len(),
            tokens(line@) == done + tokens_from(line@, i as int),
            depth == nesting(line@, done),
            object == in_object(line@, done),
            -(i as int) <= depth <= i,
            forall|j: int| 0 <= j < done.len() ==> !is_top_key(line@, j, wanted@),
        decreases line@.len() - i,
    {
        let b: u8 = line[i];
        let ghost toks = tokens(line@);
        let ghost k = done.len() as int;
        proof {
            lemma_string_end(line@, i + 1);
            assert(tokens_from(line@, i as int)[0] == i);
            assert(toks[k] == i);
            assert(toks.take(k) =~= done);
            assert(toks.take(k + 1) =~= done.push(i as int));
            assert(done.push(i as int).drop_last() =~= done);
        }
        if b == QUOTE {
            match scan_string_end(line, i + 1) {
                None => {
                    proof {
                        assert(toks =~= done.push(i as int));
                        assert forall|j: int| !is_top_key(line@, j, wanted@) by {}
                    }
                    return None;
                },
                Some((e, _)) => {
                    let colon: usize = skip_blanks_from(line, e + 1);
                    let found = depth == 1 && object && colon < line.len() && line[colon]
                        == COLON && same_bytes(&line[i + 1..e], wanted);
                    assert(found == is_top_key(line@, k, wanted@));
                    if found {
                        proof {
                            assert(is_first_top_key(line@, k, wanted@));
                            let j = choose|j: int| is_first_top_key(line@, j, wanted@);
                            assert(j == k) by {
                                if j < k {
                                    assert(is_top_key(line@, j, wanted@));
                                } else if k < j {
                                    assert(!is_top_key(line@, k, wanted@));
                                }
                            }
                        }
                        return read_value(line, colon + 1);
                    }
                    proof {
                        done = done.push(i as int);
                        assert(toks =~= done + tokens_from(line@, e + 1));
                    }
                    i = e + 1;
                },
            }
        } else {
            proof {
                assert(!is_top_key(line@, k, wanted@));
                done = done.push(i as int);
                assert(toks =~= done + tokens_from(line@, i + 1));
            }
            if b == OPEN_BRACE || b == OPEN_BRACKET {
                if depth == 0 {
                    object = b == OPEN_BRACE;
                }
                depth = depth + 1;
            } else if b == CLOSE_BRACE || b == CLOSE_BRACKET {
                depth = depth - 1;
            }
            i = i + 1;
        }
    }
    proof {
        assert(tokens(line@) =~= done);
    }
    None
}

} // verus!
