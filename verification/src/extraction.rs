//! What is taken from a line for a key, without parsing the line.

use vstd::prelude::*;
use vstd::utf8::{encode_utf8, is_ascii_chars, is_ascii_chars_encode_utf8};

use crate::bytes::{BACKSLASH, CLOSE_BRACE, COLON, COMMA, OPEN_BRACE, QUOTE, SPACE, TAB};
use crate::compact::{
    lemma_encode_both, lemma_encode_char, lemma_escaped_first, lemma_number_bytes, lemma_word_bytes,
};
use crate::fields::{
    bare_end, first_at, first_value, is_first_at, key_may_stand, lemma_first_at, next_value,
    raw_value, stands_at, written_key,
};
use crate::scan::{in_number, is_blank, skip_blanks, string_end};
use crate::value::{
    compact_bytes, compact_text, escaped, escaped_char, hex_digit, member_texts, quoted, JsonTree,
    Member,
};
use crate::written::has_number_texts;

verus! {

/// Spaces and tabs alone.
pub open spec fn are_blanks(bytes: Seq<u8>) -> bool {
    forall|i: int| 0 <= i < bytes.len() ==> #[trigger] bytes[i] == SPACE || bytes[i] == TAB
}

/// A byte that can stand in a value without quotes: no space, tab, comma or closing brace.
pub open spec fn is_bare(b: u8) -> bool {
    b != SPACE && b != TAB && b != COMMA && b != CLOSE_BRACE
}

/// Behind a value without quotes the line ends, or a byte that cannot stand in one
/// follows.
pub open spec fn parts_values(rest: Seq<u8>) -> bool {
    rest.len() == 0 || !is_bare(rest[0])
}

/// What can stand between the quotes of a string: each quote and each backslash behind a
/// backslash of its own.
pub open spec fn is_string_text(text: Seq<u8>) -> bool
    decreases text.len(),
{
    if text.len() == 0 {
        true
    } else if text[0] == QUOTE {
        false
    } else if text[0] == BACKSLASH {
        text.len() >= 2 && is_string_text(text.skip(2))
    } else {
        is_string_text(text.skip(1))
    }
}

/// Before position `p` of a line, but for spaces and tabs, stands an opening brace or a
/// comma.
pub open spec fn follows_opening(line: Seq<u8>, p: int) -> bool {
    exists|j: int|
        {
            &&& 0 <= j < p
            &&& #[trigger] line[j] == OPEN_BRACE || line[j] == COMMA
            &&& are_blanks(line.subrange(j + 1, p))
        }
}

/// The key is first written as a key at `p`: what looks like it before does not follow an
/// opening brace or a comma, and ends before `p`.
pub open spec fn is_first_key(line: Seq<u8>, needle: Seq<u8>, p: int) -> bool {
    &&& stands_at(line, needle, p)
    &&& follows_opening(line, p)
    &&& forall|q: int|
        0 <= q < p && #[trigger] stands_at(line, needle, q) ==> q + needle.len() <= p
            && !follows_opening(line, q)
}

proof fn lemma_key_may_stand(line: Seq<u8>, p: int)
    requires
        p <= line.len(),
    ensures
        key_may_stand(line, p) <==> follows_opening(line, p),
    decreases p,
{
    if p > 0 {
        lemma_key_may_stand(line, p - 1);
        let b = line[p - 1];
        if is_blank(b) {
            if follows_opening(line, p - 1) {
                let j = choose|j: int|
                    {
                        &&& 0 <= j < p - 1
                        &&& #[trigger] line[j] == OPEN_BRACE || line[j] == COMMA
                        &&& are_blanks(line.subrange(j + 1, p - 1))
                    };
                let now = line.subrange(j + 1, p);
                assert forall|i: int| 0 <= i < now.len() implies #[trigger] now[i] == SPACE
                    || now[i] == TAB by {
                    if i < now.len() - 1 {
                        assert(line.subrange(j + 1, p - 1)[i] == now[i]);
                    }
                }
                assert(line[j] == OPEN_BRACE || line[j] == COMMA);
            }
            if follows_opening(line, p) {
                let j = choose|j: int|
                    {
                        &&& 0 <= j < p
                        &&& #[trigger] line[j] == OPEN_BRACE || line[j] == COMMA
                        &&& are_blanks(line.subrange(j + 1, p))
                    };
                assert(j < p - 1);
                let before = line.subrange(j + 1, p - 1);
                assert forall|i: int| 0 <= i < before.len() implies #[trigger] before[i] == SPACE
                    || before[i] == TAB by {
                    assert(line.subrange(j + 1, p)[i] == before[i]);
                }
                assert(line[j] == OPEN_BRACE || line[j] == COMMA);
            }
        } else {
            if b == OPEN_BRACE || b == COMMA {
                assert(line.subrange(p, p) =~= Seq::empty());
                assert(line[p - 1] == OPEN_BRACE || line[p - 1] == COMMA);
            }
            if follows_opening(line, p) {
                let j = choose|j: int|
                    {
                        &&& 0 <= j < p
                        &&& #[trigger] line[j] == OPEN_BRACE || line[j] == COMMA
                        &&& are_blanks(line.subrange(j + 1, p))
                    };
                if j < p - 1 {
                    let between = line.subrange(j + 1, p);
                    assert(between[p - 1 - j - 1] == b);
                }
            }
        }
    }
}

/// The search ends at the place where the key is first written as a key.
proof fn lemma_first_key(line: Seq<u8>, needle: Seq<u8>, p: int, from: int)
    requires
        needle.len() > 0,
        is_first_key(line, needle, p),
        0 <= from <= p,
    ensures
        next_value(line, needle, from) == match raw_value(line, p + needle.len()) {
            Some(value) => Some((value, p + needle.len())),
            None => None,
        },
    decreases p - from,
{
    assert(from <= p && stands_at(line, needle, p));
    lemma_first_at(line, needle, from);
    let q = first_at(line, needle, from)->Some_0;
    assert(is_first_at(line, needle, from, q));
    lemma_key_may_stand(line, q);
    if q < p {
        assert(stands_at(line, needle, q));
        lemma_first_key(line, needle, p, q + needle.len());
    }
}

pub(crate) proof fn lemma_skip_blanks(line: Seq<u8>, a: int, b: int)
    requires
        0 <= a <= b <= line.len(),
        are_blanks(line.subrange(a, b)),
        b < line.len() ==> !is_blank(line[b]),
    ensures
        skip_blanks(line, a) == b,
    decreases b - a,
{
    if a < b {
        assert(line.subrange(a, b)[0] == line[a]);
        let rest = line.subrange(a + 1, b);
        assert forall|i: int| 0 <= i < rest.len() implies #[trigger] rest[i] == SPACE || rest[i]
            == TAB by {
            assert(line.subrange(a, b)[i + 1] == rest[i]);
        }
        lemma_skip_blanks(line, a + 1, b);
    }
}

pub(crate) proof fn lemma_bare_end(line: Seq<u8>, a: int, b: int)
    requires
        0 <= a <= b <= line.len(),
        forall|i: int| a <= i < b ==> is_bare(#[trigger] line[i]),
        b < line.len() ==> !is_bare(line[b]),
    ensures
        bare_end(line, a) == b,
    decreases b - a,
{
    if a < b {
        lemma_bare_end(line, a + 1, b);
    }
}

/// The text of a string ends at the quote behind it.
pub(crate) proof fn lemma_string_text_end(line: Seq<u8>, i: int, text: Seq<u8>)
    requires
        stands_at(line, text, i),
        is_string_text(text),
        i + text.len() < line.len(),
        line[i + text.len()] == QUOTE,
    ensures
        string_end(line, i) == Some(i + text.len()),
    decreases text.len(),
{
    let here = line.subrange(i, i + text.len());
    if text.len() > 0 {
        assert(here[0] == line[i]);
        if text[0] == BACKSLASH {
            assert(here[1] == line[i + 1]);
            assert(line.subrange(i + 2, i + text.len()) =~= here.skip(2));
            lemma_string_text_end(line, i + 2, text.skip(2));
        } else {
            assert(line.subrange(i + 1, i + text.len()) =~= here.skip(1));
            lemma_string_text_end(line, i + 1, text.skip(1));
        }
    }
}

/// The value that is taken for a key is all of what is written behind the first place of
/// the key, and spaces and tabs before it: the bytes up to a space, a tab, a comma or a
/// closing brace, and none of them where a comma or a closing brace follows at once.
pub proof fn lemma_extracted_bare(
    line: Seq<u8>,
    key: Seq<char>,
    before: Seq<u8>,
    blanks: Seq<u8>,
    token: Seq<u8>,
    rest: Seq<u8>,
)
    requires
        line == before + written_key(key) + blanks + token + rest,
        is_first_key(line, written_key(key), before.len() as int),
        are_blanks(blanks),
        token.len() > 0 ==> token[0] != QUOTE,
        token.len() == 0 ==> rest.len() > 0 && (rest[0] == COMMA || rest[0] == CLOSE_BRACE),
        forall|i: int| 0 <= i < token.len() ==> is_bare(#[trigger] token[i]),
        parts_values(rest),
    ensures
        first_value(line, written_key(key)) == Some(token),
{
    let needle = written_key(key);
    let p = before.len() as int;
    let a = p + needle.len();
    let s = a + blanks.len();
    let e = s + token.len();
    lemma_first_key(line, needle, p, 0);
    assert(line.subrange(a, s) =~= blanks);
    assert(line.subrange(s, e) =~= token);
    if token.len() > 0 {
        assert(line[s] == token[0]);
        assert(is_bare(token[0]));
    } else {
        assert(line[s] == rest[0]);
    }
    lemma_skip_blanks(line, a, s);
    assert forall|i: int| s <= i < e implies is_bare(#[trigger] line[i]) by {
        assert(line[i] == token[i - s]);
    }
    if e < line.len() {
        assert(line[e] == rest[0]);
    }
    lemma_bare_end(line, s, e);
}

/// The value that is taken for a key is all of the text between the quotes, where a string
/// is written behind the first place of the key.
pub proof fn lemma_extracted_string(
    line: Seq<u8>,
    key: Seq<char>,
    before: Seq<u8>,
    blanks: Seq<u8>,
    text: Seq<u8>,
    rest: Seq<u8>,
)
    requires
        line == before + written_key(key) + blanks + seq![QUOTE] + text + seq![QUOTE] + rest,
        is_first_key(line, written_key(key), before.len() as int),
        are_blanks(blanks),
        is_string_text(text),
    ensures
        first_value(line, written_key(key)) == Some(text),
{
    let needle = written_key(key);
    let p = before.len() as int;
    let a = p + needle.len();
    let s = a + blanks.len();
    let e = s + 1 + text.len();
    lemma_first_key(line, needle, p, 0);
    assert(line.subrange(a, s) =~= blanks);
    assert(line[s] == QUOTE);
    lemma_skip_blanks(line, a, s);
    assert(line.subrange(s + 1, e) =~= text);
    assert(line[e] == QUOTE);
    lemma_string_text_end(line, s + 1, text);
}

/// Nothing is taken for a key that is nowhere written as one.
pub proof fn lemma_nothing_extracted(line: Seq<u8>, key: Seq<char>)
    requires
        forall|q: int|
            #[trigger] stands_at(line, written_key(key), q) ==> !follows_opening(line, q),
    ensures
        first_value(line, written_key(key)) is None,
{
    lemma_nothing_from(line, written_key(key), 0);
}

proof fn lemma_nothing_from(line: Seq<u8>, needle: Seq<u8>, from: int)
    requires
        needle.len() > 0,
        forall|q: int| #[trigger] stands_at(line, needle, q) ==> !follows_opening(line, q),
    ensures
        next_value(line, needle, from) is None,
    decreases line.len() - from,
{
    lemma_first_at(line, needle, from);
    if let Some(p) = first_at(line, needle, from) {
        assert(is_first_at(line, needle, from, p));
        assert(stands_at(line, needle, p));
        lemma_key_may_stand(line, p);
        lemma_nothing_from(line, needle, p + needle.len());
    }
}

/// Nothing is taken for a key whose string is cut off, or behind which the line ends.
pub proof fn lemma_nothing_extracted_of_cut_off_line(
    line: Seq<u8>,
    key: Seq<char>,
    before: Seq<u8>,
    blanks: Seq<u8>,
    text: Seq<u8>,
)
    requires
        line == before + written_key(key) + blanks + seq![QUOTE] + text || (line == before
            + written_key(key) + blanks),
        is_first_key(line, written_key(key), before.len() as int),
        are_blanks(blanks),
        is_string_text(text),
    ensures
        first_value(line, written_key(key)) is None,
{
    let needle = written_key(key);
    let p = before.len() as int;
    let a = p + needle.len();
    let s = a + blanks.len();
    lemma_first_key(line, needle, p, 0);
    assert(line.subrange(a, s) =~= blanks);
    if line.len() > s {
        assert(line[s] == QUOTE);
        lemma_skip_blanks(line, a, s);
        assert(line.subrange(s + 1, line.len() as int) =~= text);
        lemma_string_text_open(line, s + 1, text);
    } else {
        lemma_skip_blanks(line, a, s);
    }
}

/// A string that the line ends within has no end.
pub(crate) proof fn lemma_string_text_open(line: Seq<u8>, i: int, text: Seq<u8>)
    requires
        stands_at(line, text, i),
        is_string_text(text),
        i + text.len() == line.len(),
    ensures
        string_end(line, i) is None,
    decreases text.len(),
{
    let here = line.subrange(i, i + text.len());
    if text.len() > 0 {
        assert(here[0] == line[i]);
        if text[0] == BACKSLASH {
            assert(here[1] == line[i + 1]);
            assert(line.subrange(i + 2, i + text.len()) =~= here.skip(2));
            lemma_string_text_open(line, i + 2, text.skip(2));
        } else {
            assert(line.subrange(i + 1, i + text.len()) =~= here.skip(1));
            lemma_string_text_open(line, i + 1, text.skip(1));
        }
    }
}

/// Texts of strings one behind the other are one.
proof fn lemma_string_texts_join(a: Seq<u8>, b: Seq<u8>)
    requires
        is_string_text(a),
        is_string_text(b),
    ensures
        is_string_text(a + b),
    decreases a.len(),
{
    if a.len() == 0 {
        assert(a + b =~= b);
    } else if a[0] == BACKSLASH {
        lemma_string_texts_join(a.skip(2), b);
        assert((a + b).skip(2) =~= a.skip(2) + b);
    } else {
        lemma_string_texts_join(a.skip(1), b);
        assert((a + b).skip(1) =~= a.skip(1) + b);
    }
}

/// Bytes that are neither quotes nor backslashes are the text of a string.
proof fn lemma_plain_string_text(text: Seq<u8>)
    requires
        forall|i: int| 0 <= i < text.len() ==> #[trigger] text[i] != QUOTE && text[i] != BACKSLASH,
    ensures
        is_string_text(text),
    decreases text.len(),
{
    if text.len() > 0 {
        let rest = text.skip(1);
        assert forall|i: int| 0 <= i < rest.len() implies #[trigger] rest[i] != QUOTE && rest[i]
            != BACKSLASH by {
            assert(rest[i] == text[i + 1]);
        }
        lemma_plain_string_text(rest);
        assert(text[0] != QUOTE);
    }
}

/// An escaped text is the text of a string.
pub proof fn lemma_escaped_is_string_text(text: Seq<char>)
    ensures
        is_string_text(encode_utf8(escaped(text))),
    decreases text.len(),
{
    if text.len() > 0 {
        let head = escaped_char(text[0]);
        let rest = escaped(text.drop_first());
        lemma_escaped_first(text);
        lemma_encode_both(head, rest);
        lemma_escaped_is_string_text(text.drop_first());
        lemma_escaped_char_text(text[0]);
        lemma_string_texts_join(encode_utf8(head), encode_utf8(rest));
    } else {
        assert(encode_utf8(escaped(text)).len() == 0);
    }
}

proof fn lemma_escaped_char_text(c: char)
    ensures
        is_string_text(encode_utf8(escaped_char(c))),
{
    let e = escaped_char(c);
    let b = encode_utf8(e);
    if e.len() == 1 {
        assert(e =~= seq![c]);
        lemma_encode_char(c);
        assert forall|k: int| 0 <= k < b.len() implies #[trigger] b[k] != QUOTE && b[k]
            != BACKSLASH by {
            if c as int > 0x7F {
                assert(b[k] >= 0x80);
            }
        }
        lemma_plain_string_text(b);
    } else {
        assert(is_ascii_chars(e)) by {
            assert forall|k: int| 0 <= k < e.len() implies '\0' <= #[trigger] e[k] <= '\u{7f}' by {
            }
        }
        is_ascii_chars_encode_utf8(e);
        assert(e[0] == '\\');
        assert(b[0] == BACKSLASH);
        let rest = b.skip(2);
        assert forall|k: int| 0 <= k < rest.len() implies #[trigger] rest[k] != QUOTE && rest[k]
            != BACKSLASH by {
            let n = c as int;
            assert(rest[k] == b[k + 2]);
            assert(e[2] == '0' && e[3] == '0');
            assert(e[4] == hex_digit(n / 16) && e[5] == hex_digit(n % 16));
            assert(b[k + 2] == e[k + 2] as u8);
        }
        lemma_plain_string_text(rest);
    }
}

/// One member as compact text writes it.
pub open spec fn pair_text(member: Member) -> Seq<char> {
    quoted(member.key) + seq![':'] + compact_text(member.value)
}

/// What stands before member `i` within the braces.
pub open spec fn text_before(fields: Seq<Member>, i: int) -> Seq<char> {
    if i == 0 {
        Seq::empty()
    } else {
        member_texts(fields.take(i)) + seq![',']
    }
}

/// The members of an object around one of them.
proof fn lemma_members_around(fields: Seq<Member>, i: int) -> (more: Seq<char>)
    requires
        0 <= i < fields.len(),
    ensures
        member_texts(fields) == text_before(fields, i) + pair_text(fields[i]) + more,
        more.len() > 0 ==> more[0] == ',',
    decreases fields.len(),
{
    let init = fields.drop_last();
    if i == fields.len() - 1 {
        let more: Seq<char> = Seq::empty();
        assert(fields.take(i) =~= init);
        assert(member_texts(fields) =~= text_before(fields, i) + pair_text(fields[i]) + more);
        more
    } else {
        let inner = lemma_members_around(init, i);
        let more = inner + seq![','] + pair_text(fields.last());
        assert(init.take(i) =~= fields.take(i));
        assert(text_before(init, i) == text_before(fields, i));
        assert(member_texts(fields) =~= text_before(fields, i) + pair_text(fields[i]) + more);
        more
    }
}

/// The compact text of an object around one of its members, whose key is written as it is.
proof fn lemma_compact_around(fields: Seq<Member>, i: int) -> (rest: Seq<u8>)
    requires
        0 <= i < fields.len(),
        escaped(fields[i].key) == fields[i].key,
    ensures
        compact_bytes(JsonTree::Obj(fields)) == seq![OPEN_BRACE] + encode_utf8(
            text_before(fields, i),
        ) + written_key(fields[i].key) + compact_bytes(fields[i].value) + rest,
        rest.len() > 0,
        rest[0] == COMMA || rest[0] == CLOSE_BRACE,
{
    let line = compact_bytes(JsonTree::Obj(fields));
    let key = fields[i].key;
    let value = fields[i].value;
    let more = lemma_members_around(fields, i);
    let head = text_before(fields, i);
    lemma_encode_char('{');
    lemma_encode_char('}');
    lemma_encode_char('"');
    lemma_encode_char(':');
    lemma_encode_char(',');
    let inner = member_texts(fields);
    lemma_encode_both(seq!['{'], inner);
    lemma_encode_both(seq!['{'] + inner, seq!['}']);
    lemma_encode_both(head + pair_text(fields[i]), more);
    lemma_encode_both(head, pair_text(fields[i]));
    lemma_encode_both(quoted(key) + seq![':'], compact_text(value));
    lemma_encode_both(quoted(key), seq![':']);
    lemma_encode_both(seq!['"'] + escaped(key), seq!['"']);
    lemma_encode_both(seq!['"'], escaped(key));
    let before = seq![OPEN_BRACE] + encode_utf8(head);
    let rest = encode_utf8(more) + seq![CLOSE_BRACE];
    assert(encode_utf8(quoted(key)) + seq![COLON] =~= written_key(key));
    let token = compact_bytes(value);
    assert(line =~= before + written_key(key) + token + rest);
    if more.len() > 0 {
        assert(more =~= seq![','] + more.skip(1));
        lemma_encode_both(seq![','], more.skip(1));
        assert(rest[0] == COMMA);
    } else {
        assert(encode_utf8(more).len() == 0);
        assert(rest[0] == CLOSE_BRACE);
    }
    rest
}

/// For a member of an object, what is taken from the compact text of the object is the
/// whole text of a number, a truth value or null, and the whole escaped text of a string,
/// where the member's own key is the first place of its key.
pub proof fn lemma_extracted_of_compact_object(fields: Seq<Member>, i: int)
    requires
        0 <= i < fields.len(),
        has_number_texts(fields[i].value),
        escaped(fields[i].key) == fields[i].key,
        is_first_key(
            compact_bytes(JsonTree::Obj(fields)),
            written_key(fields[i].key),
            1 + encode_utf8(text_before(fields, i)).len() as int,
        ),
    ensures
        ({
            let taken = first_value(
                compact_bytes(JsonTree::Obj(fields)),
                written_key(fields[i].key),
            );
            match fields[i].value {
                JsonTree::Str(text) => taken == Some(encode_utf8(escaped(text))),
                JsonTree::Arr(_) => true,
                JsonTree::Obj(_) => true,
                scalar => taken == Some(compact_bytes(scalar)),
            }
        }),
{
    let line = compact_bytes(JsonTree::Obj(fields));
    let key = fields[i].key;
    let value = fields[i].value;
    let rest = lemma_compact_around(fields, i);
    let before = seq![OPEN_BRACE] + encode_utf8(text_before(fields, i));
    let none: Seq<u8> = Seq::empty();
    let token = compact_bytes(value);
    assert(line =~= before + written_key(key) + none + token + rest);
    lemma_encode_char('"');
    match value {
        JsonTree::Str(text) => {
            lemma_encode_both(seq!['"'] + escaped(text), seq!['"']);
            lemma_encode_both(seq!['"'], escaped(text));
            let raw = encode_utf8(escaped(text));
            lemma_escaped_is_string_text(text);
            assert(token =~= seq![QUOTE] + raw + seq![QUOTE]);
            assert(line =~= before + written_key(key) + none + seq![QUOTE] + raw + seq![QUOTE]
                + rest);
            lemma_extracted_string(line, key, before, none, raw, rest);
        },
        JsonTree::Arr(_) => {},
        JsonTree::Obj(_) => {},
        _ => {
            lemma_word_bytes();
            if let JsonTree::Num(text) = value {
                lemma_number_bytes(text);
            }
            assert forall|k: int| 0 <= k < token.len() implies is_bare(#[trigger] token[k]) by {
                if value is Num {
                    assert(in_number(token[k]));
                }
            }
            assert(is_bare(token[0]));
            if value is Num {
                assert(in_number(token[0]));
            }
            lemma_extracted_bare(line, key, before, none, token, rest);
        },
    }
}

} // verus!
