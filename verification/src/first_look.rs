//! Which lines fail the first look, so that they are not parsed.

use vstd::prelude::*;

use crate::bytes::{BACKSLASH, CLOSE_BRACE, COLON, COMMA, QUOTE, SPACE, TAB};
use crate::extraction::{
    are_blanks, is_bare, is_string_text, lemma_bare_end, lemma_string_text_end,
};
use crate::fields::{
    first_at, is_first_at, key_may_stand, lemma_first_at, lemma_next_value, next_value, raw_value,
    stands_at, values_from, written_key,
};
use crate::filter::token_holds;
use crate::query::Op;
use crate::scan::{number_end, skip_blanks};
use crate::screen::{
    is_position_needle, lemma_written_key_is_one, may_match, pair_may_hold, writes_position,
};
use crate::text::position_of;
use crate::written::{is_json_white, is_short_integer, quoted_key, skip_white, value_behind};

verus! {

/// At `p` a line writes a key with a string behind it: the key between quotes, a colon with
/// any spaces and tabs around it, and a text between quotes.
pub open spec fn writes_string(
    line: Seq<u8>,
    key: Seq<char>,
    p: int,
    left: Seq<u8>,
    right: Seq<u8>,
    text: Seq<u8>,
) -> bool {
    &&& are_blanks(left)
    &&& are_blanks(right)
    &&& !text.contains(QUOTE)
    &&& stands_at(
        line,
        quoted_key(key) + left + seq![COLON] + right + seq![QUOTE] + text + seq![QUOTE],
        p,
    )
}

/// `true`, `false`, `null`, or an integer of at most eighteen digits.
pub open spec fn is_plain_value(token: Seq<u8>) -> bool {
    ||| token == seq![0x74u8, 0x72, 0x75, 0x65]
    ||| token == seq![0x66u8, 0x61, 0x6C, 0x73, 0x65]
    ||| token == seq![0x6Eu8, 0x75, 0x6C, 0x6C]
    ||| 0 < token.len() <= 18 && forall|i: int|
        0 <= i < token.len() ==> 0x30 <= #[trigger] token[i] <= 0x39
}

/// At `p` a line writes a key with a value without quotes behind it, which ends there.
pub open spec fn writes_plain(
    line: Seq<u8>,
    key: Seq<char>,
    p: int,
    left: Seq<u8>,
    right: Seq<u8>,
    token: Seq<u8>,
) -> bool {
    let all = quoted_key(key) + left + seq![COLON] + right + token;
    let e = p + all.len();
    &&& are_blanks(left)
    &&& are_blanks(right)
    &&& is_plain_value(token)
    &&& stands_at(line, all, p)
    &&& e == line.len() || line[e] == COMMA || line[e] == CLOSE_BRACE || line[e] == SPACE || line[e]
        == TAB
}

/// At `p` a line writes a key with a string behind it, or with a value without quotes.
pub open spec fn writes_text(
    line: Seq<u8>,
    key: Seq<char>,
    p: int,
    left: Seq<u8>,
    right: Seq<u8>,
    text: Seq<u8>,
) -> bool {
    ||| writes_string(line, key, p, left, right, text)
    ||| writes_plain(line, key, p, left, right, text)
}

/// Where a key is quoted in a line, it is a key with a string, a truth value, null or a
/// short integer behind it that does not compare with a target as asked.
pub open spec fn all_differ(
    line: Seq<u8>,
    key: Seq<char>,
    op: Op,
    target: Seq<char>,
    num: spec_fn(Seq<u8>) -> Option<u64>,
) -> bool {
    forall|p: int| #[trigger]
        stands_at(line, quoted_key(key), p) ==> exists|
            left: Seq<u8>,
            right: Seq<u8>,
            text: Seq<u8>,
        |
            writes_text(line, key, p, left, right, text) && !token_holds(text, op, target, num)
}

/// The values of a key are what stands behind its places.
proof fn lemma_values_stand(line: Seq<u8>, needle: Seq<u8>, from: int, i: int) -> (q: int)
    requires
        needle.len() > 0,
        0 <= i < values_from(line, needle, from).len(),
    ensures
        stands_at(line, needle, q),
        raw_value(line, q + needle.len()) == Some(values_from(line, needle, from)[i]),
    decreases line.len() - from, i,
{
    let all = values_from(line, needle, from);
    let (value, next) = next_value(line, needle, from)->Some_0;
    lemma_next_value(line, needle, from);
    assert(all == seq![value] + values_from(line, needle, next));
    if i == 0 {
        lemma_value_stands(line, needle, from)
    } else {
        lemma_values_stand(line, needle, next, i - 1)
    }
}

proof fn lemma_value_stands(line: Seq<u8>, needle: Seq<u8>, from: int) -> (q: int)
    requires
        needle.len() > 0,
        next_value(line, needle, from) is Some,
    ensures
        stands_at(line, needle, q),
        raw_value(line, q + needle.len()) == Some(next_value(line, needle, from)->Some_0.0),
    decreases line.len() - from,
{
    lemma_first_at(line, needle, from);
    let p = first_at(line, needle, from)->Some_0;
    assert(is_first_at(line, needle, from, p));
    if key_may_stand(line, p) {
        p
    } else {
        lemma_value_stands(line, needle, p + needle.len())
    }
}

proof fn lemma_no_position(key: Seq<char>)
    requires
        position_of(key) is None,
    ensures
        !is_position_needle(written_key(key)),
{
    assert forall|i: int| !writes_position(written_key(key), i) by {
        if writes_position(written_key(key), i) {
            let segment = choose|segment: Seq<char>|
                #[trigger] written_key(segment) == written_key(key) && position_of(segment)
                    == Some(i);
            lemma_written_key_is_one(segment, key);
        }
    }
}

proof fn lemma_skips(line: Seq<u8>, a: int, b: int)
    requires
        0 <= a <= b < line.len(),
        are_blanks(line.subrange(a, b)),
        line[b] == QUOTE || line[b] == COLON,
    ensures
        skip_blanks(line, a) == b,
        skip_white(line, a) == b,
{
    lemma_skips_to(line, a, b);
}

proof fn lemma_skips_to(line: Seq<u8>, a: int, b: int)
    requires
        0 <= a <= b < line.len(),
        are_blanks(line.subrange(a, b)),
        !is_json_white(line[b]),
    ensures
        skip_blanks(line, a) == b,
        skip_white(line, a) == b,
    decreases b - a,
{
    if a < b {
        let all = line.subrange(a, b);
        let rest = line.subrange(a + 1, b);
        assert(all[0] == line[a]);
        assert forall|i: int| 0 <= i < rest.len() implies #[trigger] rest[i] == SPACE || rest[i]
            == TAB by {
            assert(all[i + 1] == rest[i]);
        }
        lemma_skips_to(line, a + 1, b);
    }
}

proof fn lemma_plain_text(text: Seq<u8>)
    requires
        !text.contains(QUOTE),
        !text.contains(BACKSLASH),
    ensures
        is_string_text(text),
    decreases text.len(),
{
    if text.len() > 0 {
        let rest = text.skip(1);
        assert forall|b: u8| rest.contains(b) implies text.contains(b) by {
            let i = choose|i: int| 0 <= i < rest.len() && rest[i] == b;
            assert(text[i + 1] == b);
        }
        assert(text.contains(text[0]));
        lemma_plain_text(rest);
    }
}

/// What is read behind a key that writes a string.
proof fn lemma_string_is_read(
    line: Seq<u8>,
    key: Seq<char>,
    p: int,
    left: Seq<u8>,
    right: Seq<u8>,
    text: Seq<u8>,
)
    requires
        writes_string(line, key, p, left, right, text),
        !line.contains(BACKSLASH),
    ensures
        value_behind(line, p + quoted_key(key).len()) matches Some(value) && value.raw == text
            && value.kind is Str,
        stands_at(line, written_key(key), p) ==> raw_value(line, p + written_key(key).len())
            == Some(text),
{
    let quoted = quoted_key(key);
    let all = quoted + left + seq![COLON] + right + seq![QUOTE] + text + seq![QUOTE];
    let here = line.subrange(p, p + all.len());
    assert(here == all);
    let a = p + quoted.len();
    let colon = a + left.len();
    let s = colon + 1 + right.len();
    let e = s + 1 + text.len();
    assert(here[colon - p] == COLON && here[s - p] == QUOTE && here[e - p] == QUOTE);
    assert(line.subrange(a, colon) =~= left) by {
        assert forall|i: int| 0 <= i < left.len() implies line.subrange(a, colon)[i] == left[i] by {
            assert(here[quoted.len() + i] == left[i]);
        }
    }
    assert(line.subrange(colon + 1, s) =~= right) by {
        assert forall|i: int| 0 <= i < right.len() implies line.subrange(colon + 1, s)[i]
            == right[i] by {
            assert(here[colon + 1 - p + i] == right[i]);
        }
    }
    assert(line.subrange(s + 1, e) =~= text) by {
        assert forall|i: int| 0 <= i < text.len() implies line.subrange(s + 1, e)[i]
            == text[i] by {
            assert(here[s + 1 - p + i] == text[i]);
        }
    }
    assert(!text.contains(BACKSLASH)) by {
        if text.contains(BACKSLASH) {
            let i = choose|i: int| 0 <= i < text.len() && text[i] == BACKSLASH;
            assert(line.subrange(s + 1, e)[i] == line[s + 1 + i]);
        }
    }
    lemma_skips(line, a, colon);
    lemma_skips(line, colon + 1, s);
    lemma_plain_text(text);
    lemma_string_text_end(line, s + 1, text);
    assert(skip_blanks(line, s) == s);
    if stands_at(line, written_key(key), p) {
        let needle = written_key(key);
        assert(line.subrange(p, p + needle.len())[quoted.len() as int] == COLON);
        assert(line[a] == COLON);
        if left.len() > 0 {
            assert(left[0] == SPACE || left[0] == TAB);
            assert(line.subrange(a, colon)[0] == line[a]);
        }
    }
}

proof fn lemma_digits_end(line: Seq<u8>, a: int, b: int)
    requires
        0 <= a <= b <= line.len(),
        forall|i: int| a <= i < b ==> 0x30 <= #[trigger] line[i] <= 0x39,
        b == line.len() || line[b] == COMMA || line[b] == CLOSE_BRACE || line[b] == SPACE || line[b]
            == TAB,
    ensures
        number_end(line, a) == b,
    decreases b - a,
{
    if a < b {
        assert(0x30 <= line[a] <= 0x39);
        lemma_digits_end(line, a + 1, b);
    }
}

/// What is read behind a key that writes a value without quotes.
proof fn lemma_plain_is_read(
    line: Seq<u8>,
    key: Seq<char>,
    p: int,
    left: Seq<u8>,
    right: Seq<u8>,
    token: Seq<u8>,
)
    requires
        writes_plain(line, key, p, left, right, token),
    ensures
        value_behind(line, p + quoted_key(key).len()) matches Some(value) && value.raw == token && !(
        value.kind is Nested),
        value_behind(line, p + quoted_key(key).len())->Some_0.kind is Num ==> is_short_integer(
            token,
        ),
        stands_at(line, written_key(key), p) ==> raw_value(line, p + written_key(key).len())
            == Some(token),
{
    let quoted = quoted_key(key);
    let all = quoted + left + seq![COLON] + right + token;
    let here = line.subrange(p, p + all.len());
    assert(here == all);
    let a = p + quoted.len();
    let colon = a + left.len();
    let s = colon + 1 + right.len();
    let e = s + token.len();
    assert(here[colon - p] == COLON);
    assert(line.subrange(a, colon) =~= left) by {
        assert forall|i: int| 0 <= i < left.len() implies line.subrange(a, colon)[i] == left[i] by {
            assert(here[quoted.len() + i] == left[i]);
        }
    }
    assert(line.subrange(colon + 1, s) =~= right) by {
        assert forall|i: int| 0 <= i < right.len() implies line.subrange(colon + 1, s)[i]
            == right[i] by {
            assert(here[colon + 1 - p + i] == right[i]);
        }
    }
    assert forall|i: int| 0 <= i < token.len() implies #[trigger] line[s + i] == token[i] by {
        assert(here[s - p + i] == token[i]);
    }
    assert(line.subrange(s, e) =~= token) by {
        assert forall|i: int| 0 <= i < token.len() implies line.subrange(s, e)[i] == token[i] by {
            assert(line[s + i] == token[i]);
        }
    }
    assert(token.len() > 0);
    assert(line[s + 0] == token[0]);
    assert(token[0] != QUOTE && is_bare(token[0]) && !is_json_white(token[0]) && token[0] != 0x7B
        && token[0] != 0x5B);
    lemma_skips(line, a, colon);
    lemma_skips_to(line, colon + 1, s);
    assert(skip_blanks(line, s) == s);
    let rest = line.skip(s);
    assert forall|i: int| 0 <= i < token.len() implies #[trigger] rest[i] == token[i] by {
        assert(line[s + i] == token[i]);
    }
    assert(rest.take(token.len() as int) =~= token);
    assert(rest[0] == token[0]);
    if 0x30 <= token[0] <= 0x39 {
        assert forall|i: int| s <= i < e implies 0x30 <= #[trigger] line[i] <= 0x39 by {
            assert(line[s + (i - s)] == token[i - s]);
        }
        lemma_digits_end(line, s, e);
    }
    if stands_at(line, written_key(key), p) {
        let needle = written_key(key);
        assert(line.subrange(p, p + needle.len())[quoted.len() as int] == COLON);
        assert(line[a] == COLON);
        if left.len() > 0 {
            assert(left[0] == SPACE || left[0] == TAB);
            assert(line.subrange(a, colon)[0] == line[a]);
        }
        assert forall|i: int| s <= i < e implies is_bare(#[trigger] line[i]) by {
            assert(line[s + (i - s)] == token[i - s]);
        }
        lemma_bare_end(line, s, e);
    }
}

proof fn lemma_key_in_needle(line: Seq<u8>, key: Seq<char>, p: int)
    requires
        stands_at(line, written_key(key), p),
    ensures
        stands_at(line, quoted_key(key), p),
{
    let needle = written_key(key);
    let quoted = quoted_key(key);
    assert(line.subrange(p, p + quoted.len()) =~= quoted) by {
        assert forall|i: int| 0 <= i < quoted.len() implies line.subrange(p, p + quoted.len())[i]
            == quoted[i] by {
            assert(line.subrange(p, p + needle.len())[i] == needle[i]);
        }
    }
}

/// A line fails the first look where each place at which it quotes the key writes a value
/// that does not compare as asked; a line that quotes the key nowhere is one of these. The
/// line escapes nothing, and the key is no position.
pub proof fn lemma_first_look_fails(
    line: Seq<u8>,
    key: Seq<char>,
    op: Op,
    target: Seq<char>,
    num: spec_fn(Seq<u8>) -> Option<u64>,
)
    requires
        position_of(key) is None,
        !line.contains(BACKSLASH),
        all_differ(line, key, op, target, num),
    ensures
        !may_match(line, written_key(key), op, target, num),
{
    let needle = written_key(key);
    lemma_no_position(key);
    assert(needle.drop_last() =~= quoted_key(key));
    let values = values_from(line, needle, 0);
    assert forall|i: int| 0 <= i < values.len() implies !token_holds(
        #[trigger] values[i],
        op,
        target,
        num,
    ) by {
        let q = lemma_values_stand(line, needle, 0, i);
        lemma_key_in_needle(line, key, q);
        let (left, right, text) = choose|left: Seq<u8>, right: Seq<u8>, text: Seq<u8>|
            writes_text(line, key, q, left, right, text) && !token_holds(text, op, target, num);
        if writes_string(line, key, q, left, right, text) {
            lemma_string_is_read(line, key, q, left, right, text);
        } else {
            lemma_plain_is_read(line, key, q, left, right, text);
        }
    }
    assert forall|p: int| !pair_may_hold(line, needle, p, op, target, num) by {
        if pair_may_hold(line, needle, p, op, target, num) {
            assert(stands_at(line, quoted_key(key), p));
            let (left, right, text) = choose|left: Seq<u8>, right: Seq<u8>, text: Seq<u8>|
                writes_text(line, key, p, left, right, text) && !token_holds(
                    text,
                    op,
                    target,
                    num,
                );
            if writes_string(line, key, p, left, right, text) {
                lemma_string_is_read(line, key, p, left, right, text);
            } else {
                lemma_plain_is_read(line, key, p, left, right, text);
            }
        }
    }
}

/// A line passes the first look where its bytes cannot tell: where it escapes something,
/// where the key is a position, and, asked for a text or a beginning, where it writes an
/// object or an array behind the key.
pub proof fn lemma_first_look_cannot_tell(
    line: Seq<u8>,
    key: Seq<char>,
    p: int,
    left: Seq<u8>,
    right: Seq<u8>,
    open: u8,
    op: Op,
    target: Seq<char>,
    num: spec_fn(Seq<u8>) -> Option<u64>,
)
    ensures
        line.contains(BACKSLASH) ==> may_match(line, written_key(key), op, target, num),
        position_of(key) is Some ==> may_match(line, written_key(key), op, target, num),
        are_blanks(left) && are_blanks(right) && (open == 0x7B || open == 0x5B) && stands_at(
            line,
            quoted_key(key) + left + seq![COLON] + right + seq![open],
            p,
        ) && (op is Eq || op is Prefix) ==> may_match(line, written_key(key), op, target, num),
{
    let needle = written_key(key);
    if position_of(key) is Some {
        assert(written_key(key) == needle);
        assert(writes_position(needle, position_of(key)->Some_0));
    }
    let all = quoted_key(key) + left + seq![COLON] + right + seq![open];
    if are_blanks(left) && are_blanks(right) && (open == 0x7B || open == 0x5B) && stands_at(
        line,
        all,
        p,
    ) && (op is Eq || op is Prefix) {
        let quoted = quoted_key(key);
        let here = line.subrange(p, p + all.len());
        let a = p + quoted.len();
        let colon = a + left.len();
        let s = colon + 1 + right.len();
        assert(needle.drop_last() =~= quoted);
        assert(here[colon - p] == COLON && here[s - p] == open);
        assert(line.subrange(p, a) =~= quoted) by {
            assert forall|i: int| 0 <= i < quoted.len() implies line.subrange(p, a)[i]
                == quoted[i] by {
                assert(here[i] == quoted[i]);
            }
        }
        assert(line.subrange(a, colon) =~= left) by {
            assert forall|i: int| 0 <= i < left.len() implies line.subrange(a, colon)[i]
                == left[i] by {
                assert(here[quoted.len() + i] == left[i]);
            }
        }
        assert(line.subrange(colon + 1, s) =~= right) by {
            assert forall|i: int| 0 <= i < right.len() implies line.subrange(colon + 1, s)[i]
                == right[i] by {
                assert(here[colon + 1 - p + i] == right[i]);
            }
        }
        lemma_skips(line, a, colon);
        lemma_skips_to(line, colon + 1, s);
        assert(skip_blanks(line, s) == s);
        assert(pair_may_hold(line, needle, p, op, target, num));
    }
}

} // verus!
