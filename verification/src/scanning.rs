//! What is found for a key in any line, whether or not it is the text of an object.

use vstd::prelude::*;

use crate::bytes::{has_prefix, BACKSLASH, COLON, OPEN_BRACE, QUOTE, SPACE, TAB};
use crate::extraction::{are_blanks, is_string_text, lemma_skip_blanks, lemma_string_text_end};
use crate::scan::{
    field_of, in_number, in_object, is_blank, is_first_top_key, is_key, is_top_key,
    lemma_string_end, nesting, number_end, skip_blanks, string_end, tokens, tokens_from, value_at,
    word_false, word_null, word_true, FieldKind, ValueView,
};
use crate::spacing::{lemma_first_is_one, lemma_first_top_key, lemma_tokens_rise};

verus! {

/// A byte of numbers: a digit, a sign, a point or the letter of an exponent.
pub open spec fn is_number_byte(b: u8) -> bool {
    seq![0x2Bu8, 0x2D, 0x2E, 0x45, 0x65].contains(b) || 0x30 <= b <= 0x39
}

/// The bytes are those of a value of a kind, with `rest` behind them: a number begins with
/// a digit or a minus sign and goes on as long as bytes of numbers follow; an object or an
/// array is told by its bracket, which is left in `rest`.
pub open spec fn is_text_of(value: ValueView, rest: Seq<u8>) -> bool {
    match value.kind {
        FieldKind::Str => value.has_escapes == value.raw.contains(0x5Cu8),
        FieldKind::Num => {
            &&& value.raw.len() > 0
            &&& value.raw[0] == 0x2D || 0x30 <= value.raw[0] <= 0x39
            &&& forall|i: int| 0 <= i < value.raw.len() ==> is_number_byte(#[trigger] value.raw[i])
            &&& rest.len() > 0 ==> !is_number_byte(rest[0])
            &&& !value.has_escapes
        },
        FieldKind::Bool => (value.raw == seq![0x74u8, 0x72, 0x75, 0x65] || value.raw == seq![
            0x66u8,
            0x61,
            0x6C,
            0x73,
            0x65,
        ]) && !value.has_escapes,
        FieldKind::Null => value.raw == seq![0x6Eu8, 0x75, 0x6C, 0x6C] && !value.has_escapes,
        FieldKind::Nested => {
            &&& value.raw.len() == 0
            &&& rest.len() > 0 && (rest[0] == 0x7B || rest[0] == 0x5B)
            &&& !value.has_escapes
        },
    }
}

/// A value as it is written, with `rest` behind it.
pub open spec fn value_text(value: ValueView, rest: Seq<u8>) -> Seq<u8> {
    if value.kind == FieldKind::Str {
        seq![QUOTE] + value.raw + seq![QUOTE] + rest
    } else {
        value.raw + rest
    }
}

/// A line writes a value behind a key: the key between quotes, a colon with any spaces and
/// tabs around it, and the value, which is a string between quotes or begins with its text.
pub open spec fn writes_value(
    line: Seq<u8>,
    before: Seq<u8>,
    key: Seq<u8>,
    left: Seq<u8>,
    right: Seq<u8>,
    value: ValueView,
    rest: Seq<u8>,
) -> bool {
    &&& are_blanks(left)
    &&& are_blanks(right)
    &&& is_text_of(value, rest)
    &&& line == before + seq![QUOTE] + key + seq![QUOTE] + left + seq![COLON] + right + value_text(
        value,
        rest,
    )
}

proof fn lemma_blanks_between(line: Seq<u8>, i: int)
    requires
        0 <= i <= line.len(),
    ensures
        i <= skip_blanks(line, i) <= line.len(),
        are_blanks(line.subrange(i, skip_blanks(line, i))),
    decreases line.len() - i,
{
    if i < line.len() && is_blank(line[i]) {
        lemma_blanks_between(line, i + 1);
        let e = skip_blanks(line, i);
        let rest = line.subrange(i + 1, e);
        let all = line.subrange(i, e);
        assert forall|k: int| 0 <= k < all.len() implies #[trigger] all[k] == 0x20 || all[k]
            == 0x09 by {
            if k > 0 {
                assert(all[k] == rest[k - 1]);
            }
        }
    }
}

proof fn lemma_number_within(line: Seq<u8>, i: int)
    requires
        0 <= i <= line.len(),
    ensures
        i <= number_end(line, i) <= line.len(),
        forall|k: int| i <= k < number_end(line, i) ==> is_number_byte(#[trigger] line[k]),
        number_end(line, i) < line.len() ==> !is_number_byte(line[number_end(line, i)]),
        i < line.len() && is_number_byte(line[i]) ==> i < number_end(line, i),
    decreases line.len() - i,
{
    if i < line.len() {
        lemma_number_byte(line[i]);
        if in_number(line[i]) {
            lemma_number_within(line, i + 1);
        }
    }
}

proof fn lemma_number_byte(b: u8)
    ensures
        in_number(b) <==> is_number_byte(b),
{
    let others = seq![0x2Bu8, 0x2D, 0x2E, 0x45, 0x65];
    if in_number(b) && !(0x30 <= b <= 0x39) {
        assert(others[0] == b || others[1] == b || others[2] == b || others[3] == b || others[4]
            == b);
    }
}

/// A value that is read from any position stands in the line there, behind blanks, and is
/// of its kind.
pub proof fn lemma_value_text(line: Seq<u8>, i: int) -> (rest: Seq<u8>)
    requires
        0 <= i <= line.len(),
        value_at(line, i) is Some,
    ensures
        is_text_of(value_at(line, i)->Some_0, rest),
        line.skip(skip_blanks(line, i)) == value_text(value_at(line, i)->Some_0, rest),
{
    let value = value_at(line, i)->Some_0;
    let s = skip_blanks(line, i);
    lemma_blanks_between(line, i);
    lemma_string_end(line, s + 1);
    match value.kind {
        FieldKind::Str => {
            let e = string_end(line, s + 1)->Some_0;
            let rest = line.skip(e + 1);
            assert(line.skip(s) =~= value_text(value, rest));
            rest
        },
        FieldKind::Num => {
            lemma_number_within(line, s);
            lemma_number_byte(line[s]);
            let e = number_end(line, s);
            let rest = line.skip(e);
            assert forall|k: int| 0 <= k < value.raw.len() implies is_number_byte(
                #[trigger] value.raw[k],
            ) by {
                assert(value.raw[k] == line[s + k]);
            }
            assert(value.raw[0] == line[s]);
            if rest.len() > 0 {
                assert(rest[0] == line[e]);
            }
            assert(line.skip(s) =~= value_text(value, rest));
            rest
        },
        _ => {
            let rest = line.skip(s + value.raw.len());
            assert(line.skip(s) =~= value_text(value, rest));
            if value.kind is Nested {
                assert(rest[0] == line[s]);
            }
            rest
        },
    }
}

/// What is found for a key stands in the line as it is: behind the key, between quotes
/// where it is a string, and else by a text of its kind. A string that the line does not
/// close is never found, and neither is what begins like no value.
pub proof fn lemma_found_value_is_written(line: Seq<u8>, key: Seq<u8>)
    ensures
        field_of(line, key) matches Some(value) ==> exists|
            before: Seq<u8>,
            left: Seq<u8>,
            right: Seq<u8>,
            rest: Seq<u8>,
        | #[trigger]
            writes_value(line, before, key, left, right, value, rest),
{
    if field_of(line, key) is Some {
        let value = field_of(line, key)->Some_0;
        let any = choose|j: int| is_top_key(line, j, key);
        let j = lemma_first_top_key(line, key, any);
        lemma_first_is_one(line, key, j);
        lemma_tokens_rise(line, 0);
        let p = tokens(line)[j];
        let e = string_end(line, p + 1)->Some_0;
        lemma_string_end(line, p + 1);
        lemma_blanks_between(line, e + 1);
        let colon = skip_blanks(line, e + 1);
        lemma_blanks_between(line, colon + 1);
        let s = skip_blanks(line, colon + 1);
        let rest = lemma_value_text(line, colon + 1);
        let before = line.take(p);
        let left = line.subrange(e + 1, colon);
        let right = line.subrange(colon + 1, s);
        assert(line.subrange(p + 1, e) == key);
        lemma_pieces(line, p, e, colon, s);
        assert(writes_value(line, before, key, left, right, value, rest));
    }
}

proof fn lemma_pieces(line: Seq<u8>, p: int, e: int, colon: int, s: int)
    requires
        0 <= p < e < colon < s <= line.len(),
        line[p] == QUOTE,
        line[e] == QUOTE,
        line[colon] == COLON,
    ensures
        line == line.take(p) + seq![QUOTE] + line.subrange(p + 1, e) + seq![QUOTE] + line.subrange(
            e + 1,
            colon,
        ) + seq![COLON] + line.subrange(colon + 1, s) + line.skip(s),
{
    assert(line =~= line.take(p) + seq![QUOTE] + line.subrange(p + 1, e) + seq![QUOTE]
        + line.subrange(e + 1, colon) + seq![COLON] + line.subrange(colon + 1, s) + line.skip(s));
}

proof fn lemma_end_stays(line: Seq<u8>, more: Seq<u8>, i: int)
    requires
        0 <= i,
    ensures
        string_end(line, i) is Some ==> string_end(line + more, i) == string_end(line, i),
    decreases line.len() - i,
{
    if i < line.len() && line[i] != QUOTE {
        if line[i] != BACKSLASH {
            lemma_end_stays(line, more, i + 1);
        } else if i + 1 < line.len() {
            lemma_end_stays(line, more, i + 2);
        }
    }
}

proof fn lemma_blanks_stay(line: Seq<u8>, more: Seq<u8>, i: int)
    requires
        0 <= i,
    ensures
        skip_blanks(line, i) < line.len() ==> skip_blanks(line + more, i) == skip_blanks(line, i),
    decreases line.len() - i,
{
    if i < line.len() && is_blank(line[i]) {
        lemma_blanks_stay(line, more, i + 1);
    }
}

proof fn lemma_blanks_stop(line: Seq<u8>, i: int, p: int)
    requires
        0 <= i <= p < line.len(),
        !is_blank(line[p]),
    ensures
        i <= skip_blanks(line, i) <= p,
    decreases p - i,
{
    if is_blank(line[i]) {
        lemma_blanks_stop(line, i + 1, p);
    }
}

proof fn lemma_number_stays(line: Seq<u8>, more: Seq<u8>, i: int)
    requires
        0 <= i <= line.len(),
        more.len() > 0 ==> !in_number(more[0]),
    ensures
        number_end(line + more, i) == number_end(line, i),
    decreases line.len() - i,
{
    if i < line.len() {
        if in_number(line[i]) {
            lemma_number_stays(line, more, i + 1);
        }
    } else if more.len() > 0 {
        assert((line + more)[i] == more[0]);
    }
}

/// The tokens of a line are the first tokens of a longer one.
proof fn lemma_tokens_stay(line: Seq<u8>, more: Seq<u8>, p: int, j: int)
    requires
        0 <= p,
        0 <= j < tokens_from(line, p).len(),
    ensures
        j < tokens_from(line + more, p).len(),
        tokens_from(line + more, p)[j] == tokens_from(line, p)[j],
    decreases line.len() - p,
{
    let all = line + more;
    assert(all[p] == line[p]);
    lemma_string_end(line, p + 1);
    lemma_end_stays(line, more, p + 1);
    if line[p] == QUOTE && string_end(line, p + 1) is None {
        assert(tokens_from(line, p) =~= seq![p]);
        if string_end(all, p + 1) is Some {
            lemma_string_end(all, p + 1);
        }
    } else {
        let next = if line[p] == QUOTE {
            string_end(line, p + 1)->Some_0 + 1
        } else {
            p + 1
        };
        if line[p] == QUOTE {
            lemma_string_end(all, p + 1);
        }
        assert(tokens_from(line, p) == seq![p] + tokens_from(line, next));
        assert(tokens_from(all, p) == seq![p] + tokens_from(all, next));
        if j > 0 {
            lemma_tokens_stay(line, more, next, j - 1);
        }
    }
}

proof fn lemma_nesting_stays(line: Seq<u8>, more: Seq<u8>, toks: Seq<int>)
    requires
        forall|i: int| 0 <= i < toks.len() ==> 0 <= #[trigger] toks[i] < line.len(),
    ensures
        nesting(line + more, toks) == nesting(line, toks),
        in_object(line + more, toks) == in_object(line, toks),
    decreases toks.len(),
{
    if toks.len() > 0 {
        lemma_nesting_stays(line, more, toks.drop_last());
        assert((line + more)[toks.last()] == line[toks.last()]);
    }
}

proof fn lemma_value_stays(line: Seq<u8>, more: Seq<u8>, i: int)
    requires
        0 <= i <= line.len(),
        value_at(line, i) is Some,
        value_at(line, i)->Some_0.kind == FieldKind::Num && more.len() > 0 ==> !in_number(more[0]),
    ensures
        value_at(line + more, i) == value_at(line, i),
{
    let all = line + more;
    let s = skip_blanks(line, i);
    lemma_blanks_stay(line, more, i);
    lemma_blanks_between(line, i);
    lemma_string_end(line, s + 1);
    lemma_end_stays(line, more, s + 1);
    assert(all[s] == line[s]);
    if line[s] == QUOTE {
        let e = string_end(line, s + 1)->Some_0;
        assert(all.subrange(s + 1, e) =~= line.subrange(s + 1, e));
    } else {
        assert(all.skip(s) =~= line.skip(s) + more);
        lemma_words_stay(line.skip(s), more);
        if value_at(line, i)->Some_0.kind == FieldKind::Num {
            lemma_number_stays(line, more, s);
            lemma_number_within(line, s);
            let e = number_end(line, s);
            assert(all.subrange(s, e) =~= line.subrange(s, e));
            assert(all.skip(s)[0] == line[s]);
        }
    }
}

proof fn lemma_words_stay(rest: Seq<u8>, more: Seq<u8>)
    ensures
        forall|word: Seq<u8>| #[trigger]
            has_prefix(rest, word) ==> has_prefix(rest + more, word),
        forall|word: Seq<u8>|
            word.len() > 0 && rest.len() > 0 && word[0] != rest[0] ==> !#[trigger]
            has_prefix(rest + more, word),
{
    assert forall|word: Seq<u8>| #[trigger] has_prefix(rest, word) implies
        has_prefix(rest + more, word) by {
        assert((rest + more).take(word.len() as int) =~= rest.take(word.len() as int));
    }
    assert forall|word: Seq<u8>|
        word.len() > 0 && rest.len() > 0 && word[0] != rest[0] implies !#[trigger]
    has_prefix(rest + more, word) by {
        if has_prefix(rest + more, word) {
            assert((rest + more)[0] == rest[0]);
        }
    }
}

/// What stands behind a value that was found does not matter, be it the rest of the object,
/// anything else, or nothing because the line is cut off; a number goes on as long as bytes
/// of numbers follow.
pub proof fn lemma_what_follows_does_not_matter(line: Seq<u8>, more: Seq<u8>, key: Seq<u8>)
    requires
        field_of(line, key) is Some,
        field_of(line, key)->Some_0.kind == FieldKind::Num && more.len() > 0 ==> !in_number(
            more[0],
        ),
    ensures
        field_of(line + more, key) == field_of(line, key),
{
    let all = line + more;
    let toks = tokens(line);
    let any = choose|j: int| is_top_key(line, j, key);
    let j = lemma_first_top_key(line, key, any);
    lemma_first_is_one(line, key, j);
    lemma_tokens_rise(line, 0);
    let p = toks[j];
    assert forall|i: int| 0 <= i <= j implies (#[trigger] is_top_key(all, i, key) <==> is_top_key(
        line,
        i,
        key,
    )) by {
        lemma_top_key_stays(line, more, key, i, j);
    }
    assert(is_top_key(all, j, key));
    assert forall|i: int| 0 <= i < j implies !is_top_key(all, i, key) by {
        assert(!is_top_key(line, i, key));
    }
    assert(is_first_top_key(all, j, key));
    lemma_first_is_one(all, key, j);
    lemma_tokens_stay(line, more, 0, j);
    let e = string_end(line, p + 1)->Some_0;
    lemma_string_end(line, p + 1);
    lemma_end_stays(line, more, p + 1);
    let colon = skip_blanks(line, e + 1);
    lemma_blanks_stay(line, more, e + 1);
    lemma_blanks_between(line, e + 1);
    lemma_value_stays(line, more, colon + 1);
}

/// Up to a key that was found, a longer line has the keys of the line.
proof fn lemma_top_key_stays(line: Seq<u8>, more: Seq<u8>, key: Seq<u8>, i: int, j: int)
    requires
        0 <= i <= j,
        is_top_key(line, j, key),
    ensures
        is_top_key(line + more, i, key) <==> is_top_key(line, i, key),
{
    let all = line + more;
    let toks = tokens(line);
    lemma_tokens_rise(line, 0);
    lemma_tokens_stay(line, more, 0, i);
    let t = toks[i];
    let p = toks[j];
    assert forall|k: int| 0 <= k < i implies tokens(all)[k] == toks[k] by {
        lemma_tokens_stay(line, more, 0, k);
    }
    assert(tokens(all).take(i) =~= toks.take(i));
    assert forall|k: int| 0 <= k < toks.take(i).len() implies 0 <= #[trigger] toks.take(i)[k]
        < line.len() by {
        assert(toks.take(i)[k] == toks[k]);
    }
    lemma_nesting_stays(line, more, toks.take(i));
    assert(all[t] == line[t]);
    if line[t] == QUOTE {
        lemma_end_stays(line, more, t + 1);
        lemma_string_end(line, t + 1);
        if i < j {
            // The token is closed, since another one follows it.
            lemma_next_behind(line, i, j);
            lemma_blanks_stop(line, string_end(line, t + 1)->Some_0 + 1, p);
        }
        let e = string_end(line, t + 1)->Some_0;
        let colon = skip_blanks(line, e + 1);
        lemma_blanks_stay(line, more, e + 1);
        assert(all.subrange(t + 1, e) =~= line.subrange(t + 1, e));
        assert(colon < line.len());
        assert(skip_blanks(all, e + 1) == colon);
        lemma_blanks_between(line, e + 1);
        assert(all[colon] == line[colon]);
        assert(is_key(all, t, key) <==> is_key(line, t, key));
    }
}

proof fn lemma_next_behind(line: Seq<u8>, i: int, j: int)
    requires
        0 <= i < j < tokens(line).len(),
        line[tokens(line)[i]] == QUOTE,
    ensures
        string_end(line, tokens(line)[i] + 1) is Some,
        string_end(line, tokens(line)[i] + 1)->Some_0 < tokens(line)[j],
{
    let toks = tokens(line);
    let t = toks[i];
    lemma_tokens_rise(line, 0);
    crate::spacing::lemma_tokens_at(line, 0, i);
    let rest = tokens_from(line, t);
    assert(rest[j - i] == toks[j]);
    assert(rest.len() > 1);
    lemma_string_end(line, t + 1);
    let e = string_end(line, t + 1)->Some_0;
    assert(rest == seq![t] + tokens_from(line, e + 1));
    lemma_tokens_rise(line, e + 1);
    assert(rest[j - i] == tokens_from(line, e + 1)[j - i - 1]);
}

/// A byte that opens and closes nothing: no quote, brace or bracket.
pub open spec fn is_loose(b: u8) -> bool {
    b != 0x22 && b != 0x7B && b != 0x7D && b != 0x5B && b != 0x5D
}

/// Positions that lie `n` further on.
spec fn further(toks: Seq<int>, n: int) -> Seq<int> {
    toks.map_values(|t: int| t + n)
}

/// The positions from `i` up to `n`.
spec fn positions(i: int, n: int) -> Seq<int> {
    Seq::new((n - i) as nat, |k: int| i + k)
}

proof fn lemma_end_behind(head: Seq<u8>, line: Seq<u8>, i: int)
    requires
        0 <= i,
    ensures
        string_end(head + line, head.len() + i) == match string_end(line, i) {
            Some(e) => Some(head.len() + e),
            None => None,
        },
    decreases line.len() - i,
{
    if i < line.len() {
        assert((head + line)[head.len() + i] == line[i]);
        if line[i] != QUOTE {
            if line[i] != BACKSLASH {
                lemma_end_behind(head, line, i + 1);
            } else if i + 1 < line.len() {
                lemma_end_behind(head, line, i + 2);
            }
        }
    }
}

proof fn lemma_blanks_behind(head: Seq<u8>, line: Seq<u8>, i: int)
    requires
        0 <= i,
    ensures
        skip_blanks(head + line, head.len() + i) == head.len() + skip_blanks(line, i),
    decreases line.len() - i,
{
    if i < line.len() {
        assert((head + line)[head.len() + i] == line[i]);
        if is_blank(line[i]) {
            lemma_blanks_behind(head, line, i + 1);
        }
    }
}

proof fn lemma_number_behind(head: Seq<u8>, line: Seq<u8>, i: int)
    requires
        0 <= i,
    ensures
        number_end(head + line, head.len() + i) == head.len() + number_end(line, i),
    decreases line.len() - i,
{
    if i < line.len() {
        assert((head + line)[head.len() + i] == line[i]);
        if in_number(line[i]) {
            lemma_number_behind(head, line, i + 1);
        }
    }
}

proof fn lemma_value_behind(head: Seq<u8>, line: Seq<u8>, i: int)
    requires
        0 <= i <= line.len(),
    ensures
        value_at(head + line, head.len() + i) == value_at(line, i),
{
    let all = head + line;
    let n = head.len() as int;
    let s = skip_blanks(line, i);
    lemma_blanks_behind(head, line, i);
    lemma_blanks_between(line, i);
    assert(all.skip(n + s) =~= line.skip(s));
    if s < line.len() {
        assert(all[n + s] == line[s]);
        lemma_end_behind(head, line, s + 1);
        lemma_string_end(line, s + 1);
        lemma_number_behind(head, line, s);
        lemma_number_within(line, s);
        assert(all.subrange(n + s, n + number_end(line, s)) =~= line.subrange(
            s,
            number_end(line, s),
        ));
        if let Some(e) = string_end(line, s + 1) {
            assert(all.subrange(n + s + 1, n + e) =~= line.subrange(s + 1, e));
        }
    }
}

proof fn lemma_tokens_behind_head(head: Seq<u8>, line: Seq<u8>, i: int)
    requires
        0 <= i,
    ensures
        tokens_from(head + line, head.len() + i) == further(tokens_from(line, i), head.len() as int),
    decreases line.len() - i,
{
    let all = head + line;
    let n = head.len() as int;
    if i < line.len() {
        assert(all[n + i] == line[i]);
        lemma_end_behind(head, line, i + 1);
        lemma_string_end(line, i + 1);
        lemma_string_end(all, n + i + 1);
        if line[i] == QUOTE && string_end(line, i + 1) is None {
            assert(further(seq![i], n) =~= seq![n + i]);
        } else {
            let next = if line[i] == QUOTE {
                string_end(line, i + 1)->Some_0 + 1
            } else {
                i + 1
            };
            lemma_tokens_behind_head(head, line, next);
            assert(tokens_from(line, i) == seq![i] + tokens_from(line, next));
            assert(tokens_from(all, n + i) == seq![n + i] + tokens_from(all, n + next));
            assert(further(seq![i] + tokens_from(line, next), n) =~= seq![n + i] + further(
                tokens_from(line, next),
                n,
            ));
        }
    } else {
        assert(further(tokens_from(line, i), n) =~= Seq::empty());
    }
}

proof fn lemma_tokens_of_head(head: Seq<u8>, line: Seq<u8>, i: int)
    requires
        0 <= i <= head.len(),
        forall|k: int| 0 <= k < head.len() ==> is_loose(#[trigger] head[k]),
    ensures
        tokens_from(head + line, i) == positions(i, head.len() as int) + further(
            tokens(line),
            head.len() as int,
        ),
    decreases head.len() - i,
{
    let all = head + line;
    let n = head.len() as int;
    if i == n {
        lemma_tokens_behind_head(head, line, 0);
        assert(positions(i, n) + further(tokens(line), n) =~= further(tokens(line), n));
    } else {
        lemma_tokens_of_head(head, line, i + 1);
        assert(all[i] == head[i]);
        assert(is_loose(head[i]));
        assert(tokens_from(all, i) == seq![i] + tokens_from(all, i + 1));
        assert(seq![i] + (positions(i + 1, n) + further(tokens(line), n)) =~= positions(i, n)
            + further(tokens(line), n));
    }
}

proof fn lemma_nesting_of_head(head: Seq<u8>, line: Seq<u8>, k: int)
    requires
        0 <= k <= head.len(),
        forall|i: int| 0 <= i < head.len() ==> is_loose(#[trigger] head[i]),
    ensures
        nesting(head + line, positions(0, k)) == 0,
        !in_object(head + line, positions(0, k)),
    decreases k,
{
    if k > 0 {
        lemma_nesting_of_head(head, line, k - 1);
        assert(positions(0, k).drop_last() =~= positions(0, k - 1));
        assert((head + line)[k - 1] == head[k - 1]);
        assert(is_loose(head[k - 1]));
    }
}

proof fn lemma_nesting_behind(head: Seq<u8>, line: Seq<u8>, toks: Seq<int>)
    requires
        forall|i: int| 0 <= i < head.len() ==> is_loose(#[trigger] head[i]),
        forall|i: int| 0 <= i < toks.len() ==> 0 <= #[trigger] toks[i] < line.len(),
    ensures
        ({
            let n = head.len() as int;
            let all = positions(0, n) + further(toks, n);
            &&& nesting(head + line, all) == nesting(line, toks)
            &&& in_object(head + line, all) == in_object(line, toks)
        }),
    decreases toks.len(),
{
    let n = head.len() as int;
    let all = positions(0, n) + further(toks, n);
    if toks.len() == 0 {
        lemma_nesting_of_head(head, line, n);
        assert(all =~= positions(0, n));
    } else {
        lemma_nesting_behind(head, line, toks.drop_last());
        assert(all.drop_last() =~= positions(0, n) + further(toks.drop_last(), n));
        assert(all.last() == toks.last() + n);
        assert((head + line)[toks.last() + n] == line[toks.last()]);
    }
}

proof fn lemma_top_key_behind(head: Seq<u8>, line: Seq<u8>, j: int, key: Seq<u8>)
    requires
        forall|i: int| 0 <= i < head.len() ==> is_loose(#[trigger] head[i]),
        0 <= j < tokens(line).len(),
    ensures
        is_top_key(head + line, head.len() + j, key) <==> is_top_key(line, j, key),
        tokens(head + line)[head.len() + j] == head.len() + tokens(line)[j],
{
    let all = head + line;
    let n = head.len() as int;
    let toks = tokens(line);
    lemma_tokens_of_head(head, line, 0);
    lemma_tokens_rise(line, 0);
    let t = toks[j];
    assert(tokens(all)[n + j] == t + n);
    assert(tokens(all).take(n + j) =~= positions(0, n) + further(toks.take(j), n));
    assert forall|i: int| 0 <= i < toks.take(j).len() implies 0 <= #[trigger] toks.take(j)[i]
        < line.len() by {
        assert(toks.take(j)[i] == toks[i]);
    }
    lemma_nesting_behind(head, line, toks.take(j));
    assert(all[t + n] == line[t]);
    lemma_end_behind(head, line, t + 1);
    lemma_string_end(line, t + 1);
    if line[t] == QUOTE && string_end(line, t + 1) is Some {
        let e = string_end(line, t + 1)->Some_0;
        lemma_blanks_behind(head, line, e + 1);
        lemma_blanks_between(line, e + 1);
        let colon = skip_blanks(line, e + 1);
        assert(all.subrange(n + t + 1, n + e) =~= line.subrange(t + 1, e));
        if colon < line.len() {
            assert(all[n + colon] == line[colon]);
        }
        assert(is_key(all, n + t, key) <==> is_key(line, t, key));
    }
}

/// The keys of a line are those behind what leads it.
proof fn lemma_key_place(head: Seq<u8>, line: Seq<u8>, i: int, key: Seq<u8>)
    requires
        forall|k: int| 0 <= k < head.len() ==> is_loose(#[trigger] head[k]),
    ensures
        is_top_key(head + line, i, key) <==> is_top_key(line, i - head.len(), key),
{
    let n = head.len() as int;
    lemma_tokens_of_head(head, line, 0);
    assert(tokens(head + line).len() == n + tokens(line).len());
    if 0 <= i < n {
        assert(tokens(head + line)[i] == i);
        assert((head + line)[i] == head[i]);
        assert(is_loose(head[i]));
    } else if n <= i < n + tokens(line).len() {
        lemma_top_key_behind(head, line, i - n, key);
    }
}

/// The value of a key behind what leads the line.
proof fn lemma_key_value_behind(head: Seq<u8>, line: Seq<u8>, t: int)
    requires
        0 <= t < line.len(),
        string_end(line, t + 1) is Some,
        skip_blanks(line, string_end(line, t + 1)->Some_0 + 1) < line.len(),
    ensures
        string_end(head + line, head.len() + t + 1) is Some,
        value_at(
            head + line,
            skip_blanks(head + line, string_end(head + line, head.len() + t + 1)->Some_0 + 1) + 1,
        ) == value_at(line, skip_blanks(line, string_end(line, t + 1)->Some_0 + 1) + 1),
{
    let e = string_end(line, t + 1)->Some_0;
    lemma_string_end(line, t + 1);
    lemma_end_behind(head, line, t + 1);
    lemma_blanks_behind(head, line, e + 1);
    lemma_blanks_between(line, e + 1);
    lemma_value_behind(head, line, skip_blanks(line, e + 1) + 1);
}

/// What stands before an object does not matter, where it opens and closes nothing: a time
/// or a level before it changes nothing of what is found.
pub proof fn lemma_what_leads_does_not_matter(head: Seq<u8>, line: Seq<u8>, key: Seq<u8>)
    requires
        forall|i: int| 0 <= i < head.len() ==> is_loose(#[trigger] head[i]),
    ensures
        field_of(head + line, key) == field_of(line, key),
{
    let all = head + line;
    let n = head.len() as int;
    if exists|j: int| is_top_key(line, j, key) {
        let any = choose|j: int| is_top_key(line, j, key);
        let j = lemma_first_top_key(line, key, any);
        lemma_first_is_one(line, key, j);
        lemma_key_place(head, line, n + j, key);
        assert forall|i: int| 0 <= i < n + j implies !is_top_key(all, i, key) by {
            lemma_key_place(head, line, i, key);
            if n <= i {
                assert(!is_top_key(line, i - n, key));
            }
        }
        assert(is_first_top_key(all, n + j, key));
        lemma_first_is_one(all, key, n + j);
        lemma_top_key_behind(head, line, j, key);
        lemma_tokens_rise(line, 0);
        lemma_key_value_behind(head, line, tokens(line)[j]);
    } else {
        assert forall|j: int| !is_top_key(all, j, key) by {
            lemma_key_place(head, line, j, key);
        }
    }
}

/// A value that stands in a line, behind blanks, is read, whatever follows it.
pub proof fn lemma_value_is_read(line: Seq<u8>, a: int, s: int, value: ValueView, rest: Seq<u8>)
    requires
        0 <= a <= s <= line.len(),
        are_blanks(line.subrange(a, s)),
        line.skip(s) == value_text(value, rest),
        is_text_of(value, rest),
        value.kind == FieldKind::Str ==> is_string_text(value.raw),
    ensures
        value_at(line, a) == Some(value),
{
    let raw = value.raw;
    let here = line.skip(s);
    assert(here.len() > 0);
    assert(line[s] == here[0]);
    lemma_first_of_word(here, word_true());
    lemma_first_of_word(here, word_false());
    lemma_first_of_word(here, word_null());
    match value.kind {
        FieldKind::Str => {
            let e = s + 1 + raw.len();
            assert(here[0] == QUOTE);
            assert(here[e - s] == QUOTE);
            assert(line[e] == here[e - s]);
            assert(line.subrange(s + 1, e) =~= raw) by {
                assert forall|i: int| 0 <= i < raw.len() implies line.subrange(s + 1, e)[i]
                    == raw[i] by {
                    assert(here[1 + i] == raw[i]);
                }
            }
            lemma_string_text_end(line, s + 1, raw);
            lemma_skip_blanks(line, a, s);
        },
        FieldKind::Num => {
            let e = s + raw.len();
            assert(here[0] == raw[0]);
            lemma_skip_blanks(line, a, s);
            assert forall|i: int| s <= i < e implies is_number_byte(#[trigger] line[i]) by {
                assert(line[i] == here[i - s]);
                assert(here[i - s] == raw[i - s]);
            }
            if e < line.len() {
                assert(line[e] == here[e - s]);
                assert(here[e - s] == rest[0]);
            }
            lemma_number_ends(line, s, e);
            assert(line.subrange(s, e) =~= raw) by {
                assert forall|i: int| 0 <= i < raw.len() implies line.subrange(s, e)[i]
                    == raw[i] by {
                    assert(here[i] == raw[i]);
                }
            }
        },
        FieldKind::Nested => {
            assert(here[0] == rest[0]);
            assert(raw =~= Seq::empty());
            lemma_skip_blanks(line, a, s);
        },
        _ => {
            assert(here[0] == raw[0]);
            lemma_skip_blanks(line, a, s);
            assert(here.take(raw.len() as int) =~= raw);
        },
    }
}

proof fn lemma_first_of_word(here: Seq<u8>, word: Seq<u8>)
    requires
        word.len() > 0,
    ensures
        has_prefix(here, word) ==> here[0] == word[0],
{
    if has_prefix(here, word) {
        assert(here.take(word.len() as int)[0] == here[0]);
    }
}

proof fn lemma_number_ends(line: Seq<u8>, a: int, b: int)
    requires
        0 <= a <= b <= line.len(),
        forall|i: int| a <= i < b ==> is_number_byte(#[trigger] line[i]),
        b < line.len() ==> !is_number_byte(line[b]),
    ensures
        number_end(line, a) == b,
    decreases b - a,
{
    if a < line.len() {
        lemma_number_byte(line[a]);
    }
    if a < b {
        assert(is_number_byte(line[a]));
        lemma_number_ends(line, a + 1, b);
    }
}

/// The tokens of blanks are each of them.
proof fn lemma_tokens_of_blanks(line: Seq<u8>, a: int, b: int)
    requires
        0 <= a <= b <= line.len(),
        are_blanks(line.subrange(a, b)),
    ensures
        tokens_from(line, a) == positions(a, b) + tokens_from(line, b),
    decreases b - a,
{
    if a < b {
        let all = line.subrange(a, b);
        let less = line.subrange(a + 1, b);
        assert(all[0] == line[a]);
        assert forall|i: int| 0 <= i < less.len() implies #[trigger] less[i] == SPACE || less[i]
            == TAB by {
            assert(all[i + 1] == less[i]);
        }
        lemma_tokens_of_blanks(line, a + 1, b);
        assert(tokens_from(line, a) == seq![a] + tokens_from(line, a + 1));
        assert(positions(a, b) + tokens_from(line, b) =~= seq![a] + (positions(a + 1, b)
            + tokens_from(line, b)));
    } else {
        assert(positions(a, b) + tokens_from(line, b) =~= tokens_from(line, b));
    }
}

/// Behind an opening brace and blanks, a token lies in the object that the brace opens.
proof fn lemma_opened(line: Seq<u8>, k: int)
    requires
        0 < k <= line.len(),
        line[0] == OPEN_BRACE,
        forall|i: int| 1 <= i < k ==> is_blank(#[trigger] line[i]),
    ensures
        nesting(line, positions(0, k)) == 1,
        in_object(line, positions(0, k)),
    decreases k,
{
    assert(positions(0, k).drop_last() =~= positions(0, k - 1));
    if k == 1 {
        assert(positions(0, 0) =~= Seq::empty());
        assert(nesting(line, positions(0, 0)) == 0);
    } else {
        lemma_opened(line, k - 1);
        assert(is_blank(line[k - 1]));
    }
}

/// The first field of an object is found, whatever stands behind its value: the key as it
/// is written between its quotes, with any spaces and tabs around it and around the colon,
/// and a value of any kind.
pub proof fn lemma_first_field_is_found(
    line: Seq<u8>,
    blanks: Seq<u8>,
    key: Seq<u8>,
    left: Seq<u8>,
    right: Seq<u8>,
    value: ValueView,
    rest: Seq<u8>,
)
    requires
        writes_value(line, seq![OPEN_BRACE] + blanks, key, left, right, value, rest),
        are_blanks(blanks),
        is_string_text(key),
        value.kind == FieldKind::Str ==> is_string_text(value.raw),
    ensures
        field_of(line, key) == Some(value),
{
    let p = 1 + blanks.len() as int;
    let e = p + 1 + key.len();
    let colon = e + 1 + left.len();
    let s = colon + 1 + right.len();
    lemma_places(line, seq![OPEN_BRACE] + blanks, key, left, right, value_text(value, rest));
    assert(line[0] == OPEN_BRACE) by {
        assert(line.take(p)[0] == line[0]);
    }
    assert(line.subrange(1, p) =~= blanks) by {
        assert forall|i: int| 0 <= i < blanks.len() implies line.subrange(1, p)[i] == blanks[i] by {
            assert(line.take(p)[1 + i] == blanks[i]);
        }
    }
    lemma_tokens_of_blanks(line, 1, p);
    lemma_string_text_end(line, p + 1, key);
    let toks = tokens(line);
    assert(toks == seq![0int] + tokens_from(line, 1));
    assert(toks =~= positions(0, p) + tokens_from(line, p));
    assert(tokens_from(line, p)[0] == p);
    assert(toks[p] == p);
    assert(toks.take(p) =~= positions(0, p));
    assert forall|i: int| 1 <= i < p implies is_blank(#[trigger] line[i]) by {
        assert(line.subrange(1, p)[i - 1] == line[i]);
        assert(blanks[i - 1] == line[i]);
    }
    lemma_opened(line, p);
    lemma_skip_blanks(line, e + 1, colon);
    assert(is_top_key(line, p, key));
    assert forall|i: int| 0 <= i < p implies !is_top_key(line, i, key) by {
        assert(toks[i] == i);
        if i > 0 {
            assert(is_blank(line[i]));
        }
    }
    assert(is_first_top_key(line, p, key));
    lemma_first_is_one(line, key, p);
    lemma_value_is_read(line, colon + 1, s, value, rest);
}

/// Where the pieces of a field stand.
proof fn lemma_places(
    line: Seq<u8>,
    before: Seq<u8>,
    key: Seq<u8>,
    left: Seq<u8>,
    right: Seq<u8>,
    tail: Seq<u8>,
)
    requires
        line == before + seq![QUOTE] + key + seq![QUOTE] + left + seq![COLON] + right + tail,
    ensures
        ({
            let p = before.len() as int;
            let e = p + 1 + key.len();
            let colon = e + 1 + left.len();
            let s = colon + 1 + right.len();
            &&& s + tail.len() == line.len()
            &&& line.take(p) == before
            &&& line[p] == QUOTE
            &&& line.subrange(p + 1, e) == key
            &&& line[e] == QUOTE
            &&& line.subrange(e + 1, colon) == left
            &&& line[colon] == COLON
            &&& line.subrange(colon + 1, s) == right
            &&& line.skip(s) == tail
        }),
{
    let p = before.len() as int;
    let e = p + 1 + key.len();
    let colon = e + 1 + left.len();
    let s = colon + 1 + right.len();
    assert(line.take(p) =~= before);
    assert(line.subrange(p + 1, e) =~= key);
    assert(line.subrange(e + 1, colon) =~= left);
    assert(line.subrange(colon + 1, s) =~= right);
    assert(line.skip(s) =~= tail);
}

} // verus!
