//! What scanning finds in the compact JSON text of an object.

use vstd::prelude::*;
use vstd::utf8::{
    encode_scalar, encode_utf8, encode_utf8_decode_utf8, last_continuation_byte,
    leading_byte_width_1, leading_byte_width_2, leading_byte_width_3, leading_byte_width_4,
    second_last_continuation_byte, third_last_continuation_byte,
};

use crate::bytes::{
    BACKSLASH, CLOSE_BRACE, CLOSE_BRACKET, COLON, COMMA, MINUS, NINE, OPEN_BRACE, OPEN_BRACKET,
    QUOTE, ZERO,
};
use crate::fields::stands_at;
use crate::scan::{
    field_of, in_number, in_object, is_first_top_key, is_key, is_top_key, nesting, number_end,
    skip_blanks, string_end, tokens, tokens_from, value_at, word_false, word_null, word_true,
    FieldKind, ValueView,
};
use crate::screen::lemma_member_at;
use crate::value::{
    compact_bytes, compact_text, escaped, escaped_char, hex_digit, item_texts, json_parse, member_texts,
    member_value, quoted, JsonTree, Member,
};
use crate::written::{has_number_texts, is_number_text};

verus! {

/// Encoding texts that follow each other gives their bytes, which do so too.
pub(crate) proof fn lemma_encode_both(a: Seq<char>, b: Seq<char>)
    ensures
        encode_utf8(a + b) == encode_utf8(a) + encode_utf8(b),
    decreases a.len(),
{
    if a.len() == 0 {
        assert(a + b =~= b);
        assert(encode_utf8(a) + encode_utf8(b) =~= encode_utf8(b));
    } else {
        assert((a + b).drop_first() =~= a.drop_first() + b);
        lemma_encode_both(a.drop_first(), b);
        let head = encode_scalar(a[0] as u32);
        assert((a + b)[0] == a[0]);
        assert(head + (encode_utf8(a.drop_first()) + encode_utf8(b)) =~= (head + encode_utf8(
            a.drop_first(),
        )) + encode_utf8(b));
    }
}

/// A character of ASCII is one byte; the bytes of any other are none of ASCII.
pub(crate) proof fn lemma_encode_char(c: char)
    ensures
        c as int <= 0x7F ==> encode_utf8(seq![c]) == seq![c as u8],
        c as int > 0x7F ==> forall|i: int|
            0 <= i < encode_utf8(seq![c]).len() ==> #[trigger] encode_utf8(seq![c])[i] >= 0x80,
{
    let s = c as u32;
    assert(seq![c].drop_first() =~= Seq::empty());
    assert(encode_utf8(Seq::<char>::empty()) =~= Seq::empty());
    assert(encode_utf8(seq![c]) =~= encode_scalar(seq![c][0] as u32));
    if c as int <= 0x7F {
        assert(leading_byte_width_1(s) == s as u8) by (bit_vector)
            requires
                s <= 0x7F,
        ;
    } else {
        assert(leading_byte_width_2(s) >= 0x80) by (bit_vector);
        assert(leading_byte_width_3(s) >= 0x80) by (bit_vector);
        assert(leading_byte_width_4(s) >= 0x80) by (bit_vector);
        assert(last_continuation_byte(s) >= 0x80) by (bit_vector);
        assert(second_last_continuation_byte(s) >= 0x80) by (bit_vector);
        assert(third_last_continuation_byte(s) >= 0x80) by (bit_vector);
    }
}

/// Texts with the same bytes are the same.
proof fn lemma_encode_is_one(a: Seq<char>, b: Seq<char>)
    requires
        encode_utf8(a) == encode_utf8(b),
    ensures
        a == b,
{
    encode_utf8_decode_utf8(a);
    encode_utf8_decode_utf8(b);
}

/// Characters of ASCII with the same byte are the same, and within its bounds.
proof fn lemma_ascii_is_one(a: char, b: char)
    requires
        a as int <= 0x7F,
        b as int <= 0x7F,
        a as u8 == b as u8,
    ensures
        a == b,
        '\0' <= a <= '\u{7f}',
{
}

/// The bytes of a text hold an ASCII byte exactly where the text holds its character.
proof fn lemma_encode_contains(text: Seq<char>, c: char)
    requires
        c as int <= 0x7F,
    ensures
        encode_utf8(text).contains(c as u8) <==> text.contains(c),
    decreases text.len(),
{
    if text.len() > 0 {
        let head = seq![text[0]];
        let rest = text.drop_first();
        lemma_encode_contains(rest, c);
        lemma_encode_char(text[0]);
        assert(head + rest =~= text);
        lemma_encode_both(head, rest);
        let h = encode_utf8(head);
        let r = encode_utf8(rest);
        let all = encode_utf8(text);
        assert(all == h + r);
        if text.contains(c) {
            let k = choose|k: int| 0 <= k < text.len() && text[k] == c;
            if k == 0 {
                assert(all[0] == c as u8);
            } else {
                assert(rest[k - 1] == c);
                let i = choose|i: int| 0 <= i < r.len() && r[i] == c as u8;
                assert(all[h.len() + i] == c as u8);
            }
        }
        if all.contains(c as u8) {
            let i = choose|i: int| 0 <= i < all.len() && all[i] == c as u8;
            if i < h.len() {
                assert(h[i] == c as u8);
                lemma_ascii_is_one(text[0], c);
            } else {
                assert(r[i - h.len()] == c as u8);
                let k = choose|k: int| 0 <= k < rest.len() && rest[k] == c;
                assert(text[k + 1] == c);
            }
        }
    } else {
        assert(!encode_utf8(text).contains(c as u8));
        assert(!text.contains(c));
    }
}

/// The first character of a text can be escaped apart.
pub(crate) proof fn lemma_escaped_first(text: Seq<char>)
    requires
        text.len() > 0,
    ensures
        escaped(text) == escaped_char(text[0]) + escaped(text.drop_first()),
    decreases text.len(),
{
    if text.len() == 1 {
        assert(text.drop_last() =~= Seq::empty());
        assert(text.drop_first() =~= Seq::empty());
        assert(escaped(text) =~= escaped_char(text[0]) + escaped(text.drop_first()));
    } else {
        let init = text.drop_last();
        lemma_escaped_first(init);
        assert(init.drop_first() =~= text.drop_first().drop_last());
        assert(text.drop_first().last() == text.last());
        assert(escaped(text) =~= escaped_char(text[0]) + escaped(text.drop_first()));
    }
}

/// A text stays as it is when it is escaped exactly where no backslash comes of it.
proof fn lemma_escaped_plain(text: Seq<char>)
    ensures
        escaped(text).contains('\\') <==> escaped(text) != text,
        escaped(text).len() >= text.len(),
    decreases text.len(),
{
    if text.len() > 0 {
        let init = text.drop_last();
        let before = escaped(init);
        let last = escaped_char(text.last());
        let all = escaped(text);
        lemma_escaped_plain(init);
        assert(all == before + last);
        assert(init.push(text.last()) =~= text);
        if last.len() == 1 {
            assert(last =~= seq![text.last()]);
            assert(last[0] != '\\');
            if before == init {
                assert(all =~= text);
                if all.contains('\\') {
                    let k = choose|k: int| 0 <= k < all.len() && all[k] == '\\';
                    assert(before[k] == '\\');
                }
            } else {
                let k = choose|k: int| 0 <= k < before.len() && before[k] == '\\';
                assert(all[k] == '\\');
                assert(all != text) by {
                    if all == text {
                        assert(before =~= init);
                    }
                }
            }
        } else {
            assert(all[before.len() as int] == '\\');
            assert(all.len() > text.len());
        }
    } else {
        assert(escaped(text) =~= text);
    }
}

/// Bytes that neither close a string nor escape are passed over.
proof fn lemma_end_passes(line: Seq<u8>, i: int, n: int)
    requires
        0 <= i,
        0 <= n,
        i + n <= line.len(),
        forall|k: int| i <= k < i + n ==> #[trigger] line[k] != QUOTE && line[k] != BACKSLASH,
    ensures
        string_end(line, i) == string_end(line, i + n),
    decreases n,
{
    if n > 0 {
        lemma_end_passes(line, i + 1, n - 1);
    }
}

/// What stands at a place stands there in parts.
proof fn lemma_stands_split(line: Seq<u8>, a: Seq<u8>, b: Seq<u8>, p: int)
    requires
        stands_at(line, a + b, p),
    ensures
        stands_at(line, a, p),
        stands_at(line, b, p + a.len()),
{
    let whole = line.subrange(p, p + (a + b).len());
    assert(line.subrange(p, p + a.len()) =~= whole.take(a.len() as int));
    assert(whole.take(a.len() as int) =~= a);
    assert(line.subrange(p + a.len(), p + a.len() + b.len()) =~= whole.skip(a.len() as int));
    assert(whole.skip(a.len() as int) =~= b);
}

/// A byte of what stands at a place.
proof fn lemma_stands_byte(line: Seq<u8>, a: Seq<u8>, p: int, k: int)
    requires
        stands_at(line, a, p),
        0 <= k < a.len(),
    ensures
        line[p + k] == a[k],
        0 <= p + k < line.len(),
{
    assert(line.subrange(p, p + a.len())[k] == line[p + k]);
}

/// An escaped character neither closes a string nor leaves an escape open.
proof fn lemma_end_passes_char(line: Seq<u8>, i: int, c: char)
    requires
        stands_at(line, encode_utf8(escaped_char(c)), i),
    ensures
        string_end(line, i) == string_end(line, i + encode_utf8(escaped_char(c)).len()),
{
    let e = escaped_char(c);
    let b = encode_utf8(e);
    if e.len() == 1 {
        assert(e =~= seq![c]);
        lemma_encode_char(c);
        assert forall|k: int| i <= k < i + b.len() implies #[trigger] line[k] != QUOTE && line[k]
            != BACKSLASH by {
            lemma_stands_byte(line, b, i, k - i);
            if c as int > 0x7F {
                assert(b[k - i] >= 0x80);
            }
        }
        lemma_end_passes(line, i, b.len() as int);
    } else {
        assert(vstd::utf8::is_ascii_chars(e)) by {
            assert forall|k: int| 0 <= k < e.len() implies '\0' <= #[trigger] e[k] <= '\u{7f}' by {
            }
        }
        vstd::utf8::is_ascii_chars_encode_utf8(e);
        lemma_stands_byte(line, b, i, 0);
        lemma_stands_byte(line, b, i, 1);
        assert(e[0] == '\\');
        assert(line[i] == BACKSLASH);
        assert(string_end(line, i) == string_end(line, i + 2));
        if e.len() == 6 {
            lemma_stands_byte(line, b, i, 2);
            lemma_stands_byte(line, b, i, 3);
            lemma_stands_byte(line, b, i, 4);
            lemma_stands_byte(line, b, i, 5);
            let n = c as int;
            assert(e[4] == hex_digit(n / 16) && e[5] == hex_digit(n % 16));
            assert(e[2] == '0' && e[3] == '0');
            lemma_end_passes(line, i + 2, 4);
        }
    }
}

/// A string ends at the quote behind its escaped text.
proof fn lemma_escaped_end(line: Seq<u8>, i: int, text: Seq<char>)
    requires
        stands_at(line, encode_utf8(escaped(text)), i),
        i + encode_utf8(escaped(text)).len() < line.len(),
        line[i + encode_utf8(escaped(text)).len()] == QUOTE,
    ensures
        string_end(line, i) == Some(i + encode_utf8(escaped(text)).len()),
    decreases text.len(),
{
    if text.len() > 0 {
        let head = escaped_char(text[0]);
        let rest = escaped(text.drop_first());
        lemma_escaped_first(text);
        lemma_encode_both(head, rest);
        lemma_stands_split(line, encode_utf8(head), encode_utf8(rest), i);
        lemma_end_passes_char(line, i, text[0]);
        lemma_escaped_end(line, i + encode_utf8(head).len(), text.drop_first());
    } else {
        assert(encode_utf8(escaped(text)).len() == 0);
    }
}

/// From `a` up to `b`, a line has the tokens `toks`.
spec fn spans(line: Seq<u8>, a: int, b: int, toks: Seq<int>) -> bool {
    &&& 0 <= a <= b <= line.len()
    &&& tokens_from(line, a) == toks + tokens_from(line, b)
}

proof fn lemma_spans_join(line: Seq<u8>, a: int, b: int, c: int, s: Seq<int>, t: Seq<int>)
    requires
        spans(line, a, b, s),
        spans(line, b, c, t),
    ensures
        spans(line, a, c, s + t),
{
    let rest = tokens_from(line, c);
    assert(s + (t + rest) =~= (s + t) + rest);
}

/// A byte that opens no string is a token.
proof fn lemma_spans_byte(line: Seq<u8>, p: int)
    requires
        0 <= p < line.len(),
        line[p] != QUOTE,
    ensures
        spans(line, p, p + 1, seq![p]),
{
}

proof fn lemma_nesting_both(line: Seq<u8>, s: Seq<int>, t: Seq<int>)
    ensures
        nesting(line, s + t) == nesting(line, s) + nesting(line, t),
    decreases t.len(),
{
    if t.len() == 0 {
        assert(s + t =~= s);
    } else {
        assert((s + t).drop_last() =~= s + t.drop_last());
        lemma_nesting_both(line, s, t.drop_last());
    }
}

proof fn lemma_nesting_one(line: Seq<u8>, p: int)
    ensures
        nesting(line, seq![p]) == if line[p] == OPEN_BRACE || line[p] == OPEN_BRACKET {
            1int
        } else if line[p] == CLOSE_BRACE || line[p] == CLOSE_BRACKET {
            -1
        } else {
            0
        },
{
    assert(seq![p].drop_last() =~= Seq::empty());
    assert(nesting(line, Seq::empty()) == 0);
}

/// Tokens leave no bracket open and close none that was open before.
spec fn is_level(line: Seq<u8>, toks: Seq<int>) -> bool {
    &&& nesting(line, toks) == 0
    &&& forall|j: int| 0 <= j <= toks.len() ==> #[trigger] nesting(line, toks.take(j)) >= 0
}

proof fn lemma_level_both(line: Seq<u8>, s: Seq<int>, t: Seq<int>)
    requires
        is_level(line, s),
        is_level(line, t),
    ensures
        is_level(line, s + t),
        forall|j: int|
            0 <= j <= s.len() ==> #[trigger] nesting(line, (s + t).take(j)) == nesting(
                line,
                s.take(j),
            ),
        forall|j: int|
            s.len() <= j <= s.len() + t.len() ==> #[trigger] nesting(line, (s + t).take(j))
                == nesting(line, t.take(j - s.len())),
{
    let all = s + t;
    lemma_nesting_both(line, s, t);
    assert forall|j: int| 0 <= j <= s.len() implies #[trigger] nesting(line, all.take(j))
        == nesting(line, s.take(j)) by {
        assert(all.take(j) =~= s.take(j));
    }
    assert forall|j: int| s.len() <= j <= s.len() + t.len() implies #[trigger] nesting(
        line,
        all.take(j),
    ) == nesting(line, t.take(j - s.len())) by {
        assert(all.take(j) =~= s + t.take(j - s.len()));
        lemma_nesting_both(line, s, t.take(j - s.len()));
    }
    assert forall|j: int| 0 <= j <= all.len() implies #[trigger] nesting(line, all.take(j))
        >= 0 by {
        if j <= s.len() {
            assert(nesting(line, s.take(j)) >= 0);
        } else {
            assert(nesting(line, t.take(j - s.len())) >= 0);
        }
    }
}

/// One token that is no bracket is level.
proof fn lemma_level_one(line: Seq<u8>, p: int)
    requires
        line[p] != OPEN_BRACE,
        line[p] != OPEN_BRACKET,
        line[p] != CLOSE_BRACE,
        line[p] != CLOSE_BRACKET,
    ensures
        is_level(line, seq![p]),
{
    lemma_nesting_one(line, p);
    assert forall|j: int| 0 <= j <= 1 implies #[trigger] nesting(line, seq![p].take(j)) >= 0 by {
        if j == 0 {
            assert(seq![p].take(j) =~= Seq::empty());
        } else {
            assert(seq![p].take(j) =~= seq![p]);
        }
    }
}

/// Level tokens within brackets are level, and all but the first lie deeper.
proof fn lemma_bracketed(line: Seq<u8>, a: int, b: int, toks: Seq<int>)
    requires
        spans(line, a + 1, b, toks),
        is_level(line, toks),
        0 <= a,
        b < line.len(),
        line[a] == OPEN_BRACE || line[a] == OPEN_BRACKET,
        line[b] == CLOSE_BRACE || line[b] == CLOSE_BRACKET,
    ensures
        spans(line, a, b + 1, seq![a] + toks + seq![b]),
        is_level(line, seq![a] + toks + seq![b]),
        forall|j: int|
            1 <= j <= toks.len() + 1 ==> #[trigger] nesting(
                line,
                (seq![a] + toks + seq![b]).take(j),
            ) == 1 + nesting(line, toks.take(j - 1)),
{
    let all = seq![a] + toks + seq![b];
    lemma_spans_byte(line, a);
    lemma_spans_byte(line, b);
    lemma_spans_join(line, a, a + 1, b, seq![a], toks);
    lemma_spans_join(line, a, b, b + 1, seq![a] + toks, seq![b]);
    lemma_nesting_one(line, a);
    lemma_nesting_one(line, b);
    lemma_nesting_both(line, seq![a], toks);
    lemma_nesting_both(line, seq![a] + toks, seq![b]);
    assert forall|j: int| 1 <= j <= toks.len() + 1 implies #[trigger] nesting(line, all.take(j))
        == 1 + nesting(line, toks.take(j - 1)) by {
        assert(all.take(j) =~= seq![a] + toks.take(j - 1));
        lemma_nesting_both(line, seq![a], toks.take(j - 1));
    }
    assert forall|j: int| 0 <= j <= all.len() implies #[trigger] nesting(line, all.take(j))
        >= 0 by {
        if j == 0 {
            assert(all.take(j) =~= Seq::empty());
        } else if j <= toks.len() + 1 {
            assert(nesting(line, toks.take(j - 1)) >= 0);
        } else {
            assert(all.take(j) =~= all);
        }
    }
}

/// A byte that is neither a quote nor a bracket.
spec fn is_flat(b: u8) -> bool {
    b != QUOTE && b != OPEN_BRACE && b != OPEN_BRACKET && b != CLOSE_BRACE && b != CLOSE_BRACKET
}

/// Flat bytes are tokens of one level.
proof fn lemma_flat_run(line: Seq<u8>, a: int, b: int) -> (toks: Seq<int>)
    requires
        0 <= a <= b <= line.len(),
        forall|k: int| a <= k < b ==> is_flat(#[trigger] line[k]),
    ensures
        spans(line, a, b, toks),
        is_level(line, toks),
        forall|j: int| 0 <= j < toks.len() ==> line[#[trigger] toks[j]] != QUOTE,
    decreases b - a,
{
    if a == b {
        let toks: Seq<int> = Seq::empty();
        assert(toks + tokens_from(line, b) =~= tokens_from(line, a));
        assert forall|j: int| 0 <= j <= toks.len() implies #[trigger] nesting(line, toks.take(j))
            >= 0 by {
            assert(toks.take(j) =~= toks);
        }
        toks
    } else {
        let rest = lemma_flat_run(line, a + 1, b);
        assert(is_flat(line[a]));
        lemma_spans_byte(line, a);
        lemma_spans_join(line, a, a + 1, b, seq![a], rest);
        lemma_level_one(line, a);
        lemma_level_both(line, seq![a], rest);
        seq![a] + rest
    }
}

pub(crate) proof fn lemma_number_bytes(text: Seq<char>)
    requires
        is_number_text(text),
    ensures
        encode_utf8(text).len() == text.len(),
        forall|i: int|
            0 <= i < text.len() ==> in_number(#[trigger] encode_utf8(text)[i]),
        encode_utf8(text)[0] == MINUS || ZERO <= encode_utf8(text)[0] <= NINE,
{
    assert(vstd::utf8::is_ascii_chars(text)) by {
        assert forall|k: int| 0 <= k < text.len() implies '\0' <= #[trigger] text[k]
            <= '\u{7f}' by {
            assert(text[k] as int <= 0x7F);
            lemma_ascii_is_one(text[k], text[k]);
        }
    }
    vstd::utf8::is_ascii_chars_encode_utf8(text);
    assert(text[0] as int <= 0x7F);
    assert forall|i: int| 0 <= i < text.len() implies in_number(
        #[trigger] encode_utf8(text)[i],
    ) by {
        assert(text[i] as int <= 0x7F && in_number(text[i] as u8));
    }
    lemma_number_first(text[0]);
}

proof fn lemma_number_first(c: char)
    requires
        c == '-' || '0' <= c <= '9',
    ensures
        c as u8 == MINUS || ZERO <= c as u8 <= NINE,
{
}

/// The words of the literals, in bytes.
pub(crate) proof fn lemma_word_bytes()
    ensures
        encode_utf8("null"@) == word_null(),
        encode_utf8("true"@) == word_true(),
        encode_utf8("false"@) == word_false(),
{
    reveal_strlit("null");
    reveal_strlit("true");
    reveal_strlit("false");
    vstd::utf8::is_ascii_chars_encode_utf8("null"@);
    vstd::utf8::is_ascii_chars_encode_utf8("true"@);
    vstd::utf8::is_ascii_chars_encode_utf8("false"@);
    assert(encode_utf8("null"@) =~= word_null()) by {
        assert("null"@ =~= seq!['n', 'u', 'l', 'l']);
    }
    assert(encode_utf8("true"@) =~= word_true()) by {
        assert("true"@ =~= seq!['t', 'r', 'u', 'e']);
    }
    assert(encode_utf8("false"@) =~= word_false()) by {
        assert("false"@ =~= seq!['f', 'a', 'l', 's', 'e']);
    }
}

/// A quoted text is one string.
proof fn lemma_string_spans(line: Seq<u8>, p: int, text: Seq<char>)
    requires
        stands_at(line, encode_utf8(quoted(text)), p),
    ensures
        encode_utf8(quoted(text)).len() == encode_utf8(escaped(text)).len() + 2,
        line[p] == QUOTE,
        stands_at(line, encode_utf8(escaped(text)), p + 1),
        string_end(line, p + 1) == Some(p + 1 + encode_utf8(escaped(text)).len()),
        spans(line, p, p + encode_utf8(quoted(text)).len(), seq![p]),
{
    let e = encode_utf8(escaped(text));
    lemma_encode_char('"');
    lemma_encode_both(seq!['"'], escaped(text));
    lemma_encode_both(seq!['"'] + escaped(text), seq!['"']);
    let q = encode_utf8(seq!['"']);
    assert(q == seq![QUOTE]);
    lemma_stands_split(line, q + e, q, p);
    lemma_stands_split(line, q, e, p);
    lemma_stands_byte(line, q, p, 0);
    lemma_stands_byte(line, q, p + (q + e).len(), 0);
    lemma_escaped_end(line, p + 1, text);
}

/// Of the tokens of a value, one that lies on their own level is a string only where the
/// value is, and then it is all of them.
spec fn has_no_key(line: Seq<u8>, toks: Seq<int>, tree: JsonTree, a: int) -> bool {
    if tree is Str {
        toks == seq![a]
    } else {
        forall|j: int|
            0 <= j < toks.len() && #[trigger] nesting(line, toks.take(j)) == 0 ==> line[toks[j]]
                != QUOTE
    }
}

/// The compact text of a value that stands in a line is made of level tokens.
proof fn lemma_value_spans(line: Seq<u8>, a: int, tree: JsonTree) -> (toks: Seq<int>)
    requires
        has_number_texts(tree),
        stands_at(line, compact_bytes(tree), a),
    ensures
        spans(line, a, a + compact_bytes(tree).len(), toks),
        is_level(line, toks),
        has_no_key(line, toks, tree, a),
    decreases tree,
{
    let bytes = compact_bytes(tree);
    let b = a + bytes.len();
    match tree {
        JsonTree::Str(text) => {
            lemma_string_spans(line, a, text);
            lemma_level_one(line, a);
            seq![a]
        },
        JsonTree::Arr(items) => {
            lemma_encode_char('[');
            lemma_encode_char(']');
            let inner = item_texts(items);
            lemma_encode_both(seq!['['], inner);
            lemma_encode_both(seq!['['] + inner, seq![']']);
            let open = encode_utf8(seq!['[']);
            let close = encode_utf8(seq![']']);
            let mid = encode_utf8(inner);
            lemma_stands_split(line, open + mid, close, a);
            lemma_stands_split(line, open, mid, a);
            lemma_stands_byte(line, open, a, 0);
            lemma_stands_byte(line, close, b - 1, 0);
            let toks = lemma_items_span(line, a + 1, items);
            lemma_bracketed(line, a, b - 1, toks);
            let all = seq![a] + toks + seq![b - 1];
            assert forall|j: int|
                0 <= j < all.len() && #[trigger] nesting(line, all.take(j)) == 0 implies line[all[j]]
                != QUOTE by {
                if 1 <= j {
                    assert(nesting(line, toks.take(j - 1)) >= 0);
                }
            }
            all
        },
        JsonTree::Obj(fields) => {
            lemma_encode_char('{');
            lemma_encode_char('}');
            let inner = member_texts(fields);
            lemma_encode_both(seq!['{'], inner);
            lemma_encode_both(seq!['{'] + inner, seq!['}']);
            let open = encode_utf8(seq!['{']);
            let close = encode_utf8(seq!['}']);
            let mid = encode_utf8(inner);
            lemma_stands_split(line, open + mid, close, a);
            lemma_stands_split(line, open, mid, a);
            lemma_stands_byte(line, open, a, 0);
            lemma_stands_byte(line, close, b - 1, 0);
            let (toks, _) = lemma_members_span(line, a + 1, fields);
            lemma_bracketed(line, a, b - 1, toks);
            let all = seq![a] + toks + seq![b - 1];
            assert forall|j: int|
                0 <= j < all.len() && #[trigger] nesting(line, all.take(j)) == 0 implies line[all[j]]
                != QUOTE by {
                if 1 <= j {
                    assert(nesting(line, toks.take(j - 1)) >= 0);
                }
            }
            all
        },
        _ => {
            lemma_word_bytes();
            if let JsonTree::Num(text) = tree {
                lemma_number_bytes(text);
            }
            assert forall|k: int| a <= k < b implies is_flat(#[trigger] line[k]) by {
                lemma_stands_byte(line, bytes, a, k - a);
                if tree is Num {
                    assert(in_number(bytes[k - a]));
                }
            }
            lemma_flat_run(line, a, b)
        },
    }
}

/// The same of the items of an array.
proof fn lemma_items_span(line: Seq<u8>, a: int, items: Seq<JsonTree>) -> (toks: Seq<int>)
    requires
        forall|i: int| 0 <= i < items.len() ==> has_number_texts(#[trigger] items[i]),
        stands_at(line, encode_utf8(item_texts(items)), a),
    ensures
        spans(line, a, a + encode_utf8(item_texts(items)).len(), toks),
        is_level(line, toks),
    decreases items,
{
    if items.len() == 0 {
        lemma_flat_run(line, a, a)
    } else if items.len() == 1 {
        lemma_value_spans(line, a, items[0])
    } else {
        let init = items.drop_last();
        let last = items.last();
        let before = item_texts(init);
        lemma_encode_char(',');
        lemma_encode_both(before, seq![',']);
        lemma_encode_both(before + seq![','], compact_text(last));
        let x = encode_utf8(before);
        let y = encode_utf8(seq![',']);
        let z = compact_bytes(last);
        lemma_stands_split(line, x + y, z, a);
        lemma_stands_split(line, x, y, a);
        let c = a + x.len();
        lemma_stands_byte(line, y, c, 0);
        assert forall|i: int| 0 <= i < init.len() implies has_number_texts(
            #[trigger] init[i],
        ) by {
            assert(init[i] == items[i]);
        }
        assert(has_number_texts(items[items.len() - 1]));
        let s = lemma_items_span(line, a, init);
        let t = lemma_value_spans(line, c + 1, last);
        lemma_spans_byte(line, c);
        lemma_spans_join(line, a, c, c + 1, s, seq![c]);
        lemma_spans_join(line, a, c + 1, c + 1 + z.len(), s + seq![c], t);
        lemma_level_one(line, c);
        lemma_level_both(line, s, seq![c]);
        lemma_level_both(line, s + seq![c], t);
        s + seq![c] + t
    }
}

/// At `p` a line writes a member of an object: its key, a colon, its value, and what
/// parts it from the next or ends the object.
spec fn writes_member(line: Seq<u8>, p: int, member: Member) -> bool {
    let key = encode_utf8(escaped(member.key));
    let value = compact_bytes(member.value);
    let e = p + 1 + key.len();
    &&& 0 <= p < line.len() && line[p] == QUOTE
    &&& string_end(line, p + 1) == Some(e)
    &&& stands_at(line, key, p + 1)
    &&& e + 1 < line.len() && line[e + 1] == COLON
    &&& stands_at(line, value, e + 2)
    &&& e + 2 + value.len() < line.len()
    &&& line[e + 2 + value.len()] == COMMA || line[e + 2 + value.len()] == CLOSE_BRACE
}

/// A colon follows the string that the token at `p` is.
spec fn colon_follows(line: Seq<u8>, p: int) -> bool {
    string_end(line, p + 1) matches Some(e) && {
        let colon = skip_blanks(line, e + 1);
        colon < line.len() && line[colon] == COLON
    }
}

/// The tokens at `places`, and no others of their level, are the keys of the members.
spec fn are_keys(line: Seq<u8>, toks: Seq<int>, places: Seq<int>, fields: Seq<Member>) -> bool {
    &&& places.len() == fields.len()
    &&& forall|i: int|
        0 <= i < places.len() ==> {
            &&& 0 <= #[trigger] places[i] < toks.len()
            &&& nesting(line, toks.take(places[i])) == 0
            &&& writes_member(line, toks[places[i]], fields[i])
        }
    &&& forall|i: int, k: int| 0 <= i < k < places.len() ==> places[i] < places[k]
    &&& forall|j: int|
        0 <= j < toks.len() && #[trigger] nesting(line, toks.take(j)) == 0 && line[toks[j]] == QUOTE
            && colon_follows(line, toks[j]) ==> places.contains(j)
}

/// The tokens of one member: those of its key, the colon and its value.
proof fn lemma_member_spans(line: Seq<u8>, a: int, member: Member) -> (toks: Seq<int>)
    requires
        has_number_texts(member.value),
        stands_at(
            line,
            encode_utf8(quoted(member.key) + seq![':'] + compact_text(member.value)),
            a,
        ),
        ({
            let n = encode_utf8(quoted(member.key) + seq![':'] + compact_text(member.value)).len();
            a + n < line.len() && (line[a + n] == COMMA || line[a + n] == CLOSE_BRACE)
        }),
    ensures
        spans(
            line,
            a,
            a + encode_utf8(quoted(member.key) + seq![':'] + compact_text(member.value)).len(),
            toks,
        ),
        is_level(line, toks),
        are_keys(line, toks, seq![0], seq![member]),
        toks.len() > 0 && toks[0] == a,
    decreases member, 1int,
{
    let k = quoted(member.key);
    let v = compact_text(member.value);
    lemma_encode_char(':');
    lemma_encode_both(k, seq![':']);
    lemma_encode_both(k + seq![':'], v);
    let x = encode_utf8(k);
    let y = encode_utf8(seq![':']);
    let z = compact_bytes(member.value);
    lemma_stands_split(line, x + y, z, a);
    lemma_stands_split(line, x, y, a);
    let c = a + x.len();
    lemma_stands_byte(line, y, c, 0);
    lemma_string_spans(line, a, member.key);
    let t = lemma_value_spans(line, c + 1, member.value);
    lemma_spans_byte(line, c);
    let s = seq![a] + seq![c];
    lemma_spans_join(line, a, c, c + 1, seq![a], seq![c]);
    lemma_spans_join(line, a, c + 1, c + 1 + z.len(), s, t);
    lemma_level_one(line, a);
    lemma_level_one(line, c);
    lemma_level_both(line, seq![a], seq![c]);
    lemma_level_both(line, s, t);
    let toks = s + t;
    let places: Seq<int> = seq![0];
    assert(toks.take(0) =~= Seq::empty());
    assert(nesting(line, toks.take(0)) == 0);
    assert(writes_member(line, toks[places[0]], member));
    assert forall|j: int|
        0 <= j < toks.len() && #[trigger] nesting(line, toks.take(j)) == 0 && line[toks[j]] == QUOTE
            && colon_follows(line, toks[j]) implies places.contains(j) by {
        if j == 0 {
            assert(places[0] == j);
        } else if j >= 2 {
            assert(nesting(line, t.take(j - 2)) == 0);
            assert(toks[j] == t[j - 2]);
            if let JsonTree::Str(text) = member.value {
                lemma_string_spans(line, c + 1, text);
                let e = string_end(line, c + 2)->Some_0;
                assert(e + 1 == c + 1 + z.len());
                assert(skip_blanks(line, e + 1) == e + 1);
            }
        }
    }
    toks
}

/// The tokens of the members of an object, and which of them are their keys.
proof fn lemma_members_span(line: Seq<u8>, a: int, fields: Seq<Member>) -> (out: (
    Seq<int>,
    Seq<int>,
))
    requires
        forall|i: int| 0 <= i < fields.len() ==> has_number_texts((#[trigger] fields[i]).value),
        stands_at(line, encode_utf8(member_texts(fields)), a),
        ({
            let n = encode_utf8(member_texts(fields)).len();
            a + n < line.len() && (line[a + n] == COMMA || line[a + n] == CLOSE_BRACE)
        }),
    ensures
        spans(line, a, a + encode_utf8(member_texts(fields)).len(), out.0),
        is_level(line, out.0),
        are_keys(line, out.0, out.1, fields),
    decreases fields, 0int,
{
    if fields.len() == 0 {
        let toks = lemma_flat_run(line, a, a);
        assert(toks.len() == 0) by {
            assert(tokens_from(line, a).len() == toks.len() + tokens_from(line, a).len());
        }
        (toks, Seq::empty())
    } else {
        let init = fields.drop_last();
        let last = fields.last();
        let text = quoted(last.key) + seq![':'] + compact_text(last.value);
        assert(has_number_texts(fields[fields.len() - 1].value));
        if fields.len() == 1 {
            let toks = lemma_member_spans(line, a, last);
            assert(fields =~= seq![last]);
            (toks, seq![0])
        } else {
            let before = member_texts(init);
            lemma_encode_char(',');
            lemma_encode_both(before, seq![',']);
            lemma_encode_both(before + seq![','], text);
            assert(member_texts(fields) =~= before + seq![','] + text);
            let x = encode_utf8(before);
            let y = encode_utf8(seq![',']);
            let z = encode_utf8(text);
            lemma_stands_split(line, x + y, z, a);
            lemma_stands_split(line, x, y, a);
            let c = a + x.len();
            lemma_stands_byte(line, y, c, 0);
            assert forall|i: int| 0 <= i < init.len() implies has_number_texts(
                (#[trigger] init[i]).value,
            ) by {
                assert(init[i] == fields[i]);
            }
            let (s, places) = lemma_members_span(line, a, init);
            let t = lemma_member_spans(line, c + 1, last);
            lemma_spans_byte(line, c);
            let u = s + seq![c];
            lemma_spans_join(line, a, c, c + 1, s, seq![c]);
            lemma_spans_join(line, a, c + 1, c + 1 + z.len(), u, t);
            lemma_level_one(line, c);
            lemma_level_both(line, s, seq![c]);
            lemma_level_both(line, u, t);
            lemma_keys_join(line, s, places, init, c, t, last);
            (u + t, places.push(u.len() as int))
        }
    }
}

/// The keys of some members, and behind a comma that of one more.
proof fn lemma_keys_join(
    line: Seq<u8>,
    s: Seq<int>,
    places: Seq<int>,
    init: Seq<Member>,
    c: int,
    t: Seq<int>,
    last: Member,
)
    requires
        is_level(line, s),
        is_level(line, t),
        0 <= c < line.len(),
        line[c] == COMMA,
        are_keys(line, s, places, init),
        are_keys(line, t, seq![0], seq![last]),
        t.len() > 0,
    ensures
        are_keys(line, s + seq![c] + t, places.push(s.len() as int + 1), init.push(last)),
{
    let u = s + seq![c];
    let toks = u + t;
    let all = places.push(s.len() as int + 1);
    let fields = init.push(last);
    lemma_level_one(line, c);
    lemma_level_both(line, s, seq![c]);
    lemma_level_both(line, u, t);
    assert forall|i: int| 0 <= i < all.len() implies 0 <= #[trigger] all[i] < toks.len()
        && nesting(line, toks.take(all[i])) == 0 && writes_member(
        line,
        toks[all[i]],
        fields[i],
    ) by {
        if i < places.len() {
            let j = places[i];
            assert(0 <= places[i] < s.len());
            assert(nesting(line, s.take(places[i])) == 0);
            assert(nesting(line, u.take(j)) == nesting(line, s.take(j)));
            assert(nesting(line, toks.take(j)) == nesting(line, u.take(j)));
            assert(toks[j] == s[j]);
            assert(fields[i] == init[i]);
        } else {
            let one: Seq<int> = seq![0];
            assert(one[0] == 0);
            assert(nesting(line, t.take(one[0])) == 0);
            assert(writes_member(line, t[one[0]], seq![last][0]));
            assert(nesting(line, toks.take(u.len() as int)) == nesting(line, t.take(0)));
            assert(toks[u.len() as int] == t[0]);
        }
    }
    assert forall|i: int, k: int| 0 <= i < k < all.len() implies all[i] < all[k] by {
        assert(0 <= places[i] < s.len());
    }
    assert forall|j: int|
        0 <= j < toks.len() && #[trigger] nesting(line, toks.take(j)) == 0 && line[toks[j]] == QUOTE
            && colon_follows(line, toks[j]) implies all.contains(j) by {
        if j < s.len() {
            assert(nesting(line, u.take(j)) == nesting(line, s.take(j)));
            assert(nesting(line, toks.take(j)) == nesting(line, u.take(j)));
            assert(toks[j] == s[j]);
            assert(places.contains(j));
            let i = choose|i: int| 0 <= i < places.len() && places[i] == j;
            assert(all[i] == j);
        } else if j == s.len() {
            assert(toks[j] == c);
        } else {
            let h = j - u.len();
            assert(nesting(line, toks.take(j)) == nesting(line, t.take(h)));
            assert(toks[j] == t[h]);
            let one: Seq<int> = seq![0];
            assert(one.contains(h));
            assert(h == 0);
            assert(all[places.len() as int] == j);
        }
    }
}

/// What scanning gives for a value: a string by its escaped text, a number, a truth value
/// and null by their texts, and of an object or an array only that it is one.
pub open spec fn scanned(tree: JsonTree) -> ValueView {
    match tree {
        JsonTree::Null => ValueView {
            kind: FieldKind::Null,
            raw: word_null(),
            has_escapes: false,
        },
        JsonTree::Bool(b) => ValueView {
            kind: FieldKind::Bool,
            raw: if b {
                word_true()
            } else {
                word_false()
            },
            has_escapes: false,
        },
        JsonTree::Num(text) => ValueView {
            kind: FieldKind::Num,
            raw: encode_utf8(text),
            has_escapes: false,
        },
        JsonTree::Str(text) => ValueView {
            kind: FieldKind::Str,
            raw: encode_utf8(escaped(text)),
            has_escapes: escaped(text) != text,
        },
        _ => ValueView { kind: FieldKind::Nested, raw: Seq::empty(), has_escapes: false },
    }
}

proof fn lemma_number_end(line: Seq<u8>, a: int, b: int)
    requires
        0 <= a <= b < line.len(),
        forall|k: int| a <= k < b ==> in_number(#[trigger] line[k]),
        !in_number(line[b]),
    ensures
        number_end(line, a) == b,
    decreases b - a,
{
    if a < b {
        lemma_number_end(line, a + 1, b);
    }
}

/// A value that stands in a line, before a comma or the end of an object, is read.
proof fn lemma_value_at(line: Seq<u8>, a: int, tree: JsonTree)
    requires
        has_number_texts(tree),
        stands_at(line, compact_bytes(tree), a),
        a + compact_bytes(tree).len() < line.len(),
        line[a + compact_bytes(tree).len()] == COMMA || line[a + compact_bytes(tree).len()]
            == CLOSE_BRACE,
    ensures
        value_at(line, a) == Some(scanned(tree)),
{
    let bytes = compact_bytes(tree);
    let b = a + bytes.len();
    let rest = line.skip(a);
    match tree {
        JsonTree::Str(text) => {
            lemma_string_spans(line, a, text);
            lemma_escaped_plain(text);
            lemma_encode_contains(escaped(text), '\\');
            assert(skip_blanks(line, a) == a);
            let raw = encode_utf8(escaped(text));
            assert(line.subrange(a + 1, a + 1 + raw.len()) == raw);
        },
        JsonTree::Arr(items) => {
            lemma_encode_char('[');
            lemma_encode_both(seq!['['], item_texts(items));
            lemma_encode_both(seq!['['] + item_texts(items), seq![']']);
            assert(bytes[0] == OPEN_BRACKET);
            lemma_stands_byte(line, bytes, a, 0);
        },
        JsonTree::Obj(fields) => {
            lemma_encode_char('{');
            lemma_encode_both(seq!['{'], member_texts(fields));
            lemma_encode_both(seq!['{'] + member_texts(fields), seq!['}']);
            assert(bytes[0] == OPEN_BRACE);
            lemma_stands_byte(line, bytes, a, 0);
        },
        JsonTree::Num(text) => {
            lemma_number_bytes(text);
            lemma_stands_byte(line, bytes, a, 0);
            assert forall|k: int| a <= k < b implies in_number(#[trigger] line[k]) by {
                lemma_stands_byte(line, bytes, a, k - a);
                assert(in_number(bytes[k - a]));
            }
            lemma_number_end(line, a, b);
            assert(rest[0] == line[a]);
            if rest.len() >= 4 {
                assert(rest.take(4)[0] == rest[0]);
            }
            if rest.len() >= 5 {
                assert(rest.take(5)[0] == rest[0]);
            }
        },
        _ => {
            lemma_word_bytes();
            lemma_stands_byte(line, bytes, a, 0);
            assert(rest[0] == line[a]);
            assert(rest.take(bytes.len() as int) =~= line.subrange(a, b));
            assert(rest.take(4)[0] == rest[0]);
            if rest.len() >= 5 {
                assert(rest.take(5)[0] == rest[0]);
            }
        },
    }
}

/// Within an object that opens first, every token lies in an object.
proof fn lemma_in_object(line: Seq<u8>, toks: Seq<int>, j: int)
    requires
        1 <= j <= toks.len(),
        line[toks[0]] == OPEN_BRACE,
        forall|i: int| 1 <= i < j ==> #[trigger] nesting(line, toks.take(i)) >= 1,
    ensures
        in_object(line, toks.take(j)),
    decreases j,
{
    let now = toks.take(j);
    assert(now.drop_last() =~= toks.take(j - 1));
    assert(now.last() == toks[j - 1]);
    if j == 1 {
        assert(toks.take(0) =~= Seq::empty());
        assert(nesting(line, toks.take(0)) == 0);
    } else {
        lemma_in_object(line, toks, j - 1);
        assert(nesting(line, toks.take(j - 1)) >= 1);
    }
}

/// The key of a member is found as it is written, and no other is taken for it.
proof fn lemma_written_member(line: Seq<u8>, p: int, member: Member, key: Seq<char>)
    requires
        writes_member(line, p, member),
    ensures
        is_key(line, p, encode_utf8(escaped(key))) <==> member.key == key,
        skip_blanks(line, string_end(line, p + 1)->Some_0 + 1) == string_end(line, p + 1)->Some_0
            + 1,
{
    let raw = encode_utf8(escaped(member.key));
    let e = p + 1 + raw.len();
    assert(line.subrange(p + 1, e) == raw);
    assert(skip_blanks(line, e + 1) == e + 1);
    if raw == encode_utf8(escaped(key)) {
        lemma_encode_is_one(escaped(member.key), escaped(key));
        lemma_unescaping_undoes_escaping(key);
        lemma_unescaping_undoes_escaping(member.key);
    }
}

/// The places of the keys of an object among the tokens of its compact text.
spec fn are_top_keys(line: Seq<u8>, places: Seq<int>, fields: Seq<Member>, key: Seq<char>) -> bool {
    &&& places.len() == fields.len()
    &&& forall|i: int|
        0 <= i < fields.len() ==> {
            &&& is_top_key(line, #[trigger] places[i], encode_utf8(escaped(key))) <==> fields[i].key == key
            &&& writes_member(line, tokens(line)[places[i]], fields[i])
        }
    &&& forall|i: int, k: int| 0 <= i < k < places.len() ==> places[i] < places[k]
    &&& forall|j: int|
        #[trigger] is_top_key(line, j, encode_utf8(escaped(key))) ==> places.contains(j)
}

proof fn lemma_top_keys(fields: Seq<Member>, key: Seq<char>) -> (places: Seq<int>)
    requires
        has_number_texts(JsonTree::Obj(fields)),
    ensures
        are_top_keys(compact_bytes(JsonTree::Obj(fields)), places, fields, key),
{
    let line = compact_bytes(JsonTree::Obj(fields));
    let wanted = encode_utf8(escaped(key));
    let inner = member_texts(fields);
    lemma_encode_char('{');
    lemma_encode_char('}');
    lemma_encode_both(seq!['{'], inner);
    lemma_encode_both(seq!['{'] + inner, seq!['}']);
    let open = encode_utf8(seq!['{']);
    let close = encode_utf8(seq!['}']);
    let mid = encode_utf8(inner);
    let b = line.len() - 1;
    assert(line.subrange(0, line.len() as int) =~= line);
    lemma_stands_split(line, open + mid, close, 0);
    lemma_stands_split(line, open, mid, 0);
    lemma_stands_byte(line, open, 0, 0);
    lemma_stands_byte(line, close, b, 0);
    let (toks, inside) = lemma_members_span(line, 1, fields);
    lemma_bracketed(line, 0, b, toks);
    let all = seq![0int] + toks + seq![b];
    assert(tokens_from(line, line.len() as int) =~= Seq::empty());
    assert(tokens(line) =~= all);
    let places = inside.map_values(|j: int| j + 1);
    lemma_keys_are_top(line, toks, inside, fields, key);
    places
}

/// The keys among the tokens of the members of an object are those of the object.
proof fn lemma_keys_are_top(
    line: Seq<u8>,
    toks: Seq<int>,
    inside: Seq<int>,
    fields: Seq<Member>,
    key: Seq<char>,
)
    requires
        line.len() >= 2,
        line[0] == OPEN_BRACE,
        line[line.len() - 1] == CLOSE_BRACE,
        is_level(line, toks),
        are_keys(line, toks, inside, fields),
        tokens(line) == seq![0int] + toks + seq![line.len() - 1],
        forall|j: int|
            1 <= j <= toks.len() + 1 ==> #[trigger] nesting(
                line,
                (seq![0int] + toks + seq![line.len() - 1]).take(j),
            ) == 1 + nesting(line, toks.take(j - 1)),
    ensures
        are_top_keys(line, inside.map_values(|j: int| j + 1), fields, key),
{
    let wanted = encode_utf8(escaped(key));
    let all = seq![0int] + toks + seq![line.len() - 1];
    let places = inside.map_values(|j: int| j + 1);
    assert forall|j: int| 1 <= j < all.len() implies #[trigger] nesting(line, all.take(j))
        >= 1 by {
        assert(nesting(line, toks.take(j - 1)) >= 0);
    }
    assert forall|i: int| 0 <= i < fields.len() implies (is_top_key(
        line,
        #[trigger] places[i],
        wanted,
    ) <==> fields[i].key == key) && writes_member(line, all[places[i]], fields[i]) by {
        let j = inside[i];
        assert(places[i] == j + 1);
        assert(all[j + 1] == toks[j]);
        assert(nesting(line, all.take(j + 1)) == 1 + nesting(line, toks.take(j)));
        lemma_in_object(line, all, j + 1);
        lemma_written_member(line, toks[j], fields[i], key);
    }
    assert forall|i: int, k: int| 0 <= i < k < places.len() implies places[i] < places[k] by {
        assert(inside[i] < inside[k]);
    }
    assert forall|j: int| #[trigger] is_top_key(line, j, wanted) implies places.contains(j) by {
        if 1 <= j <= toks.len() {
            assert(nesting(line, all.take(j)) == 1 + nesting(line, toks.take(j - 1)));
            assert(all[j] == toks[j - 1]);
            assert(colon_follows(line, toks[j - 1]));
            assert(inside.contains(j - 1));
            let i = choose|i: int| 0 <= i < inside.len() && inside[i] == j - 1;
            assert(places[i] == j);
        } else if j == 0 {
            assert(all[0] == 0);
        } else {
            assert(all[j] == line.len() - 1);
        }
    }
}

/// Scanning the compact text of an object for a key, as it is written with its escapes,
/// gives what its first member with that key is, and nothing where it has no such member;
/// keys within its values never count. Numbers have texts of numbers.
pub proof fn lemma_field_of_written_key(fields: Seq<Member>, key: Seq<char>)
    requires
        has_number_texts(JsonTree::Obj(fields)),
    ensures
        field_of(compact_bytes(JsonTree::Obj(fields)), encode_utf8(escaped(key))) == match member_value(
            fields,
            key,
            0,
        ) {
            Some(value) => Some(scanned(value)),
            None => None,
        },
{
    let line = compact_bytes(JsonTree::Obj(fields));
    let wanted = encode_utf8(escaped(key));
    let places = lemma_top_keys(fields, key);
    lemma_no_member(fields, key, 0);
    if member_value(fields, key, 0) is Some {
        let i = lemma_member_at(fields, key, 0);
        let j = places[i];
        assert(is_top_key(line, places[i], wanted));
        assert forall|h: int| 0 <= h < j implies !is_top_key(line, h, wanted) by {
            if is_top_key(line, h, wanted) {
                let k = choose|k: int| 0 <= k < places.len() && places[k] == h;
                assert(fields[k].key == key);
                if i < k {
                    assert(places[i] < places[k]);
                }
            }
        }
        assert(is_first_top_key(line, j, wanted));
        let first = choose|j: int| is_first_top_key(line, j, wanted);
        assert(first == j) by {
            if first < j {
                assert(!is_top_key(line, first, wanted));
            } else if j < first {
                assert(!is_top_key(line, j, wanted));
            }
        }
        let p = tokens(line)[j];
        assert(writes_member(line, tokens(line)[places[i]], fields[i]));
        lemma_written_member(line, p, fields[i], key);
        let e = string_end(line, p + 1)->Some_0;
        assert(has_number_texts(fields[i].value));
        lemma_value_at(line, e + 2, fields[i].value);
    } else {
        assert forall|j: int| !is_top_key(line, j, wanted) by {
            if is_top_key(line, j, wanted) {
                let k = choose|k: int| 0 <= k < places.len() && places[k] == j;
                assert(fields[k].key == key);
            }
        }
    }
}

/// Scanning the compact text of an object for a key gives what its first member with that
/// key is, and nothing where it has no such member; keys within its values never count.
/// The key is one that is written as it is, and numbers have texts of numbers.
pub proof fn lemma_field_of_compact_object(fields: Seq<Member>, key: Seq<char>)
    requires
        has_number_texts(JsonTree::Obj(fields)),
        escaped(key) == key,
    ensures
        field_of(compact_bytes(JsonTree::Obj(fields)), encode_utf8(key)) == match member_value(
            fields,
            key,
            0,
        ) {
            Some(value) => Some(scanned(value)),
            None => None,
        },
{
    lemma_field_of_written_key(fields, key);
}

/// Within an array that opens first, no token lies in an object.
proof fn lemma_not_in_object(line: Seq<u8>, toks: Seq<int>, j: int)
    requires
        1 <= j <= toks.len(),
        line[toks[0]] == OPEN_BRACKET,
        forall|i: int| 1 <= i < j ==> #[trigger] nesting(line, toks.take(i)) >= 1,
    ensures
        !in_object(line, toks.take(j)),
    decreases j,
{
    let now = toks.take(j);
    assert(now.drop_last() =~= toks.take(j - 1));
    assert(now.last() == toks[j - 1]);
    if j == 1 {
        assert(toks.take(0) =~= Seq::empty());
        assert(nesting(line, toks.take(0)) == 0);
    } else {
        lemma_not_in_object(line, toks, j - 1);
        assert(nesting(line, toks.take(j - 1)) >= 1);
    }
}

/// Scanning the compact text of an array for a key gives nothing: its items may be objects,
/// but their keys are none of the line.
pub proof fn lemma_field_of_compact_array(items: Seq<JsonTree>, key: Seq<u8>)
    requires
        has_number_texts(JsonTree::Arr(items)),
    ensures
        field_of(compact_bytes(JsonTree::Arr(items)), key) is None,
{
    let line = compact_bytes(JsonTree::Arr(items));
    let inner = item_texts(items);
    lemma_encode_char('[');
    lemma_encode_char(']');
    lemma_encode_both(seq!['['], inner);
    lemma_encode_both(seq!['['] + inner, seq![']']);
    let open = encode_utf8(seq!['[']);
    let close = encode_utf8(seq![']']);
    let mid = encode_utf8(inner);
    let b = line.len() - 1;
    assert(line.subrange(0, line.len() as int) =~= line);
    lemma_stands_split(line, open + mid, close, 0);
    lemma_stands_split(line, open, mid, 0);
    lemma_stands_byte(line, open, 0, 0);
    lemma_stands_byte(line, close, b, 0);
    let toks = lemma_items_span(line, 1, items);
    lemma_bracketed(line, 0, b, toks);
    let all = seq![0int] + toks + seq![b];
    assert(tokens_from(line, line.len() as int) =~= Seq::empty());
    assert(tokens(line) =~= all);
    assert forall|j: int| 1 <= j < all.len() implies #[trigger] nesting(line, all.take(j))
        >= 1 by {
        assert(nesting(line, toks.take(j - 1)) >= 0);
    }
    assert forall|j: int| !is_top_key(line, j, key) by {
        if is_top_key(line, j, key) {
            if j == 0 {
                assert(all.take(0) =~= Seq::empty());
            } else {
                lemma_not_in_object(line, all, j);
            }
        }
    }
}

/// The same of an object that was read from a text: the object written anew is scanned.
pub proof fn lemma_field_of_parsed_object(bytes: Seq<u8>, fields: Seq<Member>, key: Seq<char>)
    requires
        json_parse(bytes) == Some(JsonTree::Obj(fields)),
        escaped(key) == key,
    ensures
        field_of(compact_bytes(JsonTree::Obj(fields)), encode_utf8(key)) == match member_value(
            fields,
            key,
            0,
        ) {
            Some(value) => Some(scanned(value)),
            None => None,
        },
{
    lemma_field_of_compact_object(fields, key);
}

/// Where no member is found, none has the key.
proof fn lemma_no_member(fields: Seq<Member>, key: Seq<char>, from: int)
    requires
        0 <= from,
    ensures
        member_value(fields, key, from) is None ==> forall|i: int|
            from <= i < fields.len() ==> (#[trigger] fields[i]).key != key,
    decreases fields.len() - from,
{
    if from < fields.len() && fields[from].key != key {
        lemma_no_member(fields, key, from + 1);
    }
}

/// The number that a hexadecimal digit is.
pub open spec fn hex_value(c: char) -> int {
    if '0' <= c <= '9' {
        c as int - 0x30
    } else if 'a' <= c <= 'f' {
        c as int - 0x61 + 10
    } else {
        c as int - 0x41 + 10
    }
}

/// The character that a backslash and one more character stand for.
pub open spec fn short_escape(c: char) -> char {
    if c == 'b' {
        '\u{8}'
    } else if c == 't' {
        '\u{9}'
    } else if c == 'n' {
        '\u{a}'
    } else if c == 'f' {
        '\u{c}'
    } else if c == 'r' {
        '\u{d}'
    } else {
        c
    }
}

/// The text that an escaped text stands for. Each `\u` with its four digits is taken for
/// one character by itself.
pub open spec fn unescaped(text: Seq<char>) -> Seq<char>
    decreases text.len(),
{
    if text.len() == 0 {
        Seq::empty()
    } else if text[0] != '\\' || text.len() == 1 {
        seq![text[0]] + unescaped(text.skip(1))
    } else if text[1] == 'u' && text.len() >= 6 {
        let n = 4096 * hex_value(text[2]) + 256 * hex_value(text[3]) + 16 * hex_value(text[4])
            + hex_value(text[5]);
        seq![n as char] + unescaped(text.skip(6))
    } else {
        seq![short_escape(text[1])] + unescaped(text.skip(2))
    }
}

/// Unescaping an escaped text gives the text: what scanning gives for a string stands for
/// the string.
pub proof fn lemma_unescaping_undoes_escaping(text: Seq<char>)
    ensures
        unescaped(escaped(text)) == text,
    decreases text.len(),
{
    if text.len() > 0 {
        let rest = text.drop_first();
        let tail = escaped(rest);
        let all = escaped(text);
        lemma_escaped_first(text);
        lemma_unescaping_undoes_escaping(rest);
        lemma_unescaped_first(text[0], tail);
        assert(all == escaped_char(text[0]) + tail);
        assert(seq![text[0]] + rest =~= text);
    } else {
        assert(unescaped(escaped(text)) =~= text);
    }
}

proof fn lemma_unescaped_first(c: char, tail: Seq<char>)
    ensures
        unescaped(escaped_char(c) + tail) == seq![c] + unescaped(tail),
{
    let head = escaped_char(c);
    let all = head + tail;
    let n = c as int;
    assert(all.skip(head.len() as int) =~= tail);
    if head.len() == 6 {
        let high = n / 16;
        let low = n % 16;
        assert(0 <= high < 2 && 0 <= low < 16);
        assert(n == 16 * high + low);
        assert(hex_value(hex_digit(high)) == high);
        assert(hex_value(hex_digit(low)) == low);
        assert(hex_value('0') == 0);
        assert(all[4] == hex_digit(high) && all[5] == hex_digit(low));
    }
}

} // verus!
