//! Spaces and tabs between the tokens of a line do not matter to a scan.

use vstd::prelude::*;
use vstd::utf8::encode_utf8;

use crate::bytes::{
    CLOSE_BRACE, CLOSE_BRACKET, COLON, COMMA, MINUS, NINE, OPEN_BRACE, OPEN_BRACKET, QUOTE, SPACE,
    TAB, ZERO,
};
use crate::bytes::has_prefix;
use crate::compact::{lemma_field_of_compact_object, lemma_field_of_written_key, scanned};
use crate::scan::{
    field_of, in_number, in_object, is_blank, is_first_top_key, is_key, is_top_key,
    lemma_string_end, nesting, number_end, skip_blanks, string_end, tokens, tokens_from, value_at,
    word_false, word_null, word_true,
};
use crate::value::{compact_bytes, escaped, member_value, JsonTree, Member};
use crate::written::has_number_texts;

verus! {

/// A byte that parts the tokens of a JSON text.
pub open spec fn is_joint_byte(b: u8) -> bool {
    ||| b == QUOTE
    ||| b == OPEN_BRACE
    ||| b == CLOSE_BRACE
    ||| b == OPEN_BRACKET
    ||| b == CLOSE_BRACKET
    ||| b == COLON
    ||| b == COMMA
}

/// Position `p` of a line lies between two tokens of a JSON text: outside of strings, and
/// not within a number or a word.
pub open spec fn is_joint(line: Seq<u8>, p: int) -> bool {
    &&& 0 <= p < line.len()
    &&& tokens(line).contains(p)
    &&& p == 0 || is_joint_byte(line[p - 1]) || is_joint_byte(line[p])
}

/// A line with one more byte at `p`.
#[verifier::opaque]
pub open spec fn with_byte(line: Seq<u8>, p: int, b: u8) -> Seq<u8> {
    line.take(p) + seq![b] + line.skip(p)
}

/// A line with some spaces and tabs more between its tokens, put in one by one.
pub open spec fn is_spaced(spaced: Seq<u8>, line: Seq<u8>, count: nat) -> bool
    decreases count,
{
    if count == 0 {
        spaced == line
    } else {
        exists|mid: Seq<u8>, p: int, b: u8|
            {
                &&& is_spaced(mid, line, (count - 1) as nat)
                &&& is_joint(mid, p)
                &&& b == SPACE || b == TAB
                &&& spaced == #[trigger] with_byte(mid, p, b)
            }
    }
}

proof fn lemma_with_byte(line: Seq<u8>, p: int, b: u8)
    requires
        0 <= p <= line.len(),
    ensures
        with_byte(line, p, b).len() == line.len() + 1,
        with_byte(line, p, b)[p] == b,
        forall|i: int| 0 <= i < p ==> #[trigger] with_byte(line, p, b)[i] == line[i],
        forall|i: int|
            p < i <= line.len() ==> #[trigger] with_byte(line, p, b)[i] == line[i - 1],
{
    reveal(with_byte);
}

spec fn shifted(end: Option<int>) -> Option<int> {
    match end {
        Some(e) => Some(e + 1),
        None => None,
    }
}

proof fn lemma_string_end_behind(line: Seq<u8>, p: int, b: u8, i: int)
    requires
        0 <= p <= i,
        p <= line.len(),
    ensures
        string_end(with_byte(line, p, b), i + 1) == shifted(string_end(line, i)),
    decreases line.len() - i,
{
    let now = with_byte(line, p, b);
    lemma_with_byte(line, p, b);
    if i < line.len() {
        assert(now[i + 1] == line[i]);
        if line[i] != QUOTE {
            lemma_string_end_behind(line, p, b, i + 1);
            if i + 1 < line.len() {
                lemma_string_end_behind(line, p, b, i + 2);
            }
        }
    }
}

proof fn lemma_string_end_before(line: Seq<u8>, p: int, b: u8, i: int)
    requires
        0 <= i,
        0 <= p <= line.len(),
        string_end(line, i) matches Some(e) && e < p,
    ensures
        string_end(with_byte(line, p, b), i) == string_end(line, i),
    decreases line.len() - i,
{
    let now = with_byte(line, p, b);
    lemma_with_byte(line, p, b);
    lemma_string_end(line, i);
    assert(now[i] == line[i]);
    if line[i] != QUOTE {
        if line[i] != crate::bytes::BACKSLASH {
            lemma_string_end_before(line, p, b, i + 1);
        } else {
            lemma_string_end_before(line, p, b, i + 2);
        }
    }
}

/// The tokens of the rest of a line lie behind where it begins.
pub(crate) proof fn lemma_tokens_rise(line: Seq<u8>, i: int)
    requires
        0 <= i,
    ensures
        forall|j: int|
            0 <= j < tokens_from(line, i).len() ==> i <= #[trigger] tokens_from(line, i)[j]
                < line.len(),
        forall|j: int|
            0 <= j < tokens_from(line, i).len() - 1 ==> (#[trigger] tokens_from(line, i)[j])
                < tokens_from(line, i)[j + 1],
        i < line.len() ==> tokens_from(line, i).len() > 0 && tokens_from(line, i)[0] == i,
    decreases line.len() - i,
{
    if i < line.len() {
        let all = tokens_from(line, i);
        lemma_string_end(line, i + 1);
        if line[i] == QUOTE && string_end(line, i + 1) is None {
            assert(all =~= seq![i]);
        } else {
            let next = if line[i] == QUOTE {
                string_end(line, i + 1)->Some_0 + 1
            } else {
                i + 1
            };
            let rest = tokens_from(line, next);
            lemma_tokens_rise(line, next);
            assert(all =~= seq![i] + rest);
            assert forall|j: int| 0 <= j < all.len() implies i <= #[trigger] all[j]
                < line.len() by {
                if j > 0 {
                    assert(all[j] == rest[j - 1]);
                }
            }
            assert forall|j: int| 0 <= j < all.len() - 1 implies (#[trigger] all[j]) < all[j
                + 1] by {
                assert(all[j + 1] == rest[j]);
                if j > 0 {
                    assert(all[j] == rest[j - 1]);
                    assert(rest[j - 1] < rest[j - 1 + 1]);
                }
            }
        }
    }
}

/// Token `j` begins what is left of a line there.
pub(crate) proof fn lemma_tokens_at(line: Seq<u8>, i: int, j: int)
    requires
        0 <= i,
        0 <= j < tokens_from(line, i).len(),
    ensures
        tokens_from(line, i).skip(j) == tokens_from(line, tokens_from(line, i)[j]),
    decreases line.len() - i,
{
    let all = tokens_from(line, i);
    lemma_tokens_rise(line, i);
    if j == 0 {
        assert(all.skip(0) =~= all);
    } else {
        let next = if line[i] == QUOTE {
            lemma_string_end(line, i + 1);
            string_end(line, i + 1)->Some_0 + 1
        } else {
            i + 1
        };
        let rest = tokens_from(line, next);
        assert(all =~= seq![i] + rest);
        assert(rest[j - 1] == all[j]);
        lemma_tokens_at(line, next, j - 1);
        assert(all.skip(j) =~= rest.skip(j - 1));
    }
}

spec fn moved(toks: Seq<int>) -> Seq<int> {
    toks.map_values(|t: int| t + 1)
}

proof fn lemma_tokens_behind(line: Seq<u8>, p: int, b: u8, i: int)
    requires
        0 <= p <= i,
        p <= line.len(),
    ensures
        tokens_from(with_byte(line, p, b), i + 1) == moved(tokens_from(line, i)),
    decreases line.len() - i,
{
    let now = with_byte(line, p, b);
    lemma_with_byte(line, p, b);
    if i < line.len() {
        assert(now[i + 1] == line[i]);
        if line[i] == QUOTE {
            lemma_string_end_behind(line, p, b, i + 1);
            lemma_string_end(line, i + 1);
            if let Some(e) = string_end(line, i + 1) {
                lemma_tokens_behind(line, p, b, e + 1);
            }
        } else {
            lemma_tokens_behind(line, p, b, i + 1);
        }
    }
    assert(tokens_from(now, i + 1) =~= moved(tokens_from(line, i)));
}

proof fn lemma_tokens_spaced(line: Seq<u8>, p: int, b: u8, i: int, k: int)
    requires
        0 <= i <= p < line.len(),
        is_blank(b),
        0 <= k < tokens_from(line, i).len(),
        tokens_from(line, i)[k] == p,
    ensures
        tokens_from(with_byte(line, p, b), i) == tokens_from(line, i).take(k) + seq![p] + moved(
            tokens_from(line, i).skip(k),
        ),
    decreases p - i,
{
    let now = with_byte(line, p, b);
    let all = tokens_from(line, i);
    lemma_with_byte(line, p, b);
    lemma_tokens_rise(line, i);
    if i == p {
        assert(k == 0) by {
            if k > 0 {
                lemma_rising(all, 0, k);
            }
        }
        lemma_tokens_behind(line, p, b, p);
        assert(all.skip(0) =~= all);
        assert(tokens_from(now, i) =~= all.take(0) + seq![p] + moved(all.skip(0)));
    } else {
        assert(k > 0);
        assert(now[i] == line[i]);
        let next = if line[i] == QUOTE {
            lemma_string_end(line, i + 1);
            string_end(line, i + 1)->Some_0 + 1
        } else {
            i + 1
        };
        let rest = tokens_from(line, next);
        assert(all =~= seq![i] + rest);
        assert(rest[k - 1] == p);
        lemma_tokens_rise(line, next);
        assert(next <= rest[k - 1]);
        if line[i] == QUOTE {
            lemma_string_end_before(line, p, b, i + 1);
        }
        lemma_tokens_spaced(line, p, b, next, k - 1);
        assert(all.skip(k) =~= rest.skip(k - 1));
        assert(all.take(k) =~= seq![i] + rest.take(k - 1));
        assert(tokens_from(now, i) =~= seq![i] + tokens_from(now, next));
        assert(tokens_from(now, i) =~= all.take(k) + seq![p] + moved(all.skip(k)));
    }
}

proof fn lemma_rising(toks: Seq<int>, i: int, j: int)
    requires
        0 <= i < j < toks.len(),
        forall|j: int| 0 <= j < toks.len() - 1 ==> (#[trigger] toks[j]) < toks[j + 1],
    ensures
        toks[i] < toks[j],
    decreases j - i,
{
    assert(toks[j - 1] < toks[j - 1 + 1]);
    if i < j - 1 {
        lemma_rising(toks, i, j - 1);
    }
}

/// Where a position of the line lies once the byte is put in at `p`.
spec fn place(p: int, i: int) -> int {
    if i < p {
        i
    } else {
        i + 1
    }
}

/// A line, a place between its tokens, and the line with a blank there.
spec fn is_step(line: Seq<u8>, now: Seq<u8>, p: int, b: u8, k: int) -> bool {
    &&& is_joint(line, p)
    &&& is_blank(b)
    &&& now == with_byte(line, p, b)
    &&& 0 <= k < tokens(line).len()
    &&& tokens(line)[k] == p
    &&& tokens(now) == tokens(line).take(k) + seq![p] + moved(tokens(line).skip(k))
}

/// Before and behind the new blank, the tokens are those of the line.
proof fn lemma_step_token(line: Seq<u8>, now: Seq<u8>, p: int, b: u8, k: int, j: int)
    requires
        is_step(line, now, p, b, k),
        0 <= j < tokens(line).len(),
    ensures
        tokens(now).len() == tokens(line).len() + 1,
        tokens(now)[place(k, j)] == place(p, tokens(line)[j]),
        now[place(p, tokens(line)[j])] == line[tokens(line)[j]],
        0 <= tokens(line)[j] < line.len(),
        tokens(line)[j] < p <==> j < k,
        tokens(now)[k] == p,
        now[p] == b,
{
    let toks = tokens(line);
    lemma_tokens_rise(line, 0);
    lemma_with_byte(line, p, b);
    if j < k {
        lemma_rising(toks, j, k);
    } else if k < j {
        lemma_rising(toks, k, j);
    }
    assert(0 <= toks[j] < line.len());
    assert(tokens(now)[place(k, j)] == place(p, toks[j]));
}

proof fn lemma_step_nesting(line: Seq<u8>, now: Seq<u8>, p: int, b: u8, k: int, j: int)
    requires
        is_step(line, now, p, b, k),
        0 <= j <= tokens(line).len() + 1,
    ensures
        nesting(now, tokens(now).take(j)) == nesting(
            line,
            tokens(line).take(if j <= k {
                j
            } else {
                j - 1
            }),
        ),
        in_object(now, tokens(now).take(j)) == in_object(
            line,
            tokens(line).take(if j <= k {
                j
            } else {
                j - 1
            }),
        ),
    decreases j,
{
    let toks = tokens(line);
    let news = tokens(now);
    lemma_step_token(line, now, p, b, k, k);
    if j == 0 {
        assert(news.take(0) =~= Seq::empty());
        assert(toks.take(0) =~= Seq::empty());
    } else {
        lemma_step_nesting(line, now, p, b, k, j - 1);
        assert(news.take(j).drop_last() =~= news.take(j - 1));
        assert(news.take(j).last() == news[j - 1]);
        if j - 1 == k {
            assert(news[k] == p);
        } else {
            let i = if j - 1 < k {
                j - 1
            } else {
                j - 2
            };
            lemma_step_token(line, now, p, b, k, i);
            assert(toks.take(i + 1).drop_last() =~= toks.take(i));
            assert(toks.take(i + 1).last() == toks[i]);
        }
    }
}

proof fn lemma_step_blanks(line: Seq<u8>, p: int, b: u8, i: int)
    requires
        0 <= p <= line.len(),
        0 <= i,
        is_blank(b),
    ensures
        i <= p ==> skip_blanks(with_byte(line, p, b), i) == place(p, skip_blanks(line, i)),
        p <= i ==> skip_blanks(with_byte(line, p, b), i + 1) == skip_blanks(line, i) + 1,
        skip_blanks(line, i) >= i,
    decreases line.len() - i,
{
    let now = with_byte(line, p, b);
    lemma_with_byte(line, p, b);
    if i < line.len() {
        if i < p {
            assert(now[i] == line[i]);
        } else {
            assert(now[i + 1] == line[i]);
        }
        if is_blank(line[i]) {
            lemma_step_blanks(line, p, b, i + 1);
        }
    }
    if i == p {
        assert(now[p] == b);
        assert(skip_blanks(now, p) == skip_blanks(now, p + 1));
    }
}

/// A string that begins with a token before `p` ends before `p`.
proof fn lemma_step_string(line: Seq<u8>, p: int, s: int)
    requires
        is_joint(line, p),
        tokens(line).contains(s),
        s < p,
        line[s] == QUOTE,
    ensures
        string_end(line, s + 1) matches Some(e) && e < p,
{
    let toks = tokens(line);
    let k = choose|k: int| 0 <= k < toks.len() && toks[k] == p;
    let j = choose|j: int| 0 <= j < toks.len() && toks[j] == s;
    lemma_tokens_rise(line, 0);
    if k < j {
        lemma_rising(toks, k, j);
    }
    lemma_tokens_at(line, 0, j);
    let rest = tokens_from(line, s);
    assert(rest == toks.skip(j));
    assert(rest[k - j] == p);
    lemma_string_end(line, s + 1);
    if let Some(e) = string_end(line, s + 1) {
        lemma_tokens_rise(line, e + 1);
        let more = tokens_from(line, e + 1);
        assert(rest =~= seq![s] + more);
        assert(more[k - j - 1] == p);
    }
}

/// Behind a token that is no string, blanks and what follows them are tokens.
proof fn lemma_tokens_through_blanks(line: Seq<u8>, i: int)
    requires
        0 <= i < line.len(),
        tokens(line).contains(i),
        line[i] != QUOTE,
        skip_blanks(line, i + 1) < line.len(),
    ensures
        tokens(line).contains(skip_blanks(line, i + 1)),
    decreases line.len() - i,
{
    lemma_next_token(line, i, i + 1);
    lemma_step_blanks(line, 0, SPACE, i + 1);
    if i + 1 < line.len() && is_blank(line[i + 1]) {
        lemma_tokens_through_blanks(line, i + 1);
    }
}

/// The token behind a token.
proof fn lemma_next_token(line: Seq<u8>, i: int, next: int)
    requires
        0 <= i < line.len(),
        tokens(line).contains(i),
        line[i] != QUOTE && next == i + 1 || line[i] == QUOTE && string_end(line, i + 1) == Some(
            next - 1,
        ),
    ensures
        next < line.len() ==> tokens(line).contains(next),
{
    let toks = tokens(line);
    let j = choose|j: int| 0 <= j < toks.len() && toks[j] == i;
    lemma_tokens_at(line, 0, j);
    lemma_string_end(line, i + 1);
    let rest = tokens_from(line, i);
    let more = tokens_from(line, next);
    lemma_tokens_rise(line, next);
    assert(rest =~= seq![i] + more);
    if next < line.len() {
        assert(more[0] == next);
        assert(toks[j + 1] == toks.skip(j)[1]);
        assert(toks[j + 1] == next);
    }
}

proof fn lemma_number_end_step(line: Seq<u8>, p: int, b: u8, s: int)
    requires
        is_joint(line, p),
        is_blank(b),
        0 <= s,
        s < p ==> s < line.len() && in_number(line[s]),
    ensures
        p <= s ==> number_end(with_byte(line, p, b), s + 1) == number_end(line, s) + 1,
        s < p ==> number_end(with_byte(line, p, b), s) == number_end(line, s) && number_end(line, s)
            <= p,
    decreases line.len() - s,
{
    let now = with_byte(line, p, b);
    lemma_with_byte(line, p, b);
    if p <= s {
        if s < line.len() {
            assert(now[s + 1] == line[s]);
            if in_number(line[s]) {
                lemma_number_end_step(line, p, b, s + 1);
            }
        }
    } else {
        assert(now[s] == line[s]);
        if s + 1 < p {
            assert(now[s + 1] == line[s + 1]);
            if in_number(line[s + 1]) {
                lemma_number_end_step(line, p, b, s + 1);
            } else {
                assert(number_end(line, s + 1) == s + 1);
                assert(number_end(now, s + 1) == s + 1);
            }
        } else {
            // The number ends before the joint: neither side of it is in a number.
            assert(now[p] == b);
            assert(!in_number(line[p]));
            assert(number_end(line, p) == p);
            assert(number_end(now, p) == p);
        }
    }
}

proof fn lemma_word_step(line: Seq<u8>, p: int, b: u8, s: int, word: Seq<u8>)
    requires
        is_joint(line, p),
        is_blank(b),
        0 <= s < line.len(),
        forall|i: int|
            0 <= i < word.len() ==> !is_joint_byte(#[trigger] word[i]) && !is_blank(word[i]),
    ensures
        has_prefix(with_byte(line, p, b).skip(place(p, s)), word) == has_prefix(
            line.skip(s),
            word,
        ),
{
    let now = with_byte(line, p, b);
    lemma_with_byte(line, p, b);
    let n = word.len() as int;
    let rest = line.skip(s);
    let rest_now = now.skip(place(p, s));
    if p <= s {
        assert(rest_now =~= rest);
    } else {
        if has_prefix(rest, word) {
            assert(rest.take(n) == word);
            if s + n <= p {
                assert(rest_now.take(n) =~= rest.take(n));
            } else {
                assert(rest.take(n)[p - s] == line[p]);
                assert(rest.take(n)[p - 1 - s] == line[p - 1]);
                assert(!is_joint_byte(word[p - s]) && !is_joint_byte(word[p - 1 - s]));
            }
        }
        if has_prefix(rest_now, word) {
            assert(rest_now.take(n) == word);
            if s + n <= p {
                assert(rest_now.take(n) =~= rest.take(n));
            } else {
                assert(rest_now.take(n)[p - s] == now[p]);
                assert(is_blank(word[p - s]));
            }
        }
    }
}

proof fn lemma_string_value_step(line: Seq<u8>, p: int, b: u8, s: int)
    requires
        is_joint(line, p),
        0 <= s < line.len(),
        tokens(line).contains(s),
        line[s] == QUOTE,
    ensures
        ({
            let now = with_byte(line, p, b);
            let t = place(p, s);
            match string_end(line, s + 1) {
                Some(e) => string_end(now, t + 1) == Some(place(p, e)) && now.subrange(
                    t + 1,
                    place(p, e),
                ) == line.subrange(s + 1, e),
                None => string_end(now, t + 1) is None,
            }
        }),
{
    let now = with_byte(line, p, b);
    lemma_with_byte(line, p, b);
    lemma_string_end(line, s + 1);
    if s < p {
        lemma_step_string(line, p, s);
        lemma_string_end_before(line, p, b, s + 1);
        let e = string_end(line, s + 1)->Some_0;
        assert(now.subrange(s + 1, e) =~= line.subrange(s + 1, e));
    } else {
        lemma_string_end_behind(line, p, b, s + 1);
        if let Some(e) = string_end(line, s + 1) {
            assert(now.subrange(s + 2, e + 1) =~= line.subrange(s + 1, e));
        }
    }
}

proof fn lemma_number_value_step(line: Seq<u8>, p: int, b: u8, s: int)
    requires
        is_joint(line, p),
        is_blank(b),
        0 <= s < line.len(),
        in_number(line[s]),
    ensures
        ({
            let now = with_byte(line, p, b);
            let t = place(p, s);
            now.subrange(t, number_end(now, t)) == line.subrange(s, number_end(line, s))
        }),
{
    let now = with_byte(line, p, b);
    lemma_with_byte(line, p, b);
    lemma_number_end_step(line, p, b, s);
    lemma_number_end_within(line, s);
    let e = number_end(line, s);
    if s < p {
        assert(now.subrange(s, e) =~= line.subrange(s, e));
    } else {
        assert(now.subrange(s + 1, e + 1) =~= line.subrange(s, e));
    }
}

proof fn lemma_value_step(line: Seq<u8>, p: int, b: u8, i: int)
    requires
        is_joint(line, p),
        is_blank(b),
        0 < i,
        i <= line.len(),
        tokens(line).contains(i - 1),
        line[i - 1] != QUOTE,
    ensures
        i <= p ==> value_at(with_byte(line, p, b), i) == value_at(line, i),
        p <= i ==> value_at(with_byte(line, p, b), i + 1) == value_at(line, i),
{
    let now = with_byte(line, p, b);
    lemma_with_byte(line, p, b);
    lemma_step_blanks(line, p, b, i);
    let s = skip_blanks(line, i);
    let t = place(p, s);
    if s < line.len() {
        lemma_tokens_through_blanks(line, i - 1);
        assert(now[t] == line[s]);
        lemma_word_step(line, p, b, s, word_true());
        lemma_word_step(line, p, b, s, word_false());
        lemma_word_step(line, p, b, s, word_null());
        if line[s] == QUOTE {
            lemma_string_value_step(line, p, b, s);
        } else if line[s] == MINUS || ZERO <= line[s] <= NINE {
            lemma_number_value_step(line, p, b, s);
        }
    }
}

proof fn lemma_number_end_within(line: Seq<u8>, s: int)
    requires
        0 <= s <= line.len(),
    ensures
        s <= number_end(line, s) <= line.len(),
    decreases line.len() - s,
{
    if s < line.len() && in_number(line[s]) {
        lemma_number_end_within(line, s + 1);
    }
}

/// A key is a key, and its colon is where it was, but for the new blank.
proof fn lemma_key_step(
    line: Seq<u8>,
    now: Seq<u8>,
    p: int,
    b: u8,
    k: int,
    j: int,
    key: Seq<u8>,
)
    requires
        is_step(line, now, p, b, k),
        0 <= j < tokens(line).len(),
    ensures
        is_key(now, tokens(now)[place(k, j)], key) <==> is_key(line, tokens(line)[j], key),
        is_key(line, tokens(line)[j], key) ==> {
            let t = tokens(line)[j];
            let e = string_end(line, t + 1)->Some_0;
            let colon = skip_blanks(line, e + 1);
            &&& string_end(now, place(p, t) + 1) is Some
            &&& skip_blanks(now, string_end(now, place(p, t) + 1)->Some_0 + 1) == place(p, colon)
            &&& 0 < colon < line.len()
            &&& tokens(line).contains(colon)
            &&& line[colon] == COLON
        },
{
    let t = tokens(line)[j];
    lemma_step_token(line, now, p, b, k, j);
    lemma_string_end(line, t + 1);
    if line[t] == QUOTE {
        assert(tokens(line).contains(t));
        lemma_string_value_step(line, p, b, t);
        if let Some(e) = string_end(line, t + 1) {
            if t < p {
                lemma_step_string(line, p, t);
            }
            lemma_colon_step(line, p, b, t, e);
        }
    }
}

proof fn lemma_colon_step(line: Seq<u8>, p: int, b: u8, t: int, e: int)
    requires
        is_joint(line, p),
        is_blank(b),
        0 <= t < line.len(),
        tokens(line).contains(t),
        line[t] == QUOTE,
        string_end(line, t + 1) == Some(e),
        t < p ==> e < p,
    ensures
        ({
            let colon = skip_blanks(line, e + 1);
            let now = with_byte(line, p, b);
            &&& t <= e
            &&& skip_blanks(now, place(p, e) + 1) == place(p, colon)
            &&& e < colon
            &&& place(p, colon) < now.len() <==> colon < line.len()
            &&& colon < line.len() ==> now[place(p, colon)] == line[colon]
            &&& colon < line.len() ==> tokens(line).contains(colon)
        }),
{
    let now = with_byte(line, p, b);
    let colon = skip_blanks(line, e + 1);
    lemma_with_byte(line, p, b);
    lemma_string_end(line, t + 1);
    lemma_step_blanks(line, p, b, e + 1);
    lemma_next_token(line, t, e + 1);
    if colon < line.len() {
        if is_blank(line[e + 1]) {
            lemma_tokens_through_blanks(line, e + 1);
        }
    } else {
        lemma_skip_blanks_within(line, e + 1);
    }
}

proof fn lemma_skip_blanks_within(line: Seq<u8>, i: int)
    requires
        0 <= i <= line.len(),
    ensures
        skip_blanks(line, i) <= line.len(),
    decreases line.len() - i,
{
    if i < line.len() && is_blank(line[i]) {
        lemma_skip_blanks_within(line, i + 1);
    }
}

/// A space or a tab more between two tokens changes nothing of what is found for a key.
pub proof fn lemma_one_blank_does_not_matter(line: Seq<u8>, p: int, b: u8, key: Seq<u8>)
    requires
        is_joint(line, p),
        b == SPACE || b == TAB,
    ensures
        field_of(with_byte(line, p, b), key) == field_of(line, key),
{
    let now = with_byte(line, p, b);
    let toks = tokens(line);
    let k = choose|k: int| 0 <= k < toks.len() && toks[k] == p;
    lemma_tokens_spaced(line, p, b, 0, k);
    assert(is_step(line, now, p, b, k));
    lemma_step_token(line, now, p, b, k, k);
    assert forall|j: int| 0 <= j < toks.len() implies (is_top_key(now, #[trigger] place(k, j), key)
        <==> is_top_key(line, j, key)) by {
        lemma_key_step(line, now, p, b, k, j, key);
        lemma_step_nesting(line, now, p, b, k, place(k, j));
    }
    assert forall|j: int| is_top_key(now, j, key) implies exists|i: int|
        0 <= i < toks.len() && #[trigger] place(k, i) == j && is_top_key(line, i, key) by {
        if j == k {
            assert(tokens(now)[k] == p);
        } else {
            let i = if j < k {
                j
            } else {
                j - 1
            };
            assert(place(k, i) == j);
        }
    }
    if exists|j: int| is_top_key(line, j, key) {
        let any = choose|j: int| is_top_key(line, j, key);
        let j = lemma_first_top_key(line, key, any);
        assert(is_top_key(now, place(k, j), key));
        assert forall|h: int| 0 <= h < place(k, j) implies !is_top_key(now, h, key) by {
            if is_top_key(now, h, key) {
                let i = choose|i: int|
                    0 <= i < toks.len() && #[trigger] place(k, i) == h && is_top_key(line, i, key);
                assert(i < j);
            }
        }
        assert(is_first_top_key(now, place(k, j), key));
        lemma_first_is_one(line, key, j);
        lemma_first_is_one(now, key, place(k, j));
        lemma_key_step(line, now, p, b, k, j, key);
        lemma_step_token(line, now, p, b, k, j);
        let t = toks[j];
        let e = string_end(line, t + 1)->Some_0;
        let colon = skip_blanks(line, e + 1);
        lemma_value_step(line, p, b, colon + 1);
    } else {
        assert forall|j: int| !is_top_key(now, j, key) by {
            if is_top_key(now, j, key) {
                let i = choose|i: int|
                    0 <= i < toks.len() && #[trigger] place(k, i) == j && is_top_key(line, i, key);
            }
        }
    }
}

/// The first of the keys, where there is one.
pub(crate) proof fn lemma_first_top_key(line: Seq<u8>, key: Seq<u8>, j: int) -> (first: int)
    requires
        is_top_key(line, j, key),
    ensures
        is_first_top_key(line, first, key),
    decreases j,
{
    if exists|i: int| 0 <= i < j && is_top_key(line, i, key) {
        let i = choose|i: int| 0 <= i < j && is_top_key(line, i, key);
        lemma_first_top_key(line, key, i)
    } else {
        j
    }
}

pub(crate) proof fn lemma_first_is_one(line: Seq<u8>, key: Seq<u8>, j: int)
    requires
        is_first_top_key(line, j, key),
    ensures
        exists|i: int| is_top_key(line, i, key),
        (choose|i: int| is_first_top_key(line, i, key)) == j,
{
    let i = choose|i: int| is_first_top_key(line, i, key);
    assert(is_first_top_key(line, i, key));
    if i < j {
        assert(!is_top_key(line, i, key));
    } else if j < i {
        assert(!is_top_key(line, j, key));
    }
}

/// Spaces and tabs between the tokens of a line, however many, change nothing of what is
/// found for a key.
pub proof fn lemma_blanks_do_not_matter(
    spaced: Seq<u8>,
    line: Seq<u8>,
    count: nat,
    key: Seq<u8>,
)
    requires
        is_spaced(spaced, line, count),
    ensures
        field_of(spaced, key) == field_of(line, key),
    decreases count,
{
    if count > 0 {
        let (mid, p, b) = choose|mid: Seq<u8>, p: int, b: u8|
            {
                &&& is_spaced(mid, line, (count - 1) as nat)
                &&& is_joint(mid, p)
                &&& b == SPACE || b == TAB
                &&& spaced == #[trigger] with_byte(mid, p, b)
            };
        lemma_one_blank_does_not_matter(mid, p, b, key);
        lemma_blanks_do_not_matter(mid, line, (count - 1) as nat, key);
    }
}

/// Scanning the text of an object, with any spaces and tabs between its tokens, for a key
/// gives what its first member with that key is.
pub proof fn lemma_field_of_spaced_object(
    spaced: Seq<u8>,
    fields: Seq<Member>,
    count: nat,
    key: Seq<char>,
)
    requires
        has_number_texts(JsonTree::Obj(fields)),
        escaped(key) == key,
        is_spaced(spaced, compact_bytes(JsonTree::Obj(fields)), count),
    ensures
        field_of(spaced, encode_utf8(key)) == match member_value(fields, key, 0) {
            Some(value) => Some(scanned(value)),
            None => None,
        },
{
    lemma_blanks_do_not_matter(
        spaced,
        compact_bytes(JsonTree::Obj(fields)),
        count,
        encode_utf8(key),
    );
    lemma_field_of_compact_object(fields, key);
}

/// The same of a key that is written with escapes.
pub proof fn lemma_written_key_of_spaced_object(
    spaced: Seq<u8>,
    fields: Seq<Member>,
    count: nat,
    key: Seq<char>,
)
    requires
        has_number_texts(JsonTree::Obj(fields)),
        is_spaced(spaced, compact_bytes(JsonTree::Obj(fields)), count),
    ensures
        field_of(spaced, encode_utf8(escaped(key))) == match member_value(fields, key, 0) {
            Some(value) => Some(scanned(value)),
            None => None,
        },
{
    lemma_blanks_do_not_matter(
        spaced,
        compact_bytes(JsonTree::Obj(fields)),
        count,
        encode_utf8(escaped(key)),
    );
    lemma_field_of_written_key(fields, key);
}

} // verus!
