//! Text without regard to the case of ASCII letters, and numbers as text.

use vstd::prelude::*;

verus! {

/// An ASCII capital as its small letter; every other byte as it is.
pub open spec fn fold(b: u8) -> u8 {
    if 0x41 <= b <= 0x5A {
        (b + 0x20) as u8
    } else {
        b
    }
}

/// The same bytes, but for the case of ASCII letters.
pub open spec fn same_fold(a: Seq<u8>, b: Seq<u8>) -> bool {
    &&& a.len() == b.len()
    &&& forall|i: int| 0 <= i < a.len() ==> fold(#[trigger] a[i]) == fold(b[i])
}

/// `hay` begins with `prefix`, but for the case of ASCII letters.
pub open spec fn has_prefix_fold(hay: Seq<u8>, prefix: Seq<u8>) -> bool {
    prefix.len() <= hay.len() && same_fold(hay.take(prefix.len() as int), prefix)
}

/// `needle` stands at position `at` of `hay`, but for the case of ASCII letters.
pub open spec fn stands_at_fold(hay: Seq<u8>, needle: Seq<u8>, at: int) -> bool {
    0 <= at && at + needle.len() <= hay.len() && same_fold(
        hay.subrange(at, at + needle.len()),
        needle,
    )
}

/// `needle` stands somewhere in `hay`, but for the case of ASCII letters.
pub open spec fn contains_fold(hay: Seq<u8>, needle: Seq<u8>) -> bool {
    exists|at: int| stands_at_fold(hay, needle, at)
}

/// The small letter of an ASCII capital; every other byte as it is.
pub fn to_lower(b: u8) -> (out: u8)
    ensures
        out == fold(b),
{
    if 0x41 <= b && b <= 0x5A {
        b + 0x20
    } else {
        b
    }
}

fn to_upper(b: u8) -> (out: u8)
    ensures
        forall|c: u8| #[trigger] fold(c) == fold(b) <==> c == out || c == fold(b),
{
    if 0x61 <= b && b <= 0x7A {
        b - 0x20
    } else {
        b
    }
}

/// Whether two byte strings differ at most in the case of ASCII letters.
pub fn eq_ascii_ci(a: &[u8], b: &[u8]) -> (out: bool)
    ensures
        out == same_fold(a@, b@),
{
    if a.len() != b.len() {
        return false;
    }
    let mut i: usize = 0;
    while i < a.len()
        invariant
            i <= a@.len(),
            a@.len() == b@.len(),
            forall|j: int| 0 <= j < i ==> fold(#[trigger] a@[j]) == fold(b@[j]),
        decreases a@.len() - i,
    {
        if to_lower(a[i]) != to_lower(b[i]) {
            assert(fold(a@[i as int]) != fold(b@[i as int]));
            return false;
        }
        i = i + 1;
    }
    true
}

/// Whether `hay` begins with `prefix`, whatever the case of ASCII letters. Bytes
/// are compared, so that the prefix may end within a character.
pub fn starts_with_ascii_ci(hay: &[u8], prefix: &[u8]) -> (out: bool)
    ensures
        out == has_prefix_fold(hay@, prefix@),
{
    if hay.len() < prefix.len() {
        return false;
    }
    let head = &hay[0..prefix.len()];
    assert(head@ =~= hay@.take(prefix@.len() as int));
    eq_ascii_ci(head, prefix)
}

/// Whether `needle` stands somewhere in `haystack`, whatever the case of ASCII
/// letters; other bytes are compared as they are. Nothing stands everywhere.
///
/// The two cases of the first byte are searched for, and the rest is compared at
/// each place where one of them stands.
pub fn contains_ascii_ci(haystack: &[u8], needle: &[u8]) -> (out: bool)
    ensures
        out == contains_fold(haystack@, needle@),
{
    if needle.len() == 0 {
        assert(stands_at_fold(haystack@, needle@, 0));
        return true;
    }
    if needle.len() > haystack.len() {
        return false;
    }
    let len: usize = haystack.len();
    let last: usize = len - needle.len();
    let lower: u8 = to_lower(needle[0]);
    let upper: u8 = to_upper(needle[0]);
    let mut from: usize = 0;
    while from <= last
        invariant
            0 < needle@.len() <= haystack@.len(),
            len == haystack@.len(),
            last == haystack@.len() - needle@.len(),
            from <= last + 1,
            lower == fold(needle@[0]),
            forall|c: u8| #[trigger] fold(c) == fold(needle@[0]) <==> c == upper || c == lower,
            forall|at: int| 0 <= at < from ==> !stands_at_fold(haystack@, needle@, at),
        decreases last + 1 - from,
    {
        let windows = &haystack[from..last + 1];
        match memchr::memchr2(lower, upper, windows) {
            None => {
                proof {
                    assert forall|at: int| !stands_at_fold(haystack@, needle@, at) by {
                        if from <= at <= last {
                            assert(windows@[at - from] == haystack@[at]);
                            assert(haystack@.subrange(at, at + needle@.len())[0] == haystack@[at]);
                        }
                    }
                }
                return false;
            },
            Some(p) => {
                let at: usize = from + p;
                if eq_ascii_ci(&haystack[at..at + needle.len()], needle) {
                    assert(stands_at_fold(haystack@, needle@, at as int));
                    return true;
                }
                proof {
                    assert forall|k: int| 0 <= k < at + 1 implies !stands_at_fold(
                        haystack@,
                        needle@,
                        k,
                    ) by {
                        if from <= k < at {
                            assert(windows@[k - from] == haystack@[k]);
                            assert(haystack@.subrange(k, k + needle@.len())[0] == haystack@[k]);
                        }
                    }
                }
                from = at + 1;
            },
        }
    }
    false
}

/// Words that differ in the case of ASCII letters alone stand in the same texts, begin
/// the same texts and equal the same texts.
pub proof fn lemma_case_does_not_matter(hay: Seq<u8>, a: Seq<u8>, b: Seq<u8>)
    requires
        same_fold(a, b),
    ensures
        contains_fold(hay, a) == contains_fold(hay, b),
        has_prefix_fold(hay, a) == has_prefix_fold(hay, b),
        same_fold(hay, a) == same_fold(hay, b),
{
    lemma_same_fold_swap(a, b);
    assert forall|at: int| stands_at_fold(hay, a, at) == stands_at_fold(hay, b, at) by {
        lemma_same_fold_through(hay.subrange(at, at + a.len()), a, b);
        lemma_same_fold_through(hay.subrange(at, at + a.len()), b, a);
    }
    if contains_fold(hay, a) {
        let at = choose|at: int| stands_at_fold(hay, a, at);
        assert(stands_at_fold(hay, b, at));
    }
    if contains_fold(hay, b) {
        let at = choose|at: int| stands_at_fold(hay, b, at);
        assert(stands_at_fold(hay, a, at));
    }
    lemma_same_fold_through(hay.take(a.len() as int), a, b);
    lemma_same_fold_through(hay.take(a.len() as int), b, a);
    lemma_same_fold_through(hay, a, b);
    lemma_same_fold_through(hay, b, a);
}

proof fn lemma_same_fold_swap(a: Seq<u8>, b: Seq<u8>)
    requires
        same_fold(a, b),
    ensures
        same_fold(b, a),
{
    assert forall|i: int| 0 <= i < b.len() implies fold(#[trigger] b[i]) == fold(a[i]) by {
        assert(fold(a[i]) == fold(b[i]));
    }
}

proof fn lemma_same_fold_through(a: Seq<u8>, b: Seq<u8>, c: Seq<u8>)
    requires
        same_fold(b, c),
    ensures
        same_fold(a, b) ==> same_fold(a, c),
{
    if same_fold(a, b) {
        assert forall|i: int| 0 <= i < a.len() implies fold(#[trigger] a[i]) == fold(c[i]) by {
            assert(fold(b[i]) == fold(c[i]));
        }
    }
}

/// The decimal digits of a number, without leading zeros.
pub open spec fn decimal(n: nat) -> Seq<char>
    decreases n,
{
    let digit = ((n % 10) + 0x30) as char;
    if n < 10 {
        seq![digit]
    } else {
        decimal(n / 10).push(digit)
    }
}

/// `String::push` puts a character at the end of a string.
pub assume_specification[ String::push ](s: &mut String, c: char)
    ensures
        final(s)@ == old(s)@.push(c),
;

/// The characters of a text.
pub(crate) fn to_chars(text: &str) -> (out: Vec<char>)
    ensures
        out@ == text@,
{
    let mut chars: Vec<char> = Vec::new();
    for c in it: text.chars()
        invariant
            it.seq() == text@,
            chars@ == text@.take(it.index() as int),
    {
        chars.push(c);
        assert(chars@ =~= text@.take(it.index() + 1));
    }
    assert(text@.take(text@.len() as int) =~= text@);
    chars
}

/// The text of some characters.
pub(crate) fn to_text(chars: &[char]) -> (out: String)
    ensures
        out@ == chars@,
{
    let mut text = String::new();
    let mut i: usize = 0;
    assert(text@ =~= chars@.take(0));
    while i < chars.len()
        invariant
            i <= chars@.len(),
            text@ == chars@.take(i as int),
        decreases chars@.len() - i,
    {
        text.push(chars[i]);
        i = i + 1;
        assert(text@ =~= chars@.take(i as int));
    }
    assert(chars@.take(i as int) =~= chars@);
    text
}

fn digit_char(d: usize) -> (out: char)
    requires
        d < 10,
    ensures
        out == (d + 0x30) as char,
{
    ((d as u8) + 0x30) as char
}

/// Writes the decimal digits of a number at the end of a text.
fn push_decimal(text: &mut String, n: usize)
    ensures
        final(text)@ == old(text)@ + decimal(n as nat),
    decreases n,
{
    let ghost before = text@;
    if n >= 10 {
        push_decimal(text, n / 10);
        let ghost middle = text@;
        text.push(digit_char(n % 10));
        assert(text@ =~= before + decimal(n as nat));
    } else {
        text.push(digit_char(n));
        assert(text@ =~= before + decimal(n as nat));
    }
}

/// The label of an item of an array: its number in brackets.
pub open spec fn bracketed(n: nat) -> Seq<char> {
    seq!['['] + decimal(n) + seq![']']
}

/// The label of item `n` of an array.
pub(crate) fn item_label(n: usize) -> (out: String)
    ensures
        out@ == bracketed(n as nat),
{
    let mut text = String::new();
    text.push('[');
    push_decimal(&mut text, n);
    text.push(']');
    assert(text@ =~= bracketed(n as nat));
    text
}

/// The character is a decimal digit.
pub open spec fn is_digit(c: char) -> bool {
    '0' <= c <= '9'
}

/// The number that decimal digits write.
pub open spec fn digits_value(digits: Seq<char>) -> int
    decreases digits.len(),
{
    if digits.len() == 0 {
        0
    } else {
        10 * digits_value(digits.drop_last()) + (digits.last() as int - 0x30)
    }
}

/// The digits of a number that may have a plus sign.
pub open spec fn unsigned(text: Seq<char>) -> Seq<char> {
    if text.len() > 0 && text[0] == '+' {
        text.skip(1)
    } else {
        text
    }
}

/// The position that a text writes: decimal digits, perhaps behind a plus sign, for a
/// number that a position can be.
pub open spec fn position_of(text: Seq<char>) -> Option<int> {
    let digits = unsigned(text);
    if digits.len() > 0 && (forall|i: int| 0 <= i < digits.len() ==> is_digit(#[trigger] digits[i]))
        && digits_value(digits) <= usize::MAX {
        Some(digits_value(digits))
    } else {
        None
    }
}

/// Digits that are cut short write no greater number.
pub(crate) proof fn lemma_digits_grow(digits: Seq<char>, k: int)
    requires
        0 <= k <= digits.len(),
        forall|i: int| 0 <= i < digits.len() ==> is_digit(#[trigger] digits[i]),
    ensures
        0 <= digits_value(digits.take(k)) <= digits_value(digits),
    decreases digits.len(),
{
    if k == digits.len() {
        assert(digits.take(k) =~= digits);
        if k > 0 {
            lemma_digits_grow(digits.drop_last(), k - 1);
        }
    } else {
        assert(digits.drop_last().take(k) =~= digits.take(k));
        lemma_digits_grow(digits.drop_last(), k);
    }
}

/// Reads a position.
pub(crate) fn parse_position(text: &str) -> (out: Option<usize>)
    ensures
        match out {
            Some(n) => position_of(text@) == Some(n as int),
            None => position_of(text@) is None,
        },
{
    let chars: Vec<char> = to_chars(text);
    let start: usize = if chars.len() > 0 && chars[0] == '+' {
        1
    } else {
        0
    };
    if start == chars.len() {
        return None;
    }
    let ghost digits = unsigned(text@);
    assert(digits =~= text@.skip(start as int));
    let mut n: usize = 0;
    let mut i: usize = start;
    assert(digits.take(0) =~= Seq::empty());
    while i < chars.len()
        invariant
            chars@ == text@,
            digits == unsigned(text@),
            digits == text@.skip(start as int),
            start <= i <= chars@.len(),
            start < chars@.len(),
            n == digits_value(digits.take(i - start)),
            forall|k: int| 0 <= k < i - start ==> is_digit(#[trigger] digits[k]),
        decreases chars@.len() - i,
    {
        let c: char = chars[i];
        assert(c == digits[i - start]);
        if !('0' <= c && c <= '9') {
            return None;
        }
        let d: usize = (c as u32 - 0x30) as usize;
        proof {
            let k = i - start;
            assert(digits.take(k + 1).drop_last() =~= digits.take(k));
            assert(digits.take(k + 1).last() == c);
            if forall|j: int| 0 <= j < digits.len() ==> is_digit(#[trigger] digits[j]) {
                lemma_digits_grow(digits, k + 1);
            }
        }
        match n.checked_mul(10) {
            None => {
                return None;
            },
            Some(m) => match m.checked_add(d) {
                None => {
                    return None;
                },
                Some(sum) => {
                    n = sum;
                },
            },
        }
        i = i + 1;
    }
    assert(digits.take(i - start) =~= digits);
    Some(n)
}

} // verus!
