//! A first look at a line: whether some field with a given key may compare as asked.
//!
//! The look is at the bytes alone. It passes every line in whose value a path with that
//! last key leads to a field that compares as asked, so that only lines that pass need to
//! be parsed.

use vstd::prelude::*;
use vstd::utf8::{encode_utf8, encode_utf8_decode_utf8, is_ascii_chars, is_ascii_chars_encode_utf8};

use crate::bytes::{BACKSLASH, COLON, NINE, QUOTE, ZERO};
use crate::compact::lemma_word_bytes;
use crate::fields::{
    build_finder, find_from, finder_needle, is_field_at, is_first_at, lemma_no_field_is_missed,
    stands_at, values_from, written_key, FieldExtractor,
};
use crate::filter::{reader, token_holds, token_matches, value_holds};
use crate::number::reads_numbers;
use crate::query::Op;
use crate::scan::{read_value, FieldKind, FieldValue, ValueView};
use crate::text::{
    is_digit, lemma_digits_grow, parse_position, position_of, to_text, unsigned,
};
use crate::value::{json_parse, member_value, step, walk, JsonTree, Member};
use crate::written::{
    is_short_integer, is_written, quoted_key, reads_as, skip_white_from, value_behind,
    writes_member,
};

verus! {

/// One of some texts compares with a target as asked.
pub open spec fn some_holds(
    tokens: Seq<Seq<u8>>,
    op: Op,
    target: Seq<char>,
    num: spec_fn(Seq<u8>) -> Option<u64>,
) -> bool {
    exists|i: int| 0 <= i < tokens.len() && token_holds(#[trigger] tokens[i], op, target, num)
}

/// `needle` is a key as it is written before its value, and the key is the position `i`.
pub open spec fn writes_position(needle: Seq<u8>, i: int) -> bool {
    exists|segment: Seq<char>|
        #[trigger] written_key(segment) == needle && position_of(segment) == Some(i)
}

/// `needle` is a key as it is written before its value, and the key is a position.
pub open spec fn is_position_needle(needle: Seq<u8>) -> bool {
    exists|i: int| writes_position(needle, i)
}

/// A value that was read without looking further may compare as asked. The text of an
/// array or an object, and that of a number that is no short integer, may be written in
/// other ways than it is shown.
pub open spec fn value_may_hold(
    value: ValueView,
    op: Op,
    target: Seq<char>,
    num: spec_fn(Seq<u8>) -> Option<u64>,
) -> bool {
    match value.kind {
        FieldKind::Nested => op is Eq || op is Prefix,
        FieldKind::Num => !is_short_integer(value.raw) || token_holds(value.raw, op, target, num),
        _ => token_holds(value.raw, op, target, num),
    }
}

/// At `p` the key of `needle` stands, and the value behind it may compare as asked. White
/// space may stand on both sides of the colon.
pub open spec fn pair_may_hold(
    line: Seq<u8>,
    needle: Seq<u8>,
    p: int,
    op: Op,
    target: Seq<char>,
    num: spec_fn(Seq<u8>) -> Option<u64>,
) -> bool {
    &&& stands_at(line, needle.drop_last(), p)
    &&& value_behind(line, p + needle.len() - 1) matches Some(value) && value_may_hold(
        value,
        op,
        target,
        num,
    )
}

/// The first look at a line passes: a field whose key is written `needle` compares as
/// asked, or may do so; or the bytes cannot tell, because the line escapes something or
/// the key may be a position in an array.
pub open spec fn may_match(
    line: Seq<u8>,
    needle: Seq<u8>,
    op: Op,
    target: Seq<char>,
    num: spec_fn(Seq<u8>) -> Option<u64>,
) -> bool {
    ||| some_holds(values_from(line, needle, 0), op, target, num)
    ||| is_position_needle(needle)
    ||| exists|p: int| pair_may_hold(line, needle, p, op, target, num)
    ||| line.contains(BACKSLASH)
}

fn any_value_matches<F: Fn(&[u8]) -> Option<u64>>(
    field: &FieldExtractor,
    line: &[u8],
    op: Op,
    value: &str,
    numeric: &F,
) -> (out: bool)
    requires
        reads_numbers(*numeric),
        field@.len() > 0,
    ensures
        out == some_holds(values_from(line@, field@, 0), op, value@, reader(*numeric)),
{
    let ghost all = values_from(line@, field@, 0);
    let ghost num = reader(*numeric);
    let ghost mut seen: int = 0;
    let mut from: usize = 0;
    assert(all.skip(0) =~= all);
    loop
        invariant
            reads_numbers(*numeric),
            field@.len() > 0,
            num == reader(*numeric),
            all == values_from(line@, field@, 0),
            from <= line@.len(),
            0 <= seen <= all.len(),
            values_from(line@, field@, from as int) == all.skip(seen),
            forall|i: int| 0 <= i < seen ==> !token_holds(#[trigger] all[i], op, value@, num),
        decreases line@.len() - from,
    {
        match field.next_from(line, from) {
            None => {
                assert(all.skip(seen).len() == 0);
                return false;
            },
            Some((token, next)) => {
                proof {
                    let rest = values_from(line@, field@, next as int);
                    let here = all.skip(seen);
                    assert(here == seq![token@] + rest);
                    assert(here.len() == rest.len() + 1);
                    assert(all[seen] == here[0]);
                    assert(all.skip(seen + 1) =~= here.skip(1));
                    assert(here.skip(1) =~= rest);
                }
                if token_matches(token, op, value, numeric) {
                    return true;
                }
                proof {
                    seen = seen + 1;
                }
                from = next;
            },
        }
    }
}

/// A key is known by how it is written.
pub(crate) proof fn lemma_written_key_is_one(a: Seq<char>, b: Seq<char>)
    requires
        written_key(a) == written_key(b),
    ensures
        a == b,
{
    let x = encode_utf8(a);
    let y = encode_utf8(b);
    assert(written_key(a).len() == x.len() + 3);
    assert(written_key(b).len() == y.len() + 3);
    assert(x =~= written_key(a).subrange(1, x.len() as int + 1));
    assert(y =~= written_key(b).subrange(1, y.len() as int + 1));
    encode_utf8_decode_utf8(a);
    encode_utf8_decode_utf8(b);
}

/// The bytes of a text that writes a position are its characters.
proof fn lemma_position_is_ascii(segment: Seq<char>)
    requires
        position_of(segment) is Some,
    ensures
        is_ascii_chars(segment),
{
    let digits = unsigned(segment);
    assert forall|i: int| 0 <= i < segment.len() implies '\0' <= #[trigger] segment[i]
        <= '\u{7f}' by {
        if segment[0] == '+' {
            if i > 0 {
                assert(digits[i - 1] == segment[i]);
                assert(is_digit(digits[i - 1]));
            }
        } else {
            assert(is_digit(digits[i]));
        }
    }
}

/// The position that a written key is, if it is one.
fn needle_position(needle: &[u8]) -> (out: Option<usize>)
    ensures
        forall|i: int| #[trigger] writes_position(needle@, i) <==> (out matches Some(p) && p == i),
{
    let n: usize = needle.len();
    if n < 3 || needle[0] != QUOTE || needle[n - 2] != QUOTE || needle[n - 1] != COLON {
        proof {
            assert forall|i: int| !#[trigger] writes_position(needle@, i) by {
                if writes_position(needle@, i) {
                    let segment = choose|segment: Seq<char>|
                        #[trigger] written_key(segment) == needle@ && position_of(segment)
                            == Some(i);
                    let w = written_key(segment);
                    assert(w.len() == encode_utf8(segment).len() + 3);
                    assert(w[0] == QUOTE && w[w.len() - 2] == QUOTE && w[w.len() - 1] == COLON);
                }
            }
        }
        return None;
    }
    let mut chars: Vec<char> = Vec::new();
    let mut k: usize = 1;
    while k < n - 2
        invariant
            n == needle@.len(),
            n >= 3,
            1 <= k <= n - 2,
            forall|j: int| 1 <= j < k ==> #[trigger] needle@[j] < 0x80,
            chars@ == Seq::new((k - 1) as nat, |j: int| needle@[j + 1] as char),
        decreases n - k,
    {
        let b: u8 = needle[k];
        if b >= 0x80 {
            proof {
                assert forall|i: int| !#[trigger] writes_position(needle@, i) by {
                    if writes_position(needle@, i) {
                        let segment = choose|segment: Seq<char>|
                            #[trigger] written_key(segment) == needle@ && position_of(segment)
                                == Some(i);
                        lemma_position_is_ascii(segment);
                        is_ascii_chars_encode_utf8(segment);
                        assert(written_key(segment)[k as int] == encode_utf8(segment)[k - 1]);
                        assert(segment[k - 1] as u8 == b);
                        assert('\0' <= segment[k - 1] <= '\u{7f}');
                    }
                }
            }
            return None;
        }
        chars.push(b as char);
        assert(chars@ =~= Seq::new(k as nat, |j: int| needle@[j + 1] as char));
        k = k + 1;
    }
    let text: String = to_text(chars.as_slice());
    proof {
        assert(is_ascii_chars(text@)) by {
            assert forall|i: int| 0 <= i < text@.len() implies '\0' <= #[trigger] text@[i]
                <= '\u{7f}' by {
                assert(text@[i] == chars@[i]);
                assert(chars@[i] == needle@[i + 1] as char);
            }
        }
        is_ascii_chars_encode_utf8(text@);
        assert(written_key(text@) =~= needle@) by {
            assert forall|j: int| 0 <= j < text@.len() implies #[trigger] encode_utf8(text@)[j]
                == needle@[j + 1] by {
                assert(text@[j] == chars@[j]);
                assert(chars@[j] == needle@[j + 1] as char);
                assert(text@[j] as u8 == encode_utf8(text@)[j]);
            }
        }
        assert forall|i: int| #[trigger] writes_position(needle@, i) implies position_of(text@)
            == Some(i) by {
            let segment = choose|segment: Seq<char>|
                #[trigger] written_key(segment) == needle@ && position_of(segment) == Some(i);
            lemma_written_key_is_one(segment, text@);
        }
    }
    parse_position(text.as_str())
}

/// A key to look for in many lines: it is prepared once.
pub(crate) struct Look {
    field: FieldExtractor,
    key: memchr::memmem::Finder<'static>,
    key_len: usize,
    position: bool,
}

impl Look {
    /// The key is written `needle`.
    pub(crate) closed spec fn is_for(self, needle: Seq<u8>) -> bool {
        &&& needle.len() > 0
        &&& self.field@ == needle
        &&& finder_needle(self.key) == needle.drop_last()
        &&& self.key_len == needle.len() - 1
        &&& self.position == is_position_needle(needle)
    }

    /// Prepares a key that is written `needle`.
    pub(crate) fn prepare(needle: &[u8]) -> (out: Self)
        requires
            needle@.len() > 0,
        ensures
            out.is_for(needle@),
    {
        let key_len: usize = needle.len() - 1;
        let quoted: &[u8] = &needle[0..key_len];
        assert(quoted@ =~= needle@.drop_last());
        let position = match needle_position(needle) {
            Some(p) => {
                assert(writes_position(needle@, p as int));
                true
            },
            None => false,
        };
        Look {
            field: FieldExtractor::from_needle(needle),
            key: build_finder(quoted),
            key_len,
            position,
        }
    }

    /// Looks at a line.
    pub(crate) fn passes<F: Fn(&[u8]) -> Option<u64>>(
        &self,
        line: &[u8],
        op: Op,
        value: &str,
        numeric: &F,
        Ghost(needle): Ghost<Seq<u8>>,
    ) -> (out: bool)
        requires
            reads_numbers(*numeric),
            self.is_for(needle),
        ensures
            out == may_match(line@, needle, op, value@, reader(*numeric)),
    {
        if self.position || any_value_matches(&self.field, line, op, value, numeric) {
            return true;
        }
        if self.some_pair_may_hold(line, op, value, numeric, Ghost(needle)) {
            return true;
        }
        match memchr::memchr(BACKSLASH, line) {
            Some(p) => {
                assert(line@[p as int] == BACKSLASH);
                true
            },
            None => false,
        }
    }

    /// Whether one of the places of the key has a value that may compare as asked.
    fn some_pair_may_hold<F: Fn(&[u8]) -> Option<u64>>(
        &self,
        line: &[u8],
        op: Op,
        value: &str,
        numeric: &F,
        Ghost(needle): Ghost<Seq<u8>>,
    ) -> (out: bool)
        requires
            reads_numbers(*numeric),
            self.is_for(needle),
        ensures
            out == exists|p: int|
                pair_may_hold(line@, needle, p, op, value@, reader(*numeric)),
    {
        let ghost num = reader(*numeric);
        let len: usize = line.len();
        let mut from: usize = 0;
        while from <= len
            invariant
                reads_numbers(*numeric),
                num == reader(*numeric),
                self.is_for(needle),
                len == line@.len(),
                from <= len + 1,
                forall|p: int| p < from ==> !pair_may_hold(line@, needle, p, op, value@, num),
            decreases len + 1 - from,
        {
            match find_from(&self.key, line, from) {
                None => {
                    proof {
                        assert forall|p: int| !pair_may_hold(
                            line@,
                            needle,
                            p,
                            op,
                            value@,
                            num,
                        ) by {
                            if from <= p {
                                assert(!stands_at(line@, finder_needle(self.key), p));
                            }
                        }
                    }
                    return false;
                },
                Some(p) => {
                    assert(p + self.key_len <= len);
                    let q: usize = p + self.key_len;
                    let found = match read_behind(line, q) {
                        Some(v) => may_hold(v, op, value, numeric),
                        None => false,
                    };
                    assert(found == pair_may_hold(line@, needle, p as int, op, value@, num));
                    if found {
                        return true;
                    }
                    proof {
                        assert forall|k: int| k < p + 1 implies !pair_may_hold(
                            line@,
                            needle,
                            k,
                            op,
                            value@,
                            num,
                        ) by {
                            if from <= k < p {
                                assert(is_first_at(
                                    line@,
                                    finder_needle(self.key),
                                    from as int,
                                    p as int,
                                ));
                                assert(!stands_at(line@, finder_needle(self.key), k));
                            }
                        }
                    }
                    if p == len {
                        proof {
                            assert forall|k: int| !pair_may_hold(
                                line@,
                                needle,
                                k,
                                op,
                                value@,
                                num,
                            ) by {}
                        }
                        return false;
                    }
                    from = p + 1;
                },
            }
        }
        proof {
            assert forall|k: int| !pair_may_hold(line@, needle, k, op, value@, num) by {}
        }
        false
    }
}

/// Reads the value behind a key that ends before `from`.
fn read_behind<'a>(line: &'a [u8], from: usize) -> (out: Option<FieldValue<'a>>)
    requires
        from <= line@.len(),
    ensures
        match out {
            Some(v) => value_behind(line@, from as int) == Some(v@),
            None => value_behind(line@, from as int) is None,
        },
{
    let colon: usize = skip_white_from(line, from);
    if colon >= line.len() || line[colon] != COLON {
        return None;
    }
    let start: usize = skip_white_from(line, colon + 1);
    read_value(line, start)
}

/// Whether a value that was read may compare as asked.
fn may_hold<F: Fn(&[u8]) -> Option<u64>>(
    value: FieldValue<'_>,
    op: Op,
    target: &str,
    numeric: &F,
) -> (out: bool)
    requires
        reads_numbers(*numeric),
    ensures
        out == value_may_hold(value@, op, target@, reader(*numeric)),
{
    match value.kind {
        FieldKind::Nested => match op {
            Op::Eq => true,
            Op::Prefix => true,
            _ => false,
        },
        FieldKind::Num => !short_integer(value.raw) || token_matches(
            value.raw,
            op,
            target,
            numeric,
        ),
        _ => token_matches(value.raw, op, target, numeric),
    }
}

fn short_integer(text: &[u8]) -> (out: bool)
    ensures
        out == is_short_integer(text@),
{
    if text.len() == 0 || text.len() > 18 {
        return false;
    }
    let mut i: usize = 0;
    while i < text.len()
        invariant
            i <= text@.len(),
            0 < text@.len() <= 18,
            forall|k: int| 0 <= k < i ==> ZERO <= #[trigger] text@[k] <= NINE,
        decreases text@.len() - i,
    {
        if text[i] < ZERO || text[i] > NINE {
            return false;
        }
        i = i + 1;
    }
    true
}

/// Whether some field of a line whose key is written `needle` may compare with a value as
/// asked: a look at the bytes, without parsing them, that no line fails in which a path
/// with that last key leads to such a field.
pub fn field_value_matches<F: Fn(&[u8]) -> Option<u64>>(
    line: &[u8],
    needle: &[u8],
    op: Op,
    value: &str,
    numeric: &F,
) -> (out: bool)
    requires
        reads_numbers(*numeric),
        needle@.len() > 0,
    ensures
        out == may_match(line@, needle@, op, value@, reader(*numeric)),
{
    let look = Look::prepare(needle);
    look.passes(line, op, value, numeric, Ghost(needle@))
}

/// The first look at a line passes wherever a field is written with a value that compares
/// as asked, whichever of the fields of its key it is.
pub proof fn lemma_first_look_passes(
    line: Seq<u8>,
    needle: Seq<u8>,
    p: int,
    value: Seq<u8>,
    op: Op,
    target: Seq<char>,
    num: spec_fn(Seq<u8>) -> Option<u64>,
)
    requires
        needle.len() > 0,
        is_field_at(line, needle, p, value),
        token_holds(value, op, target, num),
    ensures
        may_match(line, needle, op, target, num),
{
    lemma_no_field_is_missed(line, needle, p, value);
}

/// Where a value compares as asked, what was read of it may do so.
proof fn lemma_read_may_hold(
    value: ValueView,
    tree: JsonTree,
    op: Op,
    target: Seq<char>,
    num: spec_fn(Seq<u8>) -> Option<u64>,
)
    requires
        reads_as(value, tree),
        value_holds(tree, op, target, num),
    ensures
        value_may_hold(value, op, target, num),
{
    lemma_word_bytes();
}

/// Where the member stands that `member_value` gives.
pub(crate) proof fn lemma_member_at(fields: Seq<Member>, key: Seq<char>, from: int) -> (k: int)
    requires
        0 <= from,
        member_value(fields, key, from) is Some,
    ensures
        from <= k < fields.len(),
        fields[k].key == key,
        member_value(fields, key, from) == Some(fields[k].value),
        forall|i: int| from <= i < k ==> (#[trigger] fields[i]).key != key,
    decreases fields.len() - from,
{
    if fields[from].key == key {
        from
    } else {
        let k = lemma_member_at(fields, key, from + 1);
        k
    }
}

/// The first look has no false negatives: where a path leads to a value that compares as
/// asked, the line passes the look for the last key of the path.
pub proof fn lemma_first_look_misses_nothing(
    line: Seq<u8>,
    tree: JsonTree,
    path: Seq<Seq<char>>,
    inner: JsonTree,
    op: Op,
    target: Seq<char>,
    num: spec_fn(Seq<u8>) -> Option<u64>,
)
    requires
        json_parse(line) == Some(tree),
        path.len() > 0,
        walk(tree, path) == Some(inner),
        value_holds(inner, op, target, num),
    ensures
        may_match(line, written_key(path.last()), op, target, num),
{
    if !line.contains(BACKSLASH) {
        lemma_walk_is_found(line, tree, path, inner, op, target, num);
    }
}

proof fn lemma_walk_is_found(
    line: Seq<u8>,
    tree: JsonTree,
    path: Seq<Seq<char>>,
    inner: JsonTree,
    op: Op,
    target: Seq<char>,
    num: spec_fn(Seq<u8>) -> Option<u64>,
)
    requires
        is_written(line, tree),
        path.len() > 0,
        walk(tree, path) == Some(inner),
        value_holds(inner, op, target, num),
    ensures
        is_position_needle(written_key(path.last())) || exists|p: int|
            pair_may_hold(line, written_key(path.last()), p, op, target, num),
    decreases path.len(),
{
    let next = step(tree, path[0])->Some_0;
    let rest = path.skip(1);
    match tree {
        JsonTree::Obj(fields) => {
            let k = lemma_member_at(fields, path[0], 0);
            assert(fields[k].value == next);
            assert(is_written(line, fields[k].value));
            if path.len() == 1 {
                assert(walk(next, rest) == Some(next));
                let member = fields[k];
                assert(exists|p: int| writes_member(line, p, fields[k]));
                let p = choose|p: int| writes_member(line, p, member);
                let needle = written_key(path[0]);
                assert(needle.drop_last() =~= quoted_key(path[0]));
                let value = value_behind(line, p + quoted_key(path[0]).len())->Some_0;
                lemma_read_may_hold(value, inner, op, target, num);
                assert(pair_may_hold(line, needle, p, op, target, num));
            }
        },
        JsonTree::Arr(items) => {
            let i = position_of(path[0])->Some_0;
            lemma_digits_grow(unsigned(path[0]), 0);
            assert(items[i] == next);
            if path.len() == 1 {
                assert(writes_position(written_key(path[0]), i));
            }
        },
        _ => {},
    }
    if path.len() > 1 {
        assert(rest.last() == path.last());
        lemma_walk_is_found(line, next, rest, inner, op, target, num);
    }
}

} // verus!
