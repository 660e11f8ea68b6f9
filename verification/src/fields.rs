//! The values of fields by their written form, without parsing the line.
//!
//! A field is found by its key, quoted and followed by a colon. What stands before
//! it must be the brace or the comma that precedes a key, which rules out part of
//! the text that merely looks like a field. Nesting and strings are not followed:
//! this is the fast first look of a filter.

use vstd::prelude::*;
use vstd::utf8::encode_utf8;

use crate::bytes::{CLOSE_BRACE, COLON, COMMA, OPEN_BRACE, QUOTE, SPACE, TAB};
use crate::scan::{is_blank, scan_string_end, skip_blanks, skip_blanks_from, string_end};

verus! {

/// The finder of `memchr::memmem`, which searches for one byte string.
#[verifier::external_type_specification]
#[verifier::external_body]
pub struct ExFinder<'n>(memchr::memmem::Finder<'n>);

/// The byte string that a finder searches for (`Finder::needle`).
pub uninterp spec fn finder_needle(finder: memchr::memmem::Finder<'static>) -> Seq<u8>;

/// `needle` stands at position `p` of `hay`.
pub open spec fn stands_at(hay: Seq<u8>, needle: Seq<u8>, p: int) -> bool {
    0 <= p && p + needle.len() <= hay.len() && hay.subrange(p, p + needle.len()) == needle
}

/// `p` is the first position at or behind `from` at which `needle` stands.
pub open spec fn is_first_at(hay: Seq<u8>, needle: Seq<u8>, from: int, p: int) -> bool {
    &&& from <= p && stands_at(hay, needle, p)
    &&& forall|q: int| from <= q < p ==> !stands_at(hay, needle, q)
}

/// The first position at or behind `from` at which `needle` stands.
pub open spec fn first_at(hay: Seq<u8>, needle: Seq<u8>, from: int) -> Option<int> {
    if exists|p: int| from <= p && stands_at(hay, needle, p) {
        Some(choose|p: int| is_first_at(hay, needle, from, p))
    } else {
        None
    }
}

/// Builds the finder of `needle` (`Finder::new`, `Finder::into_owned`): it searches
/// for `needle`.
#[verifier::external_body]
pub(crate) fn build_finder(needle: &[u8]) -> (out: memchr::memmem::Finder<'static>)
    ensures
        finder_needle(out) == needle@,
{
    memchr::memmem::Finder::new(needle).into_owned()
}

/// `Finder::find` gives the first position of the haystack at which the finder's
/// byte string stands, and `None` where it stands nowhere.
#[verifier::external_body]
fn find(finder: &memchr::memmem::Finder<'static>, haystack: &[u8]) -> (out: Option<usize>)
    ensures
        match out {
            Some(p) => is_first_at(haystack@, finder_needle(*finder), 0, p as int),
            None => forall|p: int| !stands_at(haystack@, finder_needle(*finder), p),
        },
{
    finder.find(haystack)
}

/// Where a byte string stands at all, there is a first place.
proof fn lemma_first_exists(hay: Seq<u8>, needle: Seq<u8>, from: int, p: int)
    requires
        from <= p,
        stands_at(hay, needle, p),
    ensures
        exists|q: int| is_first_at(hay, needle, from, q),
    decreases p - from,
{
    if stands_at(hay, needle, from) {
        assert(is_first_at(hay, needle, from, from));
    } else {
        let next = from + 1;
        lemma_first_exists(hay, needle, next, p);
        let q = choose|q: int| is_first_at(hay, needle, next, q);
        assert(is_first_at(hay, needle, from, q));
    }
}

/// `first_at` is the first place.
pub proof fn lemma_first_at(hay: Seq<u8>, needle: Seq<u8>, from: int)
    ensures
        first_at(hay, needle, from) matches Some(p) ==> is_first_at(hay, needle, from, p),
{
    if exists|p: int| from <= p && stands_at(hay, needle, p) {
        let p = choose|p: int| from <= p && stands_at(hay, needle, p);
        lemma_first_exists(hay, needle, from, p);
    }
}

proof fn lemma_first_at_is(hay: Seq<u8>, needle: Seq<u8>, from: int, p: int)
    requires
        is_first_at(hay, needle, from, p),
    ensures
        first_at(hay, needle, from) == Some(p),
{
    let q = choose|q: int| is_first_at(hay, needle, from, q);
    assert(from <= p && stands_at(hay, needle, p));
    assert(is_first_at(hay, needle, from, q));
}

/// What stands before position `i`, but for blanks, is a brace or a comma.
pub open spec fn key_may_stand(line: Seq<u8>, i: int) -> bool
    decreases i,
{
    if i <= 0 {
        false
    } else if is_blank(line[i - 1]) {
        key_may_stand(line, i - 1)
    } else {
        line[i - 1] == OPEN_BRACE || line[i - 1] == COMMA
    }
}

/// The byte ends a value that is not a string.
pub open spec fn ends_value(b: u8) -> bool {
    b == COMMA || b == CLOSE_BRACE || is_blank(b)
}

/// Where the value that begins at `i` and is not a string ends.
pub open spec fn bare_end(line: Seq<u8>, i: int) -> int
    decreases line.len() - i,
{
    if i < line.len() && !ends_value(line[i]) {
        bare_end(line, i + 1)
    } else {
        i
    }
}

/// The value that begins at or behind `i`, behind blanks: what stands between the
/// quotes of a string, or else the bytes up to a comma, a brace or a blank. There is
/// none at the end of the line, nor where a string is not closed.
pub open spec fn raw_value(line: Seq<u8>, i: int) -> Option<Seq<u8>> {
    let s = skip_blanks(line, i);
    if s >= line.len() {
        None
    } else if line[s] == QUOTE {
        match string_end(line, s + 1) {
            Some(e) => Some(line.subrange(s + 1, e)),
            None => None,
        }
    } else {
        Some(line.subrange(s, bare_end(line, s)))
    }
}

/// The first field at or behind `from` whose key is written `needle`: its value, and
/// where the search for the next field goes on. Places at which no key may stand are
/// passed over. A field without a value ends the search.
pub open spec fn next_value(line: Seq<u8>, needle: Seq<u8>, from: int) -> Option<(Seq<u8>, int)>
    decreases line.len() - from,
    when needle.len() > 0
{
    match first_at(line, needle, from) {
        None => None,
        Some(p) => {
            let next = p + needle.len();
            if key_may_stand(line, p) {
                match raw_value(line, next) {
                    Some(value) => Some((value, next)),
                    None => None,
                }
            } else {
                proof {
                    lemma_first_at(line, needle, from);
                }
                next_value(line, needle, next)
            }
        },
    }
}

/// A later search goes on behind the place of an earlier one, within the line.
pub proof fn lemma_next_value(line: Seq<u8>, needle: Seq<u8>, from: int)
    requires
        needle.len() > 0,
    ensures
        next_value(line, needle, from) matches Some((_, next)) ==> from < next <= line.len(),
    decreases line.len() - from,
{
    lemma_first_at(line, needle, from);
    if let Some(p) = first_at(line, needle, from) {
        if !key_may_stand(line, p) {
            lemma_next_value(line, needle, p + needle.len());
        }
    }
}

/// The values of all fields at or behind `from` whose key is written `needle`, up to
/// one without a value.
pub open spec fn values_from(line: Seq<u8>, needle: Seq<u8>, from: int) -> Seq<Seq<u8>>
    decreases line.len() - from,
    when needle.len() > 0
{
    match next_value(line, needle, from) {
        None => Seq::empty(),
        Some((value, next)) => {
            proof {
                lemma_next_value(line, needle, from);
            }
            seq![value] + values_from(line, needle, next)
        },
    }
}

/// A field with a value is written at `p`, and the search reaches it: it overlaps no
/// earlier place of the key, and no earlier field is without a value.
pub open spec fn is_field_at(line: Seq<u8>, needle: Seq<u8>, p: int, value: Seq<u8>) -> bool {
    &&& stands_at(line, needle, p)
    &&& key_may_stand(line, p)
    &&& raw_value(line, p + needle.len()) == Some(value)
    &&& forall|q: int|
        0 <= q < p && #[trigger] stands_at(line, needle, q) ==> q + needle.len() <= p && (
        key_may_stand(line, q) ==> raw_value(line, q + needle.len()) is Some)
}

/// No written field is missed: its value is among the values of its key.
pub proof fn lemma_no_field_is_missed(line: Seq<u8>, needle: Seq<u8>, p: int, value: Seq<u8>)
    requires
        needle.len() > 0,
        is_field_at(line, needle, p, value),
    ensures
        values_from(line, needle, 0).contains(value),
{
    lemma_field_is_found(line, needle, 0, p, value);
}

proof fn lemma_field_is_found(
    line: Seq<u8>,
    needle: Seq<u8>,
    from: int,
    p: int,
    value: Seq<u8>,
)
    requires
        needle.len() > 0,
        is_field_at(line, needle, p, value),
        0 <= from <= p,
    ensures
        values_from(line, needle, from).contains(value),
    decreases p - from,
{
    lemma_first_exists(line, needle, from, p);
    lemma_first_at(line, needle, from);
    let q = first_at(line, needle, from)->Some_0;
    assert(is_first_at(line, needle, from, q));
    assert(q <= p);
    let next = q + needle.len();
    let all = values_from(line, needle, from);
    if q == p {
        assert(next_value(line, needle, from) == Some((value, next)));
        assert(all[0] == value);
    } else {
        lemma_field_is_found(line, needle, next, p, value);
        let rest = values_from(line, needle, next);
        let k = choose|k: int| 0 <= k < rest.len() && rest[k] == value;
        if key_may_stand(line, q) {
            let own = raw_value(line, next)->Some_0;
            assert(next_value(line, needle, from) == Some((own, next)));
            assert(all == seq![own] + rest);
            assert(all[k + 1] == value);
        } else {
            assert(next_value(line, needle, from) == next_value(line, needle, next));
            assert(all == rest);
            assert(all[k] == value);
        }
    }
}

/// A key as it is written before its value: quoted, and followed by a colon.
pub open spec fn written_key(key: Seq<char>) -> Seq<u8> {
    seq![QUOTE] + encode_utf8(key) + seq![QUOTE, COLON]
}

/// The value of the first field of a line whose key is written `needle`.
pub open spec fn first_value(line: Seq<u8>, needle: Seq<u8>) -> Option<Seq<u8>> {
    match next_value(line, needle, 0) {
        Some((value, _)) => Some(value),
        None => None,
    }
}

/// The bytes of an optional slice.
pub open spec fn bytes_of(value: Option<&[u8]>) -> Option<Seq<u8>> {
    match value {
        Some(v) => Some(v@),
        None => None,
    }
}

/// The key as it is written before its value.
pub fn field_needle(key: &str) -> (out: Vec<u8>)
    ensures
        out@ == written_key(key@),
{
    let mut needle: Vec<u8> = Vec::new();
    needle.push(QUOTE);
    needle.extend_from_slice(key.as_bytes());
    needle.push(QUOTE);
    needle.push(COLON);
    assert(needle@ =~= written_key(key@));
    needle
}

fn prefix_ok(line: &[u8], at: usize) -> (out: bool)
    requires
        at <= line@.len(),
    ensures
        out == key_may_stand(line@, at as int),
{
    let mut i: usize = at;
    while i > 0
        invariant
            i <= at <= line@.len(),
            key_may_stand(line@, i as int) == key_may_stand(line@, at as int),
        decreases i,
    {
        i = i - 1;
        let b: u8 = line[i];
        if b != SPACE && b != TAB {
            return b == OPEN_BRACE || b == COMMA;
        }
    }
    false
}

fn read_raw_value<'a>(line: &'a [u8], from: usize) -> (out: Option<&'a [u8]>)
    requires
        from <= line@.len(),
    ensures
        bytes_of(out) == raw_value(line@, from as int),
{
    let s: usize = skip_blanks_from(line, from);
    if s >= line.len() {
        return None;
    }
    if line[s] == QUOTE {
        return match scan_string_end(line, s + 1) {
            Some((e, _)) => Some(&line[s + 1..e]),
            None => None,
        };
    }
    let mut e: usize = s;
    while e < line.len() && line[e] != COMMA && line[e] != CLOSE_BRACE && line[e] != SPACE
        && line[e] != TAB
        invariant
            s <= e <= line@.len(),
            bare_end(line@, e as int) == bare_end(line@, s as int),
        decreases line@.len() - e,
    {
        e = e + 1;
    }
    Some(&line[s..e])
}

/// The first position at or behind `from` at which the finder's byte string stands.
pub(crate) fn find_from(
    finder: &memchr::memmem::Finder<'static>,
    line: &[u8],
    from: usize,
) -> (out: Option<usize>)
    requires
        from <= line@.len(),
    ensures
        match out {
            Some(p) => is_first_at(line@, finder_needle(*finder), from as int, p as int),
            None => forall|p: int|
                from <= p ==> !#[trigger] stands_at(line@, finder_needle(*finder), p),
        },
{
    let ghost needle = finder_needle(*finder);
    let rest = &line[from..line.len()];
    let found = find(finder, rest);
    proof {
        assert forall|p: int| from <= p && #[trigger] stands_at(
            line@,
            needle,
            p,
        ) implies stands_at(rest@, needle, p - from) by {
            assert(rest@.subrange(p - from, p - from + needle.len()) =~= line@.subrange(
                p,
                p + needle.len(),
            ));
        }
    }
    match found {
        None => None,
        Some(q) => {
            let p: usize = from + q;
            proof {
                assert(rest@.subrange(q as int, q + needle.len()) =~= line@.subrange(
                    p as int,
                    p + needle.len(),
                ));
                assert forall|k: int| from <= k < p implies !stands_at(line@, needle, k) by {
                    if stands_at(line@, needle, k) {
                        assert(stands_at(rest@, needle, k - from));
                    }
                }
            }
            Some(p)
        },
    }
}

/// The first field at or behind `from` whose key the finder searches for.
fn next_field_value_with<'a>(
    line: &'a [u8],
    needle_len: usize,
    finder: &memchr::memmem::Finder<'static>,
    from: usize,
) -> (out: Option<(&'a [u8], usize)>)
    requires
        needle_len == finder_needle(*finder).len(),
        needle_len > 0,
        from <= line@.len(),
    ensures
        match out {
            Some((value, next)) => next_value(line@, finder_needle(*finder), from as int) == Some(
                (value@, next as int),
            ) && from < next <= line@.len(),
            None => next_value(line@, finder_needle(*finder), from as int) is None,
        },
{
    let ghost needle = finder_needle(*finder);
    let len: usize = line.len();
    let mut at: usize = from;
    loop
        invariant
            len == line@.len(),
            from <= at <= line@.len(),
            needle == finder_needle(*finder),
            needle_len == needle.len(),
            needle_len > 0,
            next_value(line@, needle, at as int) == next_value(line@, needle, from as int),
        decreases line@.len() - at,
    {
        match find_from(finder, line, at) {
            None => {
                proof {
                    assert(first_at(line@, needle, at as int) is None);
                }
                return None;
            },
            Some(p) => {
                assert(p + needle_len <= len);
                let next: usize = p + needle_len;
                proof {
                    lemma_first_at_is(line@, needle, at as int, p as int);
                }
                if prefix_ok(line, p) {
                    return match read_raw_value(line, next) {
                        Some(value) => Some((value, next)),
                        None => None,
                    };
                }
                at = next;
            },
        }
    }
}

/// A field to be taken from many lines: its key is prepared once.
pub struct FieldExtractor {
    needle: Vec<u8>,
    finder: memchr::memmem::Finder<'static>,
}

impl View for FieldExtractor {
    type V = Seq<u8>;

    closed spec fn view(&self) -> Seq<u8> {
        self.needle@
    }
}

impl FieldExtractor {
    #[verifier::type_invariant]
    spec fn well_formed(self) -> bool {
        self.needle@.len() > 0 && finder_needle(self.finder) == self.needle@
    }

    /// Prepares the field `key`.
    pub fn new(key: &str) -> (out: Self)
        ensures
            out@ == written_key(key@),
    {
        let needle: Vec<u8> = field_needle(key);
        let finder = build_finder(needle.as_slice());
        FieldExtractor { needle, finder }
    }

    /// Prepares a field whose key is written `needle`.
    pub(crate) fn from_needle(needle: &[u8]) -> (out: Self)
        requires
            needle@.len() > 0,
        ensures
            out@ == needle@,
    {
        let finder = build_finder(needle);
        let mut copy: Vec<u8> = Vec::new();
        copy.extend_from_slice(needle);
        assert(copy@ =~= needle@);
        FieldExtractor { needle: copy, finder }
    }

    /// The first such field at or behind `from`: its value, and where the search for
    /// the next one goes on.
    pub(crate) fn next_from<'a>(&self, line: &'a [u8], from: usize) -> (out: Option<
        (&'a [u8], usize),
    >)
        requires
            from <= line@.len(),
        ensures
            self@.len() > 0,
            match out {
                Some((value, next)) => next_value(line@, self@, from as int) == Some(
                    (value@, next as int),
                ) && from < next <= line@.len(),
                None => next_value(line@, self@, from as int) is None,
            },
    {
        proof {
            use_type_invariant(self);
        }
        next_field_value_with(line, self.needle.len(), &self.finder, from)
    }

    /// The value of the first such field of a line.
    pub fn extract<'a>(&self, line: &'a [u8]) -> (out: Option<&'a [u8]>)
        ensures
            bytes_of(out) == first_value(line@, self@),
    {
        match self.next_from(line, 0) {
            Some((value, _)) => Some(value),
            None => None,
        }
    }
}

/// The value of the first field `key` of a line: the text of a string, or the bytes
/// of another value.
pub fn extract_field<'a>(line: &'a [u8], key: &str) -> (out: Option<&'a [u8]>)
    ensures
        bytes_of(out) == first_value(line@, written_key(key@)),
{
    let extractor = FieldExtractor::new(key);
    extractor.extract(line)
}

} // verus!
