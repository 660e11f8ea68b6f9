//! What the words of a query say.

use vstd::prelude::*;
use vstd::utf8::encode_utf8;

use crate::conditions::{lemma_letters, same_letters};
use crate::query::{
    clause_of, clauses_of, find_from, is_parted_at, is_white, joined_keys,
    lemma_find_from, lemma_runs, lemma_split_from, named_like, normalized, parts, printed, runs,
    sign_index, signs, split_from, stands_in, ClauseView, Op, Separator,
};

verus! {

/// How an operator is written.
pub open spec fn written_sign(op: Op) -> Seq<char> {
    match op {
        Op::Eq => seq!['='],
        Op::Prefix => seq!['='],
        Op::Gt => seq!['>'],
        Op::GtEq => seq!['>', '='],
        Op::Lt => seq!['<'],
        Op::LtEq => seq!['<', '='],
    }
}

/// Splitting at a separator is splitting what stands on either side of it.
pub proof fn lemma_runs_at_separator(a: Seq<char>, c: char, b: Seq<char>, separator: Separator)
    requires
        parts(separator, c),
    ensures
        runs(a.push(c) + b, separator) == runs(a, separator) + runs(b, separator),
    decreases b.len(),
{
    let all = a.push(c) + b;
    if b.len() == 0 {
        assert(all =~= a.push(c));
        assert(all.drop_last() =~= a);
        assert(runs(a, separator) + runs(b, separator) =~= runs(a, separator));
    } else {
        let init = b.drop_last();
        let d = b.last();
        lemma_runs_at_separator(a, c, init, separator);
        lemma_runs(init, separator);
        assert(all.drop_last() =~= a.push(c) + init);
        assert(all.last() == d);
        if init.len() > 0 {
            assert((a.push(c) + init).last() == init.last());
        } else {
            assert((a.push(c) + init).last() == c);
        }
        assert(runs(all, separator) =~= runs(a, separator) + runs(b, separator));
    }
}

/// What holds no separator is one run.
proof fn lemma_one_run(text: Seq<char>, separator: Separator)
    requires
        text.len() > 0,
        forall|i: int| 0 <= i < text.len() ==> !parts(separator, #[trigger] text[i]),
    ensures
        runs(text, separator) == seq![text],
    decreases text.len(),
{
    let init = text.drop_last();
    assert(!parts(separator, text[text.len() - 1]));
    if init.len() > 0 {
        assert forall|i: int| 0 <= i < init.len() implies !parts(separator, #[trigger] init[i]) by {
            assert(init[i] == text[i]);
        }
        lemma_one_run(init, separator);
        assert(!parts(separator, init[init.len() - 1]));
        assert(init.push(text.last()) =~= text);
        assert(runs(text, separator) =~= seq![text]);
    } else {
        assert(runs(init, separator) =~= Seq::empty());
        assert(text =~= seq![text.last()]);
        assert(runs(text, separator) =~= seq![text]);
    }
}

/// The keys of a path are what stands between its full stops; empty keys do not count.
pub proof fn lemma_keys_between_stops(a: Seq<char>, key: Seq<char>)
    requires
        forall|i: int| 0 <= i < key.len() ==> #[trigger] key[i] != '.',
    ensures
        runs(Seq::empty(), Separator::Stop).len() == 0,
        key.len() > 0 ==> runs(key, Separator::Stop) == seq![key],
        runs(a.push('.') + key, Separator::Stop) == if key.len() > 0 {
            runs(a, Separator::Stop).push(key)
        } else {
            runs(a, Separator::Stop)
        },
{
    lemma_runs_at_separator(a, '.', key, Separator::Stop);
    if key.len() > 0 {
        lemma_one_run(key, Separator::Stop);
        assert(runs(a, Separator::Stop) + seq![key] =~= runs(a, Separator::Stop).push(key));
    } else {
        assert(key =~= Seq::empty());
        assert(runs(a, Separator::Stop) + runs(key, Separator::Stop) =~= runs(
            a,
            Separator::Stop,
        ));
    }
}

/// A query of nothing has no condition; a word without white space is one; and a query is
/// the queries on either side of a white space in it, in turn.
pub proof fn lemma_query_of_words(a: Seq<char>, c: char, b: Seq<char>, word: Seq<char>)
    requires
        is_white(c),
        word.len() > 0,
        forall|i: int| 0 <= i < word.len() ==> !is_white(#[trigger] word[i]),
    ensures
        clauses_of(Seq::empty()).len() == 0,
        clauses_of(word) == seq![clause_of(word)],
        clauses_of(a.push(c) + b) == clauses_of(a) + clauses_of(b),
{
    lemma_runs_at_separator(a, c, b, Separator::White);
    assert forall|i: int| 0 <= i < word.len() implies !parts(
        Separator::White,
        #[trigger] word[i],
    ) by {
        assert(!is_white(word[i]));
    }
    lemma_one_run(word, Separator::White);
    assert(clauses_of(word) =~= seq![clause_of(word)]);
    assert(clauses_of(a.push(c) + b) =~= clauses_of(a) + clauses_of(b));
}

/// A word in which no sign of comparison stands is looked for as it is.
pub proof fn lemma_word_without_sign(word: Seq<char>)
    requires
        forall|i: int|
            0 <= i < word.len() ==> #[trigger] word[i] != '=' && word[i] != '<' && word[i] != '>',
    ensures
        clause_of(word) == ClauseView::Bare(word),
{
    assert forall|k: int| 0 <= k < signs().len() implies find_from(
        word,
        (#[trigger] signs()[k]).0,
        0,
    ) is None by {
        let sign = signs()[k].0;
        assert forall|q: int| 0 <= q implies !#[trigger] stands_in(word, sign, q) by {
            if stands_in(word, sign, q) {
                assert(word.subrange(q, q + sign.len())[0] == word[q]);
            }
        }
        lemma_find_from(word, sign, 0, None);
    }
    lemma_no_split(word, 0);
}

proof fn lemma_no_split(word: Seq<char>, k: int)
    requires
        0 <= k <= signs().len(),
        forall|j: int|
            0 <= j < signs().len() ==> find_from(word, (#[trigger] signs()[j]).0, 0) is None,
    ensures
        split_from(word, k) is None,
    decreases signs().len() - k,
{
    if k < signs().len() {
        assert(find_from(word, signs()[k].0, 0) is None);
        lemma_no_split(word, k + 1);
    }
}

/// What is looked for as a word is always the whole word; and a condition on a field is
/// made of the pieces of its word: the keys before the sign, the sign, and the value
/// behind it, with an asterisk at its end for a beginning alone.
pub proof fn lemma_clause_is_made_of_its_word(word: Seq<char>)
    ensures
        match clause_of(word) {
            ClauseView::Bare(text) => text == word,
            ClauseView::Field { path, op, value } => {
                &&& path.len() > 0
                &&& exists|p: int|
                    {
                        &&& 0 <= p <= word.len()
                        &&& path == #[trigger] runs(word.take(p), Separator::Stop)
                        &&& word == word.take(p) + written_sign(op) + value + if op is Prefix {
                            seq!['*']
                        } else {
                            Seq::empty()
                        }
                    }
                &&& op is Eq && value.len() > 0 ==> value.last() != '*'
            },
        },
{
    lemma_split_pieces(word, 0);
    if let Some((keys, op, value)) = split_from(word, 0) {
        let p = keys.len() as int;
        let path = runs(keys, Separator::Stop);
        if path.len() > 0 {
            assert(word.take(p) =~= keys);
            assert(path == runs(word.take(p), Separator::Stop));
            if op is Eq && value.len() > 0 && value.last() == '*' {
                assert(word =~= word.take(p) + written_sign(Op::Prefix) + value.drop_last()
                    + seq!['*']);
            } else {
                assert(word =~= word.take(p) + written_sign(op) + value + Seq::<char>::empty());
            }
        }
    }
}

proof fn lemma_split_pieces(word: Seq<char>, k: int)
    requires
        0 <= k <= signs().len(),
    ensures
        split_from(word, k) matches Some((keys, op, value)) ==> word == keys + written_sign(op)
            + value && !(op is Prefix),
    decreases signs().len() - k,
{
    if k < signs().len() {
        let sign = signs()[k].0;
        lemma_find_stands(word, sign, 0);
        assert(sign =~= written_sign(signs()[k].1));
        match find_from(word, sign, 0) {
            Some(p) => {
                assert(word.subrange(p, p + sign.len()) == sign);
                assert(word =~= word.take(p) + sign + word.skip(p + sign.len()));
            },
            None => {
                lemma_split_pieces(word, k + 1);
            },
        }
    }
}

proof fn lemma_find_stands(text: Seq<char>, pattern: Seq<char>, from: int)
    requires
        0 <= from,
    ensures
        find_from(text, pattern, from) matches Some(p) ==> from <= p && stands_in(
            text,
            pattern,
            p,
        ),
    decreases text.len() + 1 - from,
{
    if from + pattern.len() <= text.len() && text.subrange(from, from + pattern.len())
        != pattern {
        lemma_find_stands(text, pattern, from + 1);
    }
}

/// A condition is printed with the sign of its operator.
pub proof fn lemma_printed_sign(path: Seq<Seq<char>>, op: Op, value: Seq<char>)
    ensures
        printed(path, op, value) == joined_keys(path) + written_sign(op) + value + if op is Prefix {
            seq!['*']
        } else {
            Seq::empty()
        },
{
    assert(signs()[sign_index(op)].0 =~= written_sign(op));
}

/// A sign without a key before it makes no condition on a field.
pub proof fn lemma_sign_without_key(word: Seq<char>, op: Op, p: int)
    requires
        is_parted_at(word, op, p),
        forall|i: int| 0 <= i < p ==> #[trigger] word[i] == '.',
    ensures
        clause_of(word) == ClauseView::Bare(word),
{
    lemma_split_from(word, op, p, 0);
    let keys = word.take(p);
    assert forall|i: int| 0 <= i < keys.len() implies #[trigger] keys[i] == '.' by {
        assert(keys[i] == word[i]);
    }
    lemma_stops_alone(keys);
}

proof fn lemma_stops_alone(keys: Seq<char>)
    requires
        forall|i: int| 0 <= i < keys.len() ==> #[trigger] keys[i] == '.',
    ensures
        runs(keys, Separator::Stop).len() == 0,
    decreases keys.len(),
{
    if keys.len() > 0 {
        let init = keys.drop_last();
        assert(keys[keys.len() - 1] == '.');
        assert forall|i: int| 0 <= i < init.len() implies #[trigger] init[i] == '.' by {
            assert(init[i] == keys[i]);
        }
        lemma_stops_alone(init);
    }
}

/// Writing the keys of conditions as the columns are written: a key becomes the name of
/// the first column that is the same but for the case of ASCII letters, and stays where
/// there is none; the operator and the value stay, and so do words and longer paths.
pub proof fn lemma_normalized_keys(clause: ClauseView, names: Seq<Seq<char>>, k: int)
    ensures
        clause matches ClauseView::Bare(_) ==> normalized(clause, names) == clause,
        clause matches ClauseView::Field { path, op, value } ==> {
            &&& path.len() != 1 ==> normalized(clause, names) == clause
            &&& path.len() == 1 && (forall|i: int|
                0 <= i < names.len() ==> !same_letters(
                    encode_utf8(#[trigger] names[i]),
                    encode_utf8(path[0]),
                )) ==> normalized(clause, names) == clause
            &&& path.len() == 1 && 0 <= k < names.len() && same_letters(
                encode_utf8(names[k]),
                encode_utf8(path[0]),
            ) && (forall|i: int|
                0 <= i < k ==> !same_letters(
                    encode_utf8(#[trigger] names[i]),
                    encode_utf8(path[0]),
                )) ==> normalized(clause, names) == (ClauseView::Field {
                path: seq![names[k]],
                op,
                value,
            })
        },
{
    if let ClauseView::Field { path, op, value } = clause {
        if path.len() == 1 {
            if forall|i: int|
                0 <= i < names.len() ==> !same_letters(
                    encode_utf8(#[trigger] names[i]),
                    encode_utf8(path[0]),
                ) {
                lemma_named_none(names, path[0], 0);
            }
            if 0 <= k < names.len() && same_letters(
                encode_utf8(names[k]),
                encode_utf8(path[0]),
            ) && (forall|i: int|
                0 <= i < k ==> !same_letters(
                    encode_utf8(#[trigger] names[i]),
                    encode_utf8(path[0]),
                )) {
                lemma_named_first(names, path[0], 0, k);
            }
        }
    }
}

proof fn lemma_named_none(names: Seq<Seq<char>>, name: Seq<char>, from: int)
    requires
        0 <= from,
        forall|i: int|
            0 <= i < names.len() ==> !same_letters(
                encode_utf8(#[trigger] names[i]),
                encode_utf8(name),
            ),
    ensures
        named_like(names, name, from) is None,
    decreases names.len() - from,
{
    if from < names.len() {
        lemma_letters(encode_utf8(names[from]), encode_utf8(name));
        lemma_named_none(names, name, from + 1);
    }
}

proof fn lemma_named_first(names: Seq<Seq<char>>, name: Seq<char>, from: int, k: int)
    requires
        0 <= from <= k < names.len(),
        same_letters(encode_utf8(names[k]), encode_utf8(name)),
        forall|i: int|
            0 <= i < k ==> !same_letters(encode_utf8(#[trigger] names[i]), encode_utf8(name)),
    ensures
        named_like(names, name, from) == Some(names[k]),
    decreases k - from,
{
    lemma_letters(encode_utf8(names[from]), encode_utf8(name));
    if from < k {
        lemma_named_first(names, name, from + 1, k);
    }
}

/// The signs that are looked for in a word before that of an operator.
pub open spec fn signs_before(op: Op) -> Seq<Seq<char>> {
    match op {
        Op::GtEq => seq![],
        Op::LtEq => seq![seq!['>', '=']],
        Op::Gt => seq![seq!['>', '='], seq!['<', '=']],
        Op::Lt => seq![seq!['>', '='], seq!['<', '='], seq!['>']],
        _ => seq![seq!['>', '='], seq!['<', '='], seq!['>'], seq!['<']],
    }
}

/// A word with several signs is parted at the first place of the sign that is looked for
/// first: `>=`, then `<=`, then `>`, then `<`, and `=` last. Before it stand the keys, and
/// behind it the value, of which an asterisk at the end behind `=` asks for a beginning.
pub proof fn lemma_sign_that_parts(word: Seq<char>, op: Op, p: int)
    requires
        !(op is Prefix),
        stands_in(word, written_sign(op), p),
        forall|q: int| 0 <= q < p ==> !#[trigger] stands_in(word, written_sign(op), q),
        forall|k: int, q: int|
            0 <= k < signs_before(op).len() ==> !#[trigger] stands_in(
                word,
                signs_before(op)[k],
                q,
            ),
        runs(word.take(p), Separator::Stop).len() > 0,
    ensures
        ({
            let path = runs(word.take(p), Separator::Stop);
            let value = word.skip(p + written_sign(op).len());
            clause_of(word) == if op is Eq && value.len() > 0 && value.last() == '*' {
                ClauseView::Field { path, op: Op::Prefix, value: value.drop_last() }
            } else {
                ClauseView::Field { path, op, value }
            }
        }),
{
    let sign = signs()[sign_index(op)].0;
    assert(sign =~= written_sign(op));
    assert forall|k: int, q: int| 0 <= k < sign_index(op) implies !#[trigger] stands_in(
        word,
        signs()[k].0,
        q,
    ) by {
        assert(signs()[k].0 =~= signs_before(op)[k]);
        assert(!stands_in(word, signs_before(op)[k], q));
    }
    lemma_split_from(word, op, p, 0);
}

/// The code points of white space.
pub open spec fn white_points() -> Seq<int> {
    seq![
        9,
        10,
        11,
        12,
        13,
        32,
        133,
        160,
        5760,
        8192,
        8193,
        8194,
        8195,
        8196,
        8197,
        8198,
        8199,
        8200,
        8201,
        8202,
        8232,
        8233,
        8239,
        8287,
        12288,
    ]
}

/// Words are parted by the twenty-five characters of white space and by no other.
pub proof fn lemma_white_space(c: char)
    ensures
        parts(Separator::White, c) <==> white_points().contains(c as int),
        parts(Separator::Stop, c) <==> c == '.',
{
    let points = white_points();
    let n = c as int;
    if is_white(c) {
        let k = if n <= 13 {
            n - 9
        } else if n == 32 {
            5
        } else if n == 133 {
            6
        } else if n == 160 {
            7
        } else if n == 5760 {
            8
        } else if n <= 8202 {
            n - 8192 + 9
        } else if n == 8232 {
            20
        } else if n == 8233 {
            21
        } else if n == 8239 {
            22
        } else if n == 8287 {
            23
        } else {
            24
        };
        assert(points[k] == n);
    }
    if points.contains(n) {
        let k = choose|k: int| 0 <= k < points.len() && points[k] == n;
        assert(points.len() == 25);
    }
}

} // verus!
