//! What the conditions of a query ask of a line, said in numbers, letters and values.

use vstd::prelude::*;
use vstd::utf8::encode_utf8;

use crate::fields::{first_value, written_key};
use crate::filter::{clause_holds, matching, numbers_hold, token_holds, value_holds};
use crate::number::{
    at_most, lemma_bits_order_numbers, less, magnitude, value, INFINITY_BITS, SIGN_BIT,
};
use crate::query::{ClauseView, Op};
use crate::text::{contains_fold, fold, has_prefix_fold, same_fold, stands_at_fold};
use crate::value::{compact_text, display, json_parse, walk, JsonTree};

verus! {

/// Two bytes are the same, or one is an ASCII capital and the other its small letter.
pub open spec fn same_letter(a: u8, b: u8) -> bool {
    ||| a == b
    ||| 0x41 <= a <= 0x5A && b == a + 0x20
    ||| 0x41 <= b <= 0x5A && a == b + 0x20
}

/// Byte strings of one length that are the same but for the case of ASCII letters.
pub open spec fn same_letters(a: Seq<u8>, b: Seq<u8>) -> bool {
    a.len() == b.len() && forall|i: int| 0 <= i < a.len() ==> same_letter(#[trigger] a[i], b[i])
}

/// The bits stand for a number that is not infinite.
pub open spec fn is_finite(bits: u64) -> bool {
    magnitude(bits) < INFINITY_BITS
}

/// Two finite numbers stand to each other as an operator asks.
pub open spec fn stands_to(a: int, op: Op, b: int) -> bool {
    ||| op is Gt && a > b
    ||| op is GtEq && a >= b
    ||| op is Lt && a < b
    ||| op is LtEq && a <= b
}

/// The operator compares numbers.
pub open spec fn is_numeric(op: Op) -> bool {
    !(op is Eq) && !(op is Prefix)
}

/// Byte strings are the same but for the case of ASCII letters exactly where each byte is;
/// what begins with another, and what holds another, does so at its beginning or
/// somewhere.
pub proof fn lemma_letters(a: Seq<u8>, b: Seq<u8>)
    ensures
        same_fold(a, b) <==> same_letters(a, b),
        has_prefix_fold(a, b) <==> b.len() <= a.len() && same_letters(
            a.take(b.len() as int),
            b,
        ),
        contains_fold(a, b) <==> exists|at: int|
            0 <= at && at + b.len() <= a.len() && same_letters(
                #[trigger] a.subrange(at, at + b.len()),
                b,
            ),
{
    lemma_letters_of(a, b);
    if b.len() <= a.len() {
        lemma_letters_of(a.take(b.len() as int), b);
    }
    if contains_fold(a, b) {
        let at = choose|at: int| stands_at_fold(a, b, at);
        lemma_letters_of(a.subrange(at, at + b.len()), b);
    }
    if exists|at: int|
        0 <= at && at + b.len() <= a.len() && same_letters(
            #[trigger] a.subrange(at, at + b.len()),
            b,
        ) {
        let at = choose|at: int|
            0 <= at && at + b.len() <= a.len() && same_letters(
                #[trigger] a.subrange(at, at + b.len()),
                b,
            );
        lemma_letters_of(a.subrange(at, at + b.len()), b);
        assert(stands_at_fold(a, b, at));
    }
}

proof fn lemma_letters_of(a: Seq<u8>, b: Seq<u8>)
    ensures
        same_fold(a, b) <==> same_letters(a, b),
{
    assert forall|x: u8, y: u8| fold(x) == fold(y) <==> #[trigger] same_letter(x, y) by {}
    if same_fold(a, b) {
        assert forall|i: int| 0 <= i < a.len() implies same_letter(#[trigger] a[i], b[i]) by {
            assert(fold(a[i]) == fold(b[i]));
        }
    }
    if same_letters(a, b) {
        assert forall|i: int| 0 <= i < a.len() implies fold(#[trigger] a[i]) == fold(b[i]) by {
            assert(same_letter(a[i], b[i]));
        }
    }
}

/// The small letter of a capital lies thirty-two places behind it; every other byte stays.
pub proof fn lemma_small_letter(b: u8)
    ensures
        0x41 <= b <= 0x5A ==> fold(b) == b + 32,
        !(0x41 <= b <= 0x5A) ==> fold(b) == b,
{
}

/// What is no number compares with nothing, and each infinity lies beyond all finite
/// numbers; it is the same as itself and beyond the other.
pub proof fn lemma_bits_beyond_numbers(a: u64, b: u64)
    ensures
        magnitude(a) > INFINITY_BITS || magnitude(b) > INFINITY_BITS ==> !less(a, b) && !at_most(
            a,
            b,
        ),
        is_finite(a) && b == INFINITY_BITS ==> less(a, b) && at_most(a, b) && !less(b, a)
            && !at_most(b, a),
        is_finite(a) && b == SIGN_BIT + INFINITY_BITS ==> less(b, a) && at_most(b, a) && !less(
            a,
            b,
        ) && !at_most(a, b),
        a == b && magnitude(a) == INFINITY_BITS ==> at_most(a, b) && !less(a, b),
        a == SIGN_BIT + INFINITY_BITS && b == INFINITY_BITS ==> less(a, b) && at_most(a, b) && !less(
            b,
            a,
        ) && !at_most(b, a),
{
}

/// Numbers are compared by the four operators that ask for an order, and by no other; what
/// is not there, or is no number, compares with nothing.
pub proof fn lemma_numbers_compare(op: Op, a: Option<u64>, b: Option<u64>)
    ensures
        a is None || b is None || !is_numeric(op) ==> !numbers_hold(op, a, b),
        a matches Some(x) && (b matches Some(y) && (is_finite(x) && is_finite(y))) ==> (
        numbers_hold(op, a, b) <==> stands_to(value(a->Some_0), op, value(b->Some_0))),
        a matches Some(x) && magnitude(x) > INFINITY_BITS ==> !numbers_hold(op, a, b),
        b matches Some(y) && magnitude(y) > INFINITY_BITS ==> !numbers_hold(op, a, b),
{
    if let (Some(x), Some(y)) = (a, b) {
        if is_finite(x) && is_finite(y) {
            lemma_bits_order_numbers(x, y);
            lemma_bits_order_numbers(y, x);
        }
    }
}

/// Any text is compared with a target by its letters, whatever their case, for the same
/// text or a beginning, and by the numbers that the two are for an order.
pub proof fn lemma_text_compares(
    text: Seq<u8>,
    op: Op,
    target: Seq<char>,
    num: spec_fn(Seq<u8>) -> Option<u64>,
)
    ensures
        ({
            let wanted = encode_utf8(target);
            let met = token_holds(text, op, target, num);
            &&& op is Eq ==> (met <==> same_letters(text, wanted))
            &&& op is Prefix ==> (met <==> wanted.len() <= text.len() && same_letters(
                text.take(wanted.len() as int),
                wanted,
            ))
            &&& is_numeric(op) ==> (met <==> numbers_hold(op, num(text), num(wanted)))
        }),
{
    lemma_letters(text, encode_utf8(target));
}

/// Any value is compared with a target by what a cell shows, for the same text or a
/// beginning, and for an order by the numbers that the two are; nothing but a number
/// compares so.
pub proof fn lemma_value_compares(
    tree: JsonTree,
    op: Op,
    target: Seq<char>,
    num: spec_fn(Seq<u8>) -> Option<u64>,
)
    ensures
        ({
            let wanted = encode_utf8(target);
            let shown = encode_utf8(
                match tree {
                    JsonTree::Str(text) => text,
                    _ => compact_text(tree),
                },
            );
            let met = value_holds(tree, op, target, num);
            &&& op is Eq ==> (met <==> same_letters(shown, wanted))
            &&& op is Prefix ==> (met <==> wanted.len() <= shown.len() && same_letters(
                shown.take(wanted.len() as int),
                wanted,
            ))
            &&& is_numeric(op) ==> (met <==> tree is Num && numbers_hold(
                op,
                num(shown),
                num(wanted),
            ))
        }),
{
    lemma_letters(encode_utf8(display(tree)), encode_utf8(target));
}

/// A condition on a field of one key is decided by the first value that is written for
/// the key: for the same text or a beginning by its letters, whatever their case, and for
/// an order by the numbers that it and the target are. Without such a value no condition
/// holds.
pub proof fn lemma_flat_condition(
    line: Seq<u8>,
    key: Seq<char>,
    op: Op,
    target: Seq<char>,
    num: spec_fn(Seq<u8>) -> Option<u64>,
)
    ensures
        ({
            let met = clause_holds(
                line,
                ClauseView::Field { path: seq![key], op, value: target },
                num,
            );
            let wanted = encode_utf8(target);
            match first_value(line, written_key(key)) {
                None => !met,
                Some(v) => {
                    &&& op is Eq ==> (met <==> same_letters(v, wanted))
                    &&& op is Prefix ==> (met <==> wanted.len() <= v.len() && same_letters(
                        v.take(wanted.len() as int),
                        wanted,
                    ))
                    &&& is_numeric(op) && (num(v) is None || num(wanted) is None) ==> !met
                    &&& is_numeric(op) && num(v) is Some && num(wanted) is Some ==> {
                        let a = num(v)->Some_0;
                        let b = num(wanted)->Some_0;
                        &&& is_finite(a) && is_finite(b) ==> (met <==> stands_to(
                            value(a),
                            op,
                            value(b),
                        ))
                        &&& magnitude(a) > INFINITY_BITS || magnitude(b) > INFINITY_BITS ==> !met
                    }
                },
            }
        }),
{
    let wanted = encode_utf8(target);
    let path = seq![key];
    assert(path[0] == key);
    if let Some(v) = first_value(line, written_key(key)) {
        lemma_letters(v, wanted);
        if num(v) is Some && num(wanted) is Some {
            let a = num(v)->Some_0;
            let b = num(wanted)->Some_0;
            if is_finite(a) && is_finite(b) {
                lemma_bits_order_numbers(a, b);
                lemma_bits_order_numbers(b, a);
            }
        }
    }
}

/// A condition on a field that several keys lead to is decided by the value that they
/// lead to in the value that the line is. A string is compared by its text and any other
/// value by its compact JSON text; an order holds of numbers alone. Where the line is no
/// JSON, or the path leads nowhere, no condition holds.
pub proof fn lemma_deep_condition(
    line: Seq<u8>,
    path: Seq<Seq<char>>,
    op: Op,
    target: Seq<char>,
    num: spec_fn(Seq<u8>) -> Option<u64>,
)
    requires
        path.len() != 1,
    ensures
        ({
            let met = clause_holds(line, ClauseView::Field { path, op, value: target }, num);
            let wanted = encode_utf8(target);
            match json_parse(line) {
                None => !met,
                Some(tree) => match walk(tree, path) {
                    None => !met,
                    Some(inner) => {
                        let shown = encode_utf8(
                            match inner {
                                JsonTree::Str(text) => text,
                                _ => compact_text(inner),
                            },
                        );
                        &&& op is Eq ==> (met <==> same_letters(shown, wanted))
                        &&& op is Prefix ==> (met <==> wanted.len() <= shown.len()
                            && same_letters(shown.take(wanted.len() as int), wanted))
                        &&& is_numeric(op) && !(inner is Num) ==> !met
                        &&& is_numeric(op) && (num(shown) is None || num(wanted) is None) ==> !met
                        &&& is_numeric(op) && inner is Num && num(shown) is Some && num(
                            wanted,
                        ) is Some ==> {
                            let a = num(shown)->Some_0;
                            let b = num(wanted)->Some_0;
                            &&& is_finite(a) && is_finite(b) ==> (met <==> stands_to(
                                value(a),
                                op,
                                value(b),
                            ))
                            &&& magnitude(a) > INFINITY_BITS || magnitude(b) > INFINITY_BITS
                                ==> !met
                        }
                    },
                },
            }
        }),
{
    let wanted = encode_utf8(target);
    if let Some(tree) = json_parse(line) {
        if let Some(inner) = walk(tree, path) {
            let shown = encode_utf8(display(inner));
            lemma_letters(shown, wanted);
            if num(shown) is Some && num(wanted) is Some {
                let a = num(shown)->Some_0;
                let b = num(wanted)->Some_0;
                if is_finite(a) && is_finite(b) {
                    lemma_bits_order_numbers(a, b);
                    lemma_bits_order_numbers(b, a);
                }
            }
        }
    }
}

/// A word is met where it stands anywhere in the line, whatever the case of ASCII letters.
pub proof fn lemma_word_condition(
    line: Seq<u8>,
    word: Seq<char>,
    num: spec_fn(Seq<u8>) -> Option<u64>,
)
    ensures
        clause_holds(line, ClauseView::Bare(word), num) <==> exists|at: int|
            0 <= at && at + encode_utf8(word).len() <= line.len() && same_letters(
                #[trigger] line.subrange(at, at + encode_utf8(word).len()),
                encode_utf8(word),
            ),
{
    lemma_letters(line, encode_utf8(word));
}

/// Without a condition every line is shown.
pub proof fn lemma_no_condition_shows_all(
    lines: Seq<Seq<u8>>,
    num: spec_fn(Seq<u8>) -> Option<u64>,
    from: int,
    to: int,
)
    requires
        from <= to,
    ensures
        matching(lines, Seq::empty(), num, from, to) == Seq::new(
            (to - from) as nat,
            |k: int| from + k,
        ),
    decreases to - from,
{
    if from < to {
        lemma_no_condition_shows_all(lines, num, from, to - 1);
        assert(matching(lines, Seq::empty(), num, from, to) =~= Seq::new(
            (to - from) as nat,
            |k: int| from + k,
        ));
    } else {
        assert(matching(lines, Seq::empty(), num, from, to) =~= Seq::new(0, |k: int| from + k));
    }
}

/// Behind the last line, or from a line on that is not before the end of the range, nothing
/// is shown.
pub proof fn lemma_nothing_behind_the_range(
    lines: Seq<Seq<u8>>,
    clauses: Seq<ClauseView>,
    num: spec_fn(Seq<u8>) -> Option<u64>,
    from: int,
    to: int,
)
    requires
        from >= to,
    ensures
        matching(lines, clauses, num, from, to).len() == 0,
{
}

} // verus!
