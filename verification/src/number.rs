//! The order of numbers that are given by the bits of their binary64 form.
//!
//! Reading a number is left to the caller, who hands in a function from text to
//! bits; everything that is decided by numbers is decided here, on the bits.

use vstd::arithmetic::power2::{
    lemma_pow2_pos, lemma_pow2_strictly_increases, lemma_pow2_unfold, pow2,
};
use vstd::prelude::*;

verus! {

/// The bit of the sign, as a number.
pub const SIGN_BIT: u64 = 0x8000000000000000;

/// The bits of infinity.
pub const INFINITY_BITS: u64 = 0x7FF0000000000000;

/// The bits without the sign.
pub open spec fn magnitude(bits: u64) -> int {
    if bits >= SIGN_BIT {
        bits - SIGN_BIT
    } else {
        bits as int
    }
}

/// The bits stand for no number.
pub open spec fn is_nan(bits: u64) -> bool {
    magnitude(bits) > INFINITY_BITS
}

/// Places the numbers in their order; the two zeros share a place.
pub open spec fn rank(bits: u64) -> int {
    if bits >= SIGN_BIT {
        -magnitude(bits)
    } else {
        magnitude(bits)
    }
}

/// One number is less than another; what is no number is never less.
pub open spec fn less(a: u64, b: u64) -> bool {
    !is_nan(a) && !is_nan(b) && rank(a) < rank(b)
}

/// One number is at most another; what is no number is never so.
pub open spec fn at_most(a: u64, b: u64) -> bool {
    !is_nan(a) && !is_nan(b) && rank(a) <= rank(b)
}

fn rank_of(bits: u64) -> (out: i128)
    ensures
        out == rank(bits),
{
    if bits >= SIGN_BIT {
        -((bits - SIGN_BIT) as i128)
    } else {
        bits as i128
    }
}

fn has_no_number(bits: u64) -> (out: bool)
    ensures
        out == is_nan(bits),
{
    if bits >= SIGN_BIT {
        bits - SIGN_BIT > INFINITY_BITS
    } else {
        bits > INFINITY_BITS
    }
}

/// Whether one number is less than another.
pub fn is_less(a: u64, b: u64) -> (out: bool)
    ensures
        out == less(a, b),
{
    !has_no_number(a) && !has_no_number(b) && rank_of(a) < rank_of(b)
}

/// Whether one number is at most another.
pub fn is_at_most(a: u64, b: u64) -> (out: bool)
    ensures
        out == at_most(a, b),
{
    !has_no_number(a) && !has_no_number(b) && rank_of(a) <= rank_of(b)
}

/// The number of values of the fraction field.
pub const FRACTION_RANGE: u64 = 0x10000000000000;

/// The absolute value that finite bits stand for, in units of the least positive
/// number: the fraction, with its leading one unless the exponent is zero, at the
/// place that the exponent gives.
pub open spec fn absolute(bits: u64) -> int {
    let exponent = magnitude(bits) / (FRACTION_RANGE as int);
    let fraction = magnitude(bits) % (FRACTION_RANGE as int);
    if exponent == 0 {
        fraction
    } else {
        (FRACTION_RANGE + fraction) * pow2((exponent - 1) as nat)
    }
}

/// The value that finite bits stand for, in units of the least positive number.
pub open spec fn value(bits: u64) -> int {
    if bits >= SIGN_BIT {
        -absolute(bits)
    } else {
        absolute(bits)
    }
}

proof fn lemma_absolute_rises(a: u64, b: u64)
    requires
        magnitude(a) < magnitude(b),
    ensures
        0 <= absolute(a) < absolute(b),
{
    let r = FRACTION_RANGE as int;
    let ea = magnitude(a) / r;
    let eb = magnitude(b) / r;
    let fa = magnitude(a) % r;
    let fb = magnitude(b) % r;
    vstd::arithmetic::div_mod::lemma_fundamental_div_mod(magnitude(a), r);
    vstd::arithmetic::div_mod::lemma_fundamental_div_mod(magnitude(b), r);
    if ea > 0 {
        lemma_pow2_pos((ea - 1) as nat);
        assert((r + fa) * pow2((ea - 1) as nat) >= 0) by (nonlinear_arith)
            requires
                r + fa >= 0,
                pow2((ea - 1) as nat) > 0,
        ;
    }
    if eb > 0 {
        lemma_pow2_pos((eb - 1) as nat);
    }
    if ea == eb {
        if ea > 0 {
            assert((r + fa) * pow2((ea - 1) as nat) < (r + fb) * pow2((ea - 1) as nat))
                by (nonlinear_arith)
                requires
                    fa < fb,
                    pow2((ea - 1) as nat) > 0,
            ;
        }
    } else {
        let pb = pow2((eb - 1) as nat) as int;
        assert((r + fb) * pb >= r * pb) by (nonlinear_arith)
            requires
                fb >= 0,
                pb > 0,
        ;
        if ea == 0 {
            assert(r * pb >= r) by (nonlinear_arith)
                requires
                    r > 0,
                    pb > 0,
            ;
        } else {
            let pa = pow2((ea - 1) as nat) as int;
            lemma_pow2_unfold(ea as nat);
            if ea < eb - 1 {
                lemma_pow2_strictly_increases(ea as nat, (eb - 1) as nat);
            }
            assert((r + fa) * pa < (r + r) * pa) by (nonlinear_arith)
                requires
                    fa < r,
                    pa > 0,
            ;
            assert((r + r) * pa == r * (2 * pa)) by (nonlinear_arith);
            assert(r * (2 * pa) <= r * pb) by (nonlinear_arith)
                requires
                    r > 0,
                    2 * pa <= pb,
            ;
        }
    }
}

/// The least bits stand for as many units as they are; from there on, an exponent that is
/// one greater doubles the value; and the bit of the sign negates it.
pub proof fn lemma_values(bits: u64)
    requires
        bits < 0x7FF0000000000000,
    ensures
        bits < 0x20000000000000 ==> value(bits) == bits,
        bits >= 0x20000000000000 ==> value(bits) == 2 * value((bits - 0x10000000000000) as u64),
        value((bits + 0x8000000000000000) as u64) == -value(bits),
{
    let r = FRACTION_RANGE as int;
    let e = bits as int / r;
    vstd::arithmetic::div_mod::lemma_fundamental_div_mod(bits as int, r);
    vstd::arithmetic::power2::lemma2_to64();
    if bits >= 0x20000000000000 {
        vstd::arithmetic::div_mod::lemma_fundamental_div_mod_converse(
            bits - r,
            r,
            e - 1,
            bits as int % r,
        );
        lemma_pow2_unfold((e - 1) as nat);
        let f = r + bits as int % r;
        let p = pow2((e - 2) as nat) as int;
        assert(f * (2 * p) == 2 * (f * p)) by (nonlinear_arith);
    } else {
        assert(e == 0 || e == 1);
        assert(pow2(0) == 1);
        let f = r + bits as int % r;
        assert(f * 1 == f) by (nonlinear_arith);
    }
}

/// The order of the bits is the order of the numbers they stand for.
pub proof fn lemma_bits_order_numbers(a: u64, b: u64)
    requires
        magnitude(a) < INFINITY_BITS,
        magnitude(b) < INFINITY_BITS,
    ensures
        less(a, b) <==> value(a) < value(b),
        at_most(a, b) <==> value(a) <= value(b),
{
    if magnitude(a) < magnitude(b) {
        lemma_absolute_rises(a, b);
    } else if magnitude(b) < magnitude(a) {
        lemma_absolute_rises(b, a);
    }
    if magnitude(a) > 0 {
        lemma_absolute_rises(0, a);
    }
    if magnitude(b) > 0 {
        lemma_absolute_rises(0, b);
    }
    assert(absolute(0) == 0);
}

/// `numeric` takes every text, and reads the same number from the same text.
pub open spec fn reads_numbers<F: Fn(&[u8]) -> Option<u64>>(numeric: F) -> bool {
    &&& forall|text: &[u8]| call_requires(numeric, (text,))
    &&& forall|a: &[u8], b: &[u8], x: Option<u64>, y: Option<u64>|
        a@ == b@ && call_ensures(numeric, (a,), x) && call_ensures(numeric, (b,), y) ==> x == y
}

/// The number that `numeric` reads from a text.
pub open spec fn number_of<F: Fn(&[u8]) -> Option<u64>>(numeric: F, text: Seq<u8>) -> Option<u64> {
    choose|x: Option<u64>| reads_as(numeric, text, x)
}

/// `numeric` reads the number `x` from a text.
pub open spec fn reads_as<F: Fn(&[u8]) -> Option<u64>>(
    numeric: F,
    text: Seq<u8>,
    x: Option<u64>,
) -> bool {
    exists|t: &[u8]| t@ == text && #[trigger] call_ensures(numeric, (t,), x)
}

/// Reads the number of a text.
pub fn read_number<F: Fn(&[u8]) -> Option<u64>>(numeric: &F, text: &[u8]) -> (out: Option<u64>)
    requires
        reads_numbers(*numeric),
    ensures
        out == number_of(*numeric, text@),
{
    let out = numeric(text);
    assert(reads_as(*numeric, text@, out));
    out
}

} // verus!
