//! Draw-order weights as decimals: from the decimal parts of a JSON number
//! to a whole number of millionths, and back.

use vstd::prelude::*;
use vstd::arithmetic::div_mod::lemma_div_denominator;
use vstd::arithmetic::div_mod::lemma_div_is_ordered_by_denominator;
use crate::node::ZSort;

verus! {

/// The number of decimal places that a weight keeps.
pub const PLACES: i16 = 6;

/// Ten to the power `n`.
pub open spec fn pow10(n: nat) -> nat
    decreases n,
{
    if n == 0 {
        1
    } else {
        10 * pow10((n - 1) as nat)
    }
}

/// `mantissa` times ten to the power `shift`; where `shift` is negative,
/// what is left of the quotient after the fraction is cut off.
pub open spec fn scaled(mantissa: int, shift: int) -> int {
    if shift >= 0 {
        mantissa * pow10(shift as nat)
    } else {
        mantissa / (pow10((-shift) as nat) as int)
    }
}

/// The weight, in millionths, that the decimal `mantissa` times ten to the
/// power `exponent` stands for, with its sign; digits beyond the sixth
/// decimal place are cut off. Nothing where the weight does not fit in 64
/// bits.
pub open spec fn micros_of(positive: bool, mantissa: u64, exponent: i16) -> Option<ZSort> {
    let magnitude = scaled(mantissa as int, exponent + PLACES);
    if positive && magnitude <= i64::MAX {
        Some(ZSort::Value(magnitude as i64))
    } else if !positive && magnitude <= -i64::MIN {
        Some(ZSort::Value((-magnitude) as i64))
    } else {
        None
    }
}

/// The decimal parts without the trailing zeros that stand behind the
/// decimal point: the same number with the shortest mantissa.
pub open spec fn strip_zeros(mantissa: int, exponent: int) -> (int, int)
    decreases -exponent,
{
    if exponent < 0 && mantissa % 10 == 0 {
        strip_zeros(mantissa / 10, exponent + 1)
    } else {
        (mantissa, exponent)
    }
}

/// The decimal parts under which a weight in millionths is written.
pub open spec fn parts_of_micros(micros: i64) -> (bool, int, int) {
    let magnitude = if micros >= 0 {
        micros as int
    } else {
        -micros
    };
    let (mantissa, exponent) = strip_zeros(magnitude, -PLACES);
    (micros >= 0, mantissa, exponent)
}

/// Powers of ten are positive and grow.
pub proof fn lemma_pow10_grows(a: nat, b: nat)
    requires
        a <= b,
    ensures
        1 <= pow10(a) <= pow10(b),
    decreases b,
{
    if b > 0 {
        if a < b {
            lemma_pow10_grows(a, (b - 1) as nat);
        } else {
            lemma_pow10_grows((a - 1) as nat, (b - 1) as nat);
        }
    }
}

/// Stripping zeros keeps the number, leaves an exponent between the one
/// given and zero, and ends with a mantissa that cannot be shortened.
pub proof fn lemma_strip_zeros(mantissa: int, exponent: int)
    requires
        0 <= mantissa,
        -PLACES <= exponent <= 0,
    ensures
        ({
            let (m, e) = strip_zeros(mantissa, exponent);
            &&& exponent <= e <= 0
            &&& 0 <= m <= mantissa
            &&& e == 0 || m % 10 != 0
            &&& m * pow10((e + PLACES) as nat) == mantissa * pow10((exponent + PLACES) as nat)
        }),
    decreases -exponent,
{
    if exponent < 0 && mantissa % 10 == 0 {
        lemma_strip_zeros(mantissa / 10, exponent + 1);
        let (m, e) = strip_zeros(mantissa / 10, exponent + 1);
        let p = pow10((exponent + PLACES) as nat) as int;
        assert(pow10((exponent + 1 + PLACES) as nat) == 10 * p);
        assert((mantissa / 10) * (10 * p) == mantissa * p) by (nonlinear_arith)
            requires
                mantissa % 10 == 0,
        ;
    }
}

/// The parts under which a weight is written stand for that weight.
pub proof fn lemma_micros_of_parts(micros: i64)
    ensures
        ({
            let (positive, mantissa, exponent) = parts_of_micros(micros);
            &&& 0 <= mantissa <= u64::MAX
            &&& -PLACES <= exponent <= 0
            &&& exponent == 0 || mantissa % 10 != 0
            &&& micros_of(positive, mantissa as u64, exponent as i16) == Some(ZSort::Value(micros))
        }),
{
    let magnitude = if micros >= 0 {
        micros as int
    } else {
        -micros
    };
    lemma_strip_zeros(magnitude, -PLACES as int);
    assert(pow10(0) == 1);
    assert(magnitude * pow10(0) == magnitude) by (nonlinear_arith)
        requires
            pow10(0) == 1,
    ;
}

/// The weight that the decimal parts of a JSON number stand for.
pub fn zsort_from_parts(positive: bool, mantissa: u64, exponent: i16) -> (res: Option<ZSort>)
    ensures
        res == micros_of(positive, mantissa, exponent),
{
    let shift: i32 = exponent as i32 + PLACES as i32;
    let mut m: u64 = mantissa;
    let mut k: i32 = 0;
    if shift >= 0 {
        while k < shift && m != 0
            invariant
                0 <= k <= shift,
                shift == exponent + PLACES,
                m == mantissa * pow10(k as nat),
            decreases shift - k,
        {
            if m > u64::MAX / 10 {
                proof {
                    lemma_pow10_grows((k + 1) as nat, shift as nat);
                    let p = pow10((k + 1) as nat) as int;
                    let q = pow10(shift as nat) as int;
                    assert(mantissa * p <= mantissa * q) by (nonlinear_arith)
                        requires
                            p <= q,
                            0 <= mantissa,
                    ;
                    assert(mantissa * p == 10 * (mantissa * pow10(k as nat))) by (nonlinear_arith)
                        requires
                            p == 10 * pow10(k as nat),
                    ;
                    assert(10 * m > u64::MAX);
                    assert(scaled(mantissa as int, exponent + PLACES) == mantissa * q);
                }
                return None;
            }
            proof {
                assert(mantissa * pow10((k + 1) as nat) == 10 * (mantissa * pow10(k as nat)))
                    by (nonlinear_arith)
                    requires
                        pow10((k + 1) as nat) == 10 * pow10(k as nat),
                ;
            }
            m = m * 10;
            k += 1;
        }
        proof {
            if k < shift {
                lemma_pow10_grows(k as nat, shift as nat);
                assert(mantissa == 0) by (nonlinear_arith)
                    requires
                        mantissa * pow10(k as nat) == 0,
                        pow10(k as nat) >= 1,
                        mantissa >= 0,
                ;
                assert(mantissa * pow10(shift as nat) == 0) by (nonlinear_arith)
                    requires
                        mantissa == 0,
                ;
            }
        }
    } else {
        let steps: i32 = -shift;
        while k < steps && m != 0
            invariant
                0 <= k <= steps,
                steps == -shift,
                shift < 0,
                m == (mantissa as int) / (pow10(k as nat) as int),
            decreases steps - k,
        {
            proof {
                lemma_pow10_grows(0, k as nat);
                lemma_div_denominator(mantissa as int, pow10(k as nat) as int, 10);
                assert(pow10((k + 1) as nat) == pow10(k as nat) * 10) by (nonlinear_arith)
                    requires
                        pow10((k + 1) as nat) == 10 * pow10(k as nat),
                ;
            }
            m = m / 10;
            k += 1;
        }
        proof {
            if k < -shift {
                lemma_pow10_grows(k as nat, (-shift) as nat);
                lemma_div_is_ordered_by_denominator(
                    mantissa as int,
                    pow10(k as nat) as int,
                    pow10((-shift) as nat) as int,
                );
                lemma_pow10_grows(0, (-shift) as nat);
                vstd::arithmetic::div_mod::lemma_div_pos_is_pos(
                    mantissa as int,
                    pow10((-shift) as nat) as int,
                );
            }
        }
    }
    assert(m == scaled(mantissa as int, exponent + PLACES));
    if positive {
        if m <= 0x7fff_ffff_ffff_ffff {
            Some(ZSort::Value(m as i64))
        } else {
            None
        }
    } else {
        if m <= 0x7fff_ffff_ffff_ffff {
            Some(ZSort::Value(-(m as i64)))
        } else if m == 0x8000_0000_0000_0000 {
            Some(ZSort::Value(i64::MIN))
        } else {
            None
        }
    }
}

/// The decimal parts under which a weight in millionths is written: its
/// sign, and the shortest mantissa with its exponent.
pub fn parts_from_micros(micros: i64) -> (res: (bool, u64, i16))
    ensures
        (res.0, res.1 as int, res.2 as int) == parts_of_micros(micros),
        -PLACES <= res.2 <= 0,
        res.2 == 0 || res.1 % 10 != 0,
        micros_of(res.0, res.1, res.2) == Some(ZSort::Value(micros)),
{
    let magnitude: u64 = if micros >= 0 {
        micros as u64
    } else if micros == i64::MIN {
        0x8000_0000_0000_0000
    } else {
        (-micros) as u64
    };
    let mut m: u64 = magnitude;
    let mut e: i16 = -PLACES;
    while e < 0 && m % 10 == 0
        invariant
            -PLACES <= e <= 0,
            strip_zeros(m as int, e as int) == strip_zeros(magnitude as int, -PLACES as int),
        decreases -e,
    {
        m = m / 10;
        e = e + 1;
    }
    proof {
        lemma_micros_of_parts(micros);
    }
    (micros >= 0, m, e)
}

} // verus!
