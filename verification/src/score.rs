//! Scores and their order.

use vstd::arithmetic::power2::{lemma_pow2_adds, lemma_pow2_pos, lemma_pow2_strictly_increases, pow2};
use vstd::prelude::*;

verus! {

/// A selection score, held as its place among all scores.
///
/// A score weighs cached blocks against queued requests and need not be a whole
/// number; selection only asks how scores compare. `Rank` grows with the score
/// and is zero for score zero. `Unordered` is a score that compares with
/// nothing, as the result of an undefined computation does.
#[derive(Debug, Clone, Copy, PartialEq, Eq, Structural)]
pub enum Score {
    /// A score with a place in the order.
    Rank(i64),
    /// A score without one.
    Unordered,
}

/// The bits below the sign of a double-precision number.
pub open spec fn unsigned_bits(bits: u64) -> u64 {
    if bits >= 0x8000_0000_0000_0000 {
        (bits - 0x8000_0000_0000_0000) as u64
    } else {
        bits
    }
}

/// The exponent field.
pub open spec fn exponent(bits: u64) -> nat {
    (unsigned_bits(bits) / 0x10_0000_0000_0000) as nat
}

/// The fraction field.
pub open spec fn fraction(bits: u64) -> nat {
    (unsigned_bits(bits) % 0x10_0000_0000_0000) as nat
}

/// Whether the bits stand for no number.
pub open spec fn not_a_number(bits: u64) -> bool {
    exponent(bits) == 2047 && fraction(bits) != 0
}

/// The magnitude of a double-precision number, in units of the smallest
/// positive one: subnormal numbers are the fraction itself, others have an
/// implicit leading bit and are scaled by their exponent. Infinity counts as
/// what its fields spell, which is more than any finite magnitude.
pub open spec fn magnitude(bits: u64) -> nat {
    if exponent(bits) == 0 {
        fraction(bits)
    } else {
        ((0x10_0000_0000_0000 + fraction(bits)) * pow2((exponent(bits) - 1) as nat)) as nat
    }
}

/// The number that the bits stand for, in the same units.
pub open spec fn number(bits: u64) -> int {
    if bits >= 0x8000_0000_0000_0000 {
        -(magnitude(bits) as int)
    } else {
        magnitude(bits) as int
    }
}

/// The score of a double-precision number.
pub open spec fn score_of_bits(bits: u64) -> Score {
    if not_a_number(bits) {
        Score::Unordered
    } else if bits >= 0x8000_0000_0000_0000 {
        Score::Rank((-(unsigned_bits(bits) as int)) as i64)
    } else {
        Score::Rank(unsigned_bits(bits) as i64)
    }
}

impl Score {
    /// The score of a double-precision number, given by its bits.
    pub fn from_bits(bits: u64) -> (r: Score)
        ensures
            r == score_of_bits(bits),
    {
        let negative = bits >= 0x8000_0000_0000_0000;
        let rest: u64 = if negative {
            bits - 0x8000_0000_0000_0000
        } else {
            bits
        };
        if rest > 0x7ff0_0000_0000_0000 {
            return Score::Unordered;
        }
        if negative {
            Score::Rank(-(rest as i64))
        } else {
            Score::Rank(rest as i64)
        }
    }
}

/// More bits below the sign, more magnitude.
proof fn lemma_magnitude_grows(a: u64, b: u64)
    requires
        unsigned_bits(a) < unsigned_bits(b),
    ensures
        magnitude(a) < magnitude(b),
{
    let unit: int = 0x10_0000_0000_0000;
    let (ea, fa) = (exponent(a) as int, fraction(a) as int);
    let (eb, fb) = (exponent(b) as int, fraction(b) as int);
    assert(unsigned_bits(a) == ea * unit + fa);
    assert(unsigned_bits(b) == eb * unit + fb);
    assert(0 <= fa < unit && 0 <= fb < unit);
    assert(ea <= eb);
    if ea == eb {
        assert(fa < fb);
        if ea > 0 {
            let scale = pow2((ea - 1) as nat) as int;
            lemma_pow2_pos((ea - 1) as nat);
            assert((unit + fa) * scale < (unit + fb) * scale) by (nonlinear_arith)
                requires
                    fa < fb,
                    scale > 0,
            ;
        }
    } else {
        let scale_b = pow2((eb - 1) as nat) as int;
        lemma_pow2_pos((eb - 1) as nat);
        assert((unit + fb) * scale_b >= unit * scale_b) by (nonlinear_arith)
            requires
                fb >= 0,
                scale_b > 0,
        ;
        if ea == 0 {
            assert(unit * scale_b >= unit) by (nonlinear_arith)
                requires
                    scale_b > 0,
                    unit > 0,
            ;
        } else {
            let scale_a = pow2((ea - 1) as nat) as int;
            lemma_pow2_pos((ea - 1) as nat);
            lemma_pow2_adds((ea - 1) as nat, 1);
            vstd::arithmetic::power2::lemma2_to64();
            assert(pow2(ea as nat) == 2 * scale_a);
            if ea < eb - 1 {
                lemma_pow2_strictly_increases(ea as nat, (eb - 1) as nat);
            }
            assert(scale_b >= 2 * scale_a);
            assert((unit + fa) * scale_a < unit * scale_b) by (nonlinear_arith)
                requires
                    fa < unit,
                    scale_a > 0,
                    scale_b >= 2 * scale_a,
                    unit > 0,
            ;
        }
    }
}

/// Ranks compare as the numbers do: equal numbers (the two zeros among them)
/// have equal ranks, and a larger number has a larger rank.
pub proof fn law_ranks_compare_as_numbers(a: u64, b: u64, x: i64, y: i64)
    requires
        score_of_bits(a) == Score::Rank(x),
        score_of_bits(b) == Score::Rank(y),
    ensures
        x < y <==> number(a) < number(b),
        x == y <==> number(a) == number(b),
{
    if unsigned_bits(a) < unsigned_bits(b) {
        lemma_magnitude_grows(a, b);
    } else if unsigned_bits(b) < unsigned_bits(a) {
        lemma_magnitude_grows(b, a);
    } else {
        assert(magnitude(a) == magnitude(b));
    }
    lemma_zero_magnitude(a);
    lemma_zero_magnitude(b);
}

proof fn lemma_zero_magnitude(a: u64)
    ensures
        magnitude(a) == 0 <==> unsigned_bits(a) == 0,
{
    if unsigned_bits(a) > 0 {
        lemma_magnitude_grows(0, a);
    }
}

/// A score has a place in the order unless its bits stand for no number:
/// infinities have one, and zero has place zero.
pub proof fn law_only_non_numbers_have_no_place(bits: u64)
    ensures
        score_of_bits(bits) is Unordered <==> bits % 0x8000_0000_0000_0000 > 0x7ff0_0000_0000_0000,
        bits % 0x8000_0000_0000_0000 == 0 ==> score_of_bits(bits) == Score::Rank(0),
{
}

} // verus!
