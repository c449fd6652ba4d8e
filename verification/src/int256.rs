//! A signed 256-bit integer, the type of per-peer balances and charges.
//!
//! Held as a sign and a 256-bit magnitude in two 128-bit limbs. The range
//! is symmetric: every value with |v| <= 2^255 - 1 is representable, and
//! additions that would leave the range report so instead of wrapping —
//! a balance overflow is an invariant violation for the engine, never
//! silent arithmetic.

use vstd::prelude::*;

verus! {

/// 2^128, the weight of the high limb.
pub open spec fn limb_base() -> int {
    0x100000000000000000000000000000000int
}

/// The largest magnitude a balance may carry: 2^255 - 1.
pub open spec fn max_mag() -> int {
    0x7fffffffffffffffffffffffffffffffffffffffffffffffffffffffffffffffint
}

/// A signed 256-bit integer as sign and magnitude.
#[derive(Clone, Copy, PartialEq, Eq, Structural, Debug, Hash)]
pub struct I256 {
    /// True for values below zero. Zero is never marked negative.
    pub negative: bool,
    /// High 128 bits of the magnitude.
    pub mag_hi: u128,
    /// Low 128 bits of the magnitude.
    pub mag_lo: u128,
}

/// The magnitude the two limbs spell.
pub open spec fn spec_mag(hi: u128, lo: u128) -> int {
    hi * limb_base() + lo
}

/// Does a mathematical integer fit the type?
pub open spec fn in_range(v: int) -> bool {
    -max_mag() <= v <= max_mag()
}

impl I256 {
    /// The mathematical value.
    pub open spec fn as_int(self) -> int {
        if self.negative {
            -spec_mag(self.mag_hi, self.mag_lo)
        } else {
            spec_mag(self.mag_hi, self.mag_lo)
        }
    }

    /// Well-formed: no negative zero, magnitude within 2^255 - 1.
    pub open spec fn wf(self) -> bool {
        &&& self.negative ==> spec_mag(self.mag_hi, self.mag_lo) != 0
        &&& spec_mag(self.mag_hi, self.mag_lo) <= max_mag()
    }

    pub fn zero() -> (r: I256)
        ensures
            r.wf(),
            r.as_int() == 0,
    {
        I256 { negative: false, mag_hi: 0, mag_lo: 0 }
    }

    pub fn from_u128(x: u128) -> (r: I256)
        ensures
            r.wf(),
            r.as_int() == x as int,
    {
        I256 { negative: false, mag_hi: 0, mag_lo: x }
    }

    pub fn from_i128(x: i128) -> (r: I256)
        ensures
            r.wf(),
            r.as_int() == x as int,
    {
        if x < 0 {
            // -(x + 1) stays within i128 even for the smallest value.
            let m: u128 = ((-(x + 1)) as u128) + 1;
            I256 { negative: true, mag_hi: 0, mag_lo: m }
        } else {
            I256 { negative: false, mag_hi: 0, mag_lo: x as u128 }
        }
    }

    pub fn from_i64(x: i64) -> (r: I256)
        ensures
            r.wf(),
            r.as_int() == x as int,
    {
        I256::from_i128(x as i128)
    }

    /// The difference of two unsigned 128-bit values, which always fits.
    pub fn from_diff_u128(a: u128, b: u128) -> (r: I256)
        ensures
            r.wf(),
            r.as_int() == a as int - b as int,
    {
        if a >= b {
            I256 { negative: false, mag_hi: 0, mag_lo: a - b }
        } else {
            I256 { negative: true, mag_hi: 0, mag_lo: b - a }
        }
    }

    pub fn is_negative(&self) -> (r: bool)
        requires
            self.wf(),
        ensures
            r == (self.as_int() < 0),
    {
        proof {
            lemma_mag_bounds(self.mag_hi, self.mag_lo);
        }
        self.negative
    }

    pub fn is_zero(&self) -> (r: bool)
        requires
            self.wf(),
        ensures
            r == (self.as_int() == 0),
    {
        proof {
            lemma_mag_bounds(self.mag_hi, self.mag_lo);
        }
        !self.negative && self.mag_hi == 0 && self.mag_lo == 0
    }

    /// The negation; always in range because the range is symmetric.
    pub fn neg(&self) -> (r: I256)
        requires
            self.wf(),
        ensures
            r.wf(),
            r.as_int() == -self.as_int(),
    {
        proof {
            lemma_mag_bounds(self.mag_hi, self.mag_lo);
        }
        if self.mag_hi == 0 && self.mag_lo == 0 {
            I256 { negative: false, mag_hi: 0, mag_lo: 0 }
        } else {
            I256 { negative: !self.negative, mag_hi: self.mag_hi, mag_lo: self.mag_lo }
        }
    }

    /// Strictly below.
    pub fn lt(&self, other: &I256) -> (r: bool)
        requires
            self.wf(),
            other.wf(),
        ensures
            r == (self.as_int() < other.as_int()),
    {
        proof {
            lemma_mag_bounds(self.mag_hi, self.mag_lo);
            lemma_mag_bounds(other.mag_hi, other.mag_lo);
        }
        match (self.negative, other.negative) {
            (true, false) => true,
            (false, true) => false,
            (false, false) => mag_lt(self.mag_hi, self.mag_lo, other.mag_hi, other.mag_lo),
            (true, true) => mag_lt(other.mag_hi, other.mag_lo, self.mag_hi, self.mag_lo),
        }
    }

    /// At or below.
    pub fn le(&self, other: &I256) -> (r: bool)
        requires
            self.wf(),
            other.wf(),
        ensures
            r == (self.as_int() <= other.as_int()),
    {
        !other.lt(self)
    }

    /// The sum, or nothing when it would leave the 256-bit range.
    pub fn checked_add(&self, other: &I256) -> (r: Option<I256>)
        requires
            self.wf(),
            other.wf(),
        ensures
            match r {
                Some(s) => s.wf() && s.as_int() == self.as_int() + other.as_int(),
                None => !in_range(self.as_int() + other.as_int()),
            },
    {
        proof {
            lemma_mag_bounds(self.mag_hi, self.mag_lo);
            lemma_mag_bounds(other.mag_hi, other.mag_lo);
        }
        if self.negative == other.negative {
            match add_mags(self.mag_hi, self.mag_lo, other.mag_hi, other.mag_lo) {
                Some((hi, lo)) => Some(
                    I256 {
                        negative: self.negative && !(hi == 0 && lo == 0),
                        mag_hi: hi,
                        mag_lo: lo,
                    },
                ),
                None => None,
            }
        } else {
            // Opposite signs: the magnitude shrinks, so the sum always fits.
            let (hi, lo, flip) = if mag_lt(
                self.mag_hi,
                self.mag_lo,
                other.mag_hi,
                other.mag_lo,
            ) {
                let (h, l) = sub_mags(other.mag_hi, other.mag_lo, self.mag_hi, self.mag_lo);
                (h, l, true)
            } else {
                let (h, l) = sub_mags(self.mag_hi, self.mag_lo, other.mag_hi, other.mag_lo);
                (h, l, false)
            };
            let neg = if flip {
                other.negative
            } else {
                self.negative
            };
            Some(I256 { negative: neg && !(hi == 0 && lo == 0), mag_hi: hi, mag_lo: lo })
        }
    }

    /// The difference, or nothing when it would leave the range.
    pub fn checked_sub(&self, other: &I256) -> (r: Option<I256>)
        requires
            self.wf(),
            other.wf(),
        ensures
            match r {
                Some(s) => s.wf() && s.as_int() == self.as_int() - other.as_int(),
                None => !in_range(self.as_int() - other.as_int()),
            },
    {
        self.checked_add(&other.neg())
    }
}

/// Both limbs weigh in as expected: the magnitude is nonnegative and
/// below 2^256.
pub proof fn lemma_mag_bounds(hi: u128, lo: u128)
    ensures
        0 <= spec_mag(hi, lo),
        spec_mag(hi, lo) < limb_base() * limb_base(),
        hi < 0x80000000000000000000000000000000u128 <==> spec_mag(hi, lo) <= max_mag(),
{
    assert(hi * limb_base() >= 0) by (nonlinear_arith)
        requires hi >= 0;
    assert(hi * limb_base() <= (limb_base() - 1) * limb_base()) by (nonlinear_arith)
        requires hi <= limb_base() - 1;
    if hi < 0x80000000000000000000000000000000u128 {
        assert(hi * limb_base() <= (0x80000000000000000000000000000000 - 1) * limb_base())
            by (nonlinear_arith)
            requires hi <= 0x80000000000000000000000000000000 - 1;
    } else {
        assert(hi * limb_base() >= 0x80000000000000000000000000000000 * limb_base())
            by (nonlinear_arith)
            requires hi >= 0x80000000000000000000000000000000;
    }
}

/// Compare magnitudes limb by limb.
fn mag_lt(a_hi: u128, a_lo: u128, b_hi: u128, b_lo: u128) -> (r: bool)
    ensures
        r == (spec_mag(a_hi, a_lo) < spec_mag(b_hi, b_lo)),
{
    proof {
        if a_hi < b_hi {
            assert((a_hi + 1) * limb_base() <= b_hi * limb_base()) by (nonlinear_arith)
                requires a_hi + 1 <= b_hi;
            assert((a_hi + 1) * limb_base() == a_hi * limb_base() + limb_base());
        }
        if b_hi < a_hi {
            assert((b_hi + 1) * limb_base() <= a_hi * limb_base()) by (nonlinear_arith)
                requires b_hi + 1 <= a_hi;
            assert((b_hi + 1) * limb_base() == b_hi * limb_base() + limb_base());
        }
    }
    a_hi < b_hi || (a_hi == b_hi && a_lo < b_lo)
}

/// Add magnitudes; nothing when the sum tops 2^255 - 1.
fn add_mags(a_hi: u128, a_lo: u128, b_hi: u128, b_lo: u128) -> (r: Option<(u128, u128)>)
    ensures
        match r {
            Some((hi, lo)) => spec_mag(hi, lo) == spec_mag(a_hi, a_lo) + spec_mag(b_hi, b_lo)
                && spec_mag(hi, lo) <= max_mag(),
            None => spec_mag(a_hi, a_lo) + spec_mag(b_hi, b_lo) > max_mag(),
        },
{
    proof {
        lemma_mag_bounds(a_hi, a_lo);
        lemma_mag_bounds(b_hi, b_lo);
    }
    let (lo, carry): (u128, u128) = if a_lo <= u128::MAX - b_lo {
        (a_lo + b_lo, 0)
    } else {
        (a_lo - (u128::MAX - b_lo) - 1, 1)
    };
    if a_hi > u128::MAX - b_hi {
        proof {
            assert((a_hi + b_hi) * limb_base() >= limb_base() * limb_base()) by (nonlinear_arith)
                requires a_hi + b_hi >= limb_base();
            assert(a_hi * limb_base() + b_hi * limb_base() == (a_hi + b_hi) * limb_base())
                by (nonlinear_arith);
            lemma_mag_bounds(0x80000000000000000000000000000000u128, 0);
        }
        return None;
    }
    let hi_sum = a_hi + b_hi;
    let hi = if carry == 1 {
        if hi_sum > u128::MAX - 1 {
            proof {
                assert(a_hi * limb_base() + b_hi * limb_base() == (a_hi + b_hi) * limb_base())
                    by (nonlinear_arith);
                assert((a_hi + b_hi) * limb_base() >= (limb_base() - 1) * limb_base())
                    by (nonlinear_arith)
                    requires a_hi + b_hi >= limb_base() - 1;
            }
            return None;
        }
        hi_sum + 1
    } else {
        hi_sum
    };
    proof {
        assert(hi * limb_base() == a_hi * limb_base() + b_hi * limb_base() + carry * limb_base())
            by (nonlinear_arith)
            requires hi == a_hi + b_hi + carry;
        lemma_mag_bounds(hi, lo);
    }
    if hi >= 0x80000000000000000000000000000000u128 {
        None
    } else {
        Some((hi, lo))
    }
}

/// Subtract the smaller magnitude from the at-least-as-large one.
fn sub_mags(a_hi: u128, a_lo: u128, b_hi: u128, b_lo: u128) -> (r: (u128, u128))
    requires
        spec_mag(b_hi, b_lo) <= spec_mag(a_hi, a_lo),
    ensures
        spec_mag(r.0, r.1) == spec_mag(a_hi, a_lo) - spec_mag(b_hi, b_lo),
{
    proof {
        lemma_mag_bounds(a_hi, a_lo);
        lemma_mag_bounds(b_hi, b_lo);
        if a_hi < b_hi {
            assert((a_hi + 1) * limb_base() <= b_hi * limb_base()) by (nonlinear_arith)
                requires a_hi + 1 <= b_hi;
            assert((a_hi + 1) * limb_base() == a_hi * limb_base() + limb_base());
        }
    }
    let (lo, borrow): (u128, u128) = if a_lo >= b_lo {
        (a_lo - b_lo, 0)
    } else {
        ((u128::MAX - b_lo) + 1 + a_lo, 1)
    };
    proof {
        if borrow == 1 && a_hi < b_hi + 1 {
            assert(a_hi * limb_base() <= (b_hi + borrow - 1) * limb_base()) by (nonlinear_arith)
                requires a_hi <= b_hi + borrow - 1;
            assert((b_hi + borrow - 1) * limb_base() == b_hi * limb_base() + borrow * limb_base()
                - limb_base());
        }
        assert((a_hi - b_hi - borrow) * limb_base() == a_hi * limb_base() - b_hi * limb_base()
            - borrow * limb_base()) by (nonlinear_arith);
    }
    let hi = a_hi - b_hi - borrow;
    (hi, lo)
}

} // verus!
