//! Coordinates, as the bit patterns of IEEE 754 single-precision numbers.
//!
//! A coordinate is stored, compared and tested here; sums and products of
//! coordinates are left to whoever draws.

use vstd::prelude::*;

verus! {

/// A single-precision number: its bit pattern.
#[derive(Clone, Copy, Debug, PartialEq, Eq, Structural)]
pub struct Coord {
    pub bits: u32,
}

/// The bit pattern of infinity. Greater magnitudes are not numbers.
pub const INFINITY_BITS: u32 = 0x7f80_0000;

pub const SIGN_BIT: u32 = 0x8000_0000;

/// The least mantissa of twenty-four bits.
pub const MANTISSA_LOW: u32 = 0x80_0000;

/// The greatest magnitude that [`Coord::whole`] takes.
pub const WHOLE_LIMIT: i128 = 0x1_0000_0000_0000_0000_0000_0000;

/// `m` doubled, and `e` lowered with it, until `m` has twenty-four bits.
pub open spec fn scaled_up(m: int, e: int) -> (int, int)
    decreases 2 * MANTISSA_LOW - m,
{
    if 0 < m < MANTISSA_LOW {
        scaled_up(m * 2, e - 1)
    } else {
        (m, e)
    }
}

/// `m` halved, and `e` raised with it, until `m` has twenty-four bits.
pub open spec fn scaled_down(m: int, e: int) -> (int, int)
    decreases m,
{
    if m >= 2 * MANTISSA_LOW {
        scaled_down(m / 2, e + 1)
    } else {
        (m, e)
    }
}

/// Two to the power of `k`.
pub open spec fn doubled(k: nat) -> int
    decreases k,
{
    if k == 0 {
        1
    } else {
        2 * doubled((k - 1) as nat)
    }
}

/// The bit pattern of the positive whole number `m`. What does not fit in
/// twenty-four bits is dropped.
pub open spec fn whole_bits(m: int) -> int {
    let (s, e) = if m < MANTISSA_LOW {
        scaled_up(m, 23)
    } else {
        scaled_down(m, 23)
    };
    (126 + e) * MANTISSA_LOW + s
}

pub open spec fn spec_whole(i: int) -> Coord {
    if i == 0 {
        Coord { bits: 0 }
    } else if i > 0 {
        Coord { bits: whole_bits(i) as u32 }
    } else {
        Coord { bits: (whole_bits(-i) + SIGN_BIT) as u32 }
    }
}

proof fn lemma_doubled()
    ensures
        doubled(23) == MANTISSA_LOW,
        doubled(24) == 2 * MANTISSA_LOW,
        doubled(96) == WHOLE_LIMIT,
        2 * MANTISSA_LOW * doubled(72) == WHOLE_LIMIT,
{
    reveal_with_fuel(doubled, 25);
    assert(doubled(24) == 0x100_0000);
    assert(doubled(48) == 0x100_0000 * doubled(24));
    assert(doubled(72) == 0x100_0000 * doubled(48));
    assert(doubled(96) == 0x100_0000 * doubled(72));
}

/// A small magnitude, scaled to twenty-four bits, and its exponent.
fn scale_up(magnitude: u32) -> (r: (u32, u32))
    requires
        0 < magnitude < MANTISSA_LOW,
    ensures
        scaled_up(magnitude as int, 23) == (r.0 as int, r.1 as int),
        MANTISSA_LOW <= r.0 < 2 * MANTISSA_LOW,
        r.1 <= 23,
{
    let mut m: u32 = magnitude;
    let mut e: u32 = 23;
    proof {
        lemma_doubled();
    }
    while m < MANTISSA_LOW
        invariant
            0 < m < 2 * MANTISSA_LOW,
            e <= 23,
            m >= doubled((23 - e) as nat),
            doubled(23) == MANTISSA_LOW,
            scaled_up(magnitude as int, 23) == scaled_up(m as int, e as int),
        decreases 2 * MANTISSA_LOW - m,
    {
        m = m * 2;
        e = e - 1;
    }
    (m, e)
}

/// A large magnitude, scaled to twenty-four bits, and its exponent.
fn scale_down(magnitude: i128) -> (r: (u32, u32))
    requires
        MANTISSA_LOW <= magnitude < WHOLE_LIMIT,
    ensures
        scaled_down(magnitude as int, 23) == (r.0 as int, r.1 as int),
        MANTISSA_LOW <= r.0 < 2 * MANTISSA_LOW,
        23 <= r.1 <= 95,
{
    let mut m: i128 = magnitude;
    let mut e: u32 = 23;
    proof {
        lemma_doubled();
    }
    while m >= 2 * MANTISSA_LOW as i128
        invariant
            MANTISSA_LOW <= m,
            23 <= e <= 95,
            m < doubled((119 - e) as nat),
            doubled(24) == 2 * MANTISSA_LOW,
            scaled_down(magnitude as int, 23) == scaled_down(m as int, e as int),
        decreases m,
    {
        m = m / 2;
        e = e + 1;
    }
    (m as u32, e)
}

impl Coord {
    pub open spec fn magnitude(self) -> int {
        if self.bits >= SIGN_BIT {
            self.bits - SIGN_BIT
        } else {
            self.bits as int
        }
    }

    /// Neither infinite nor not a number.
    pub open spec fn finite(self) -> bool {
        self.magnitude() < INFINITY_BITS
    }

    pub open spec fn not_a_number(self) -> bool {
        self.magnitude() > INFINITY_BITS
    }

    /// Where the coordinate stands among the others: the order of the numbers,
    /// with both zeros in one place.
    pub open spec fn rank(self) -> int {
        if self.bits >= SIGN_BIT {
            -self.magnitude()
        } else {
            self.magnitude()
        }
    }

    /// `self < other`, as numbers.
    pub open spec fn below(self, other: Coord) -> bool {
        !self.not_a_number() && !other.not_a_number() && self.rank() < other.rank()
    }

    /// `self == other`, as numbers.
    pub open spec fn same(self, other: Coord) -> bool {
        !self.not_a_number() && !other.not_a_number() && self.rank() == other.rank()
    }

    /// Where the greatest number stands.
    pub open spec fn most() -> int {
        INFINITY_BITS - 1
    }

    /// The next number above, where there is one.
    pub open spec fn raised(self) -> Coord {
        if self.bits > SIGN_BIT {
            Coord { bits: (self.bits - 1) as u32 }
        } else if self.bits == SIGN_BIT {
            Coord { bits: 1 }
        } else if self.bits < INFINITY_BITS - 1 {
            Coord { bits: (self.bits + 1) as u32 }
        } else {
            self
        }
    }

    pub proof fn lemma_raised(self)
        ensures
            self.rank() < Coord::most() ==> self.raised().rank() == self.rank() + 1,
            self.finite() ==> self.raised().finite(),
    {
    }

    pub fn raise(self) -> (r: Coord)
        ensures
            r == self.raised(),
    {
        if self.bits > SIGN_BIT {
            Coord { bits: self.bits - 1 }
        } else if self.bits == SIGN_BIT {
            Coord { bits: 1 }
        } else if self.bits < INFINITY_BITS - 1 {
            Coord { bits: self.bits + 1 }
        } else {
            self
        }
    }

    pub fn zero() -> (r: Coord)
        ensures
            r == spec_whole(0),
            r.finite(),
    {
        Coord { bits: 0 }
    }

    pub fn is_finite(self) -> (r: bool)
        ensures
            r == self.finite(),
    {
        self.bits < INFINITY_BITS || (self.bits >= SIGN_BIT && self.bits - SIGN_BIT < INFINITY_BITS)
    }

    pub fn is_nan(self) -> (r: bool)
        ensures
            r == self.not_a_number(),
    {
        if self.bits >= SIGN_BIT {
            self.bits - SIGN_BIT > INFINITY_BITS
        } else {
            self.bits > INFINITY_BITS
        }
    }

    pub fn order(self) -> (r: i64)
        ensures
            r == self.rank(),
    {
        if self.bits >= SIGN_BIT {
            -((self.bits - SIGN_BIT) as i64)
        } else {
            self.bits as i64
        }
    }

    pub fn is_below(self, other: Coord) -> (r: bool)
        ensures
            r == self.below(other),
    {
        !self.is_nan() && !other.is_nan() && self.order() < other.order()
    }

    pub fn equals(self, other: Coord) -> (r: bool)
        ensures
            r == self.same(other),
    {
        !self.is_nan() && !other.is_nan() && self.order() == other.order()
    }

    /// The whole number `i`. It is exact up to twenty-four bits; beyond that the
    /// low bits are dropped.
    pub fn whole(i: i128) -> (r: Coord)
        requires
            -WHOLE_LIMIT < i < WHOLE_LIMIT,
        ensures
            r == spec_whole(i as int),
            r.finite(),
            r.rank() == (if i < 0 {
                -whole_bits(-i)
            } else if i == 0 {
                0
            } else {
                whole_bits(i as int)
            }),
    {
        if i == 0 {
            return Coord { bits: 0 };
        }
        let magnitude: i128 = if i < 0 {
            -i
        } else {
            i
        };
        let (m, e): (u32, u32) = if magnitude < MANTISSA_LOW as i128 {
            scale_up(magnitude as u32)
        } else {
            scale_down(magnitude)
        };
        let bits: u32 = (126 + e) * MANTISSA_LOW + m;
        if i < 0 {
            Coord { bits: bits + SIGN_BIT }
        } else {
            Coord { bits }
        }
    }
}

// ---------------------------------------------------------------------------
// Whole numbers in order
// ---------------------------------------------------------------------------

proof fn lemma_up_shift(m: int, e: int)
    ensures
        scaled_up(m, e).0 == scaled_up(m, e + 1).0,
        scaled_up(m, e).1 + 1 == scaled_up(m, e + 1).1,
    decreases 2 * MANTISSA_LOW - m,
{
    if 0 < m < MANTISSA_LOW {
        lemma_up_shift(m * 2, e - 1);
    }
}

proof fn lemma_down_shift(m: int, e: int)
    ensures
        scaled_down(m, e).0 == scaled_down(m, e + 1).0,
        scaled_down(m, e).1 + 1 == scaled_down(m, e + 1).1,
    decreases m,
{
    if m >= 2 * MANTISSA_LOW {
        lemma_down_shift(m / 2, e + 1);
    }
}

/// Twice a small number stands one step of the exponent higher, and half a great
/// one a step lower.
proof fn lemma_whole_step(m: int)
    requires
        0 < m,
    ensures
        m < MANTISSA_LOW ==> whole_bits(m) == whole_bits(2 * m) - MANTISSA_LOW,
        MANTISSA_LOW <= m < 2 * MANTISSA_LOW ==> whole_bits(m) == 149 * MANTISSA_LOW + m,
        m >= 2 * MANTISSA_LOW ==> whole_bits(m) == whole_bits(m / 2) + MANTISSA_LOW,
{
    if m < MANTISSA_LOW {
        lemma_up_shift(2 * m, 22);
        assert(scaled_up(m, 23) == scaled_up(m * 2, 22));
        if 2 * m >= MANTISSA_LOW {
            assert(scaled_up(2 * m, 22) == (2 * m, 22int));
            assert(scaled_down(2 * m, 23) == (2 * m, 23int));
        }
        let (s, e) = scaled_up(2 * m, 22);
        assert((126 + (e + 1)) * MANTISSA_LOW == (126 + e) * MANTISSA_LOW + MANTISSA_LOW)
            by (nonlinear_arith);
    } else if m >= 2 * MANTISSA_LOW {
        lemma_down_shift(m / 2, 23);
        let (s, e) = scaled_down(m / 2, 23);
        assert((126 + (e + 1)) * MANTISSA_LOW == (126 + e) * MANTISSA_LOW + MANTISSA_LOW)
            by (nonlinear_arith);
    }
}

proof fn lemma_small_below(m: int)
    requires
        0 < m < MANTISSA_LOW,
    ensures
        whole_bits(m) < 150 * MANTISSA_LOW,
    decreases MANTISSA_LOW - m,
{
    lemma_whole_step(m);
    lemma_whole_step(2 * m);
    if 2 * m < MANTISSA_LOW {
        lemma_small_below(2 * m);
    }
}

proof fn lemma_great_above(m: int)
    requires
        2 * MANTISSA_LOW <= m,
    ensures
        whole_bits(m) >= 151 * MANTISSA_LOW,
    decreases m,
{
    lemma_whole_step(m);
    lemma_whole_step(m / 2);
    if m / 2 >= 2 * MANTISSA_LOW {
        lemma_great_above(m / 2);
    }
}

proof fn lemma_small_rises(a: int, b: int)
    requires
        0 < a <= b < 2 * MANTISSA_LOW,
    ensures
        whole_bits(a) <= whole_bits(b),
    decreases 2 * MANTISSA_LOW - a,
{
    lemma_whole_step(a);
    lemma_whole_step(b);
    if b < MANTISSA_LOW {
        lemma_small_rises(2 * a, 2 * b);
    } else if a < MANTISSA_LOW {
        lemma_small_below(a);
    }
}

proof fn lemma_bits_rise(a: int, b: int)
    requires
        0 < a <= b,
    ensures
        whole_bits(a) <= whole_bits(b),
    decreases b,
{
    lemma_whole_step(a);
    lemma_whole_step(b);
    if b < 2 * MANTISSA_LOW {
        lemma_small_rises(a, b);
    } else if a >= 2 * MANTISSA_LOW {
        lemma_bits_rise(a / 2, b / 2);
    } else {
        lemma_great_above(b);
        if a < MANTISSA_LOW {
            lemma_small_below(a);
        }
    }
}

proof fn lemma_bits_low(m: int, j: nat)
    requires
        0 < m,
        j <= 23,
        m * doubled(j) >= MANTISSA_LOW,
    ensures
        whole_bits(m) >= (150 - j) * MANTISSA_LOW,
    decreases j,
{
    lemma_whole_step(m);
    if m >= 2 * MANTISSA_LOW {
        lemma_great_above(m);
    } else if m < MANTISSA_LOW {
        if j == 0 {
            assert(m * doubled(0) == m) by {
                assert(doubled(0) == 1);
            }
        } else {
            let h = doubled((j - 1) as nat);
            assert(doubled(j) == 2 * h);
            assert((2 * m) * h == m * (2 * h)) by (nonlinear_arith);
            lemma_bits_low(2 * m, (j - 1) as nat);
        }
    }
}

proof fn lemma_bits_high(m: int, j: nat)
    requires
        0 < m < 2 * MANTISSA_LOW * doubled(j),
    ensures
        whole_bits(m) < (151 + j) * MANTISSA_LOW,
    decreases j,
{
    lemma_whole_step(m);
    if m < MANTISSA_LOW {
        lemma_small_below(m);
    } else if m >= 2 * MANTISSA_LOW {
        if j == 0 {
            assert(doubled(0) == 1);
        } else {
            let h = doubled((j - 1) as nat);
            assert(doubled(j) == 2 * h);
            assert(2 * MANTISSA_LOW * (2 * h) == 2 * (2 * MANTISSA_LOW * h)) by (nonlinear_arith);
            lemma_bits_high(m / 2, (j - 1) as nat);
        }
    }
}

proof fn lemma_bits_range(m: int)
    requires
        0 < m < WHOLE_LIMIT,
    ensures
        0 < whole_bits(m) < SIGN_BIT,
{
    lemma_doubled();
    assert(m * doubled(23) >= MANTISSA_LOW) by (nonlinear_arith)
        requires
            m >= 1,
            doubled(23) == MANTISSA_LOW,
    ;
    lemma_bits_low(m, 23);
    lemma_bits_high(m, 72);
}

/// A greater whole number stands no lower.
pub proof fn lemma_whole_rises(a: int, b: int)
    requires
        -WHOLE_LIMIT < a <= b < WHOLE_LIMIT,
    ensures
        spec_whole(a).rank() <= spec_whole(b).rank(),
{
    if a != 0 {
        lemma_bits_range(if a > 0 {
            a
        } else {
            -a
        });
    }
    if b != 0 {
        lemma_bits_range(if b > 0 {
            b
        } else {
            -b
        });
    }
    if a > 0 {
        lemma_bits_rise(a, b);
    } else if b < 0 {
        lemma_bits_rise(-b, -a);
    }
}

/// How a whole number is written as a coordinate, as an IEEE single: one of twenty-four
/// bits by its bits, twice a number by one more in the exponent, and a negative number
/// with the sign set.
pub proof fn a_whole_number_is_written_as_a_single(m: int)
    requires
        0 < m < 0x100_0000,
    ensures
        m >= 0x80_0000 ==> spec_whole(m).bits == 0x4b00_0000 + (m - 0x80_0000),
        spec_whole(2 * m).bits == spec_whole(m).bits + 0x80_0000,
        spec_whole(-m).bits == spec_whole(m).bits + 0x8000_0000,
        spec_whole(0).bits == 0,
{
    lemma_whole_step(m);
    lemma_whole_step(2 * m);
    lemma_bits_range(m);
    lemma_bits_range(2 * m);
    assert((2 * m) / 2 == m);
}

} // verus!
