//! Axis coordinates.
//!
//! A coordinate is an IEEE 754 double. The library stores, compares and passes coordinates
//! on, and never calculates with them, so it holds one as its bits.
use vstd::arithmetic::power2::*;
use vstd::prelude::*;

verus! {

/// An axis coordinate: the bits of an IEEE 754 double that is a number.
#[derive(Clone, Copy, Debug, PartialEq, Eq, Structural)]
pub struct Coord {
    pub bits: u64,
}

/// The bit that holds the sign.
pub const SIGN: u64 = 0x8000_0000_0000_0000;

/// One more than the largest fraction.
pub const FRACTION: u64 = 0x10_0000_0000_0000;

/// Where a coordinate stands among the doubles, counted from zero. The doubles that are
/// numbers are ordered as these positions are, and the two zeros share one.
pub open spec fn rank(c: Coord) -> int {
    if c.bits < SIGN {
        c.bits as int
    } else {
        -(c.bits - SIGN)
    }
}

impl Coord {
    /// `self <= other`.
    pub fn le(self, other: Coord) -> (r: bool)
        ensures
            r == (rank(self) <= rank(other)),
    {
        if self.bits < SIGN {
            if other.bits < SIGN {
                self.bits <= other.bits
            } else {
                self.bits == 0 && other.bits == SIGN
            }
        } else if other.bits < SIGN {
            true
        } else {
            self.bits >= other.bits
        }
    }

    /// `self < other`.
    pub fn lt(self, other: Coord) -> (r: bool)
        ensures
            r == (rank(self) < rank(other)),
    {
        !other.le(self)
    }

    /// `self == other` as numbers: the two zeros are equal.
    pub fn same(self, other: Coord) -> (r: bool)
        ensures
            r == (rank(self) == rank(other)),
    {
        self.le(other) && other.le(self)
    }

    /// The coordinate `n / 65536`, which every double of that size holds exactly.
    pub fn of_fixed(n: i32) -> (c: Coord)
        ensures
            is_fixed(c, n as int),
    {
        if n == 0 {
            return Coord { bits: 0 };
        }
        let negative: bool = n < 0;
        let magnitude: u64 = if negative {
            (-(n as i64)) as u64
        } else {
            n as u64
        };
        let mut m: u64 = magnitude;
        let mut shifts: u64 = 0;
        proof {
            lemma2_to64();
            assert(m == magnitude * 1) by (nonlinear_arith)
                requires
                    m == magnitude,
            ;
            assert(1 * pow2(0) <= m) by (nonlinear_arith)
                requires
                    m >= 1,
                    pow2(0) == 1,
            ;
        }
        while m < FRACTION
            invariant
                1 <= magnitude <= 0x8000_0000,
                m == magnitude * pow2(shifts as nat),
                1 <= m < 2 * FRACTION,
                pow2(shifts as nat) <= m,
                shifts <= 52,
            decreases 2 * FRACTION - m,
        {
            proof {
                lemma_pow2_unfold((shifts + 1) as nat);
                let p = pow2(shifts as nat);
                assert(magnitude * (2 * p) == 2 * (magnitude * p)) by (nonlinear_arith);
                if shifts >= 52 {
                    lemma_pow2_52();
                }
            }
            m = m * 2;
            shifts = shifts + 1;
        }
        let exponent: u64 = 1059 - shifts;
        let rest: u64 = exponent * FRACTION + (m - FRACTION);
        assert(rest / FRACTION == exponent && rest % FRACTION == m - FRACTION);
        assert(1059 - exponent == shifts);
        if negative {
            let c: Coord = Coord { bits: rest + SIGN };
            assert(c.bits % SIGN == rest);
            c
        } else {
            Coord { bits: rest }
        }
    }
}

proof fn lemma_pow2_52()
    ensures
        pow2(52) == FRACTION,
{
    lemma2_to64();
    lemma2_to64_rest();
}

/// `c` is the double whose value is `n / 65536`: its significand, which counts the units
/// of its exponent, is `n` brought to those units.
pub open spec fn is_fixed(c: Coord, n: int) -> bool {
    let rest = c.bits % SIGN;
    let exponent = rest / FRACTION;
    let significand = FRACTION + rest % FRACTION;
    let magnitude: int = if n < 0 {
        -n
    } else {
        n
    };
    if n == 0 {
        c.bits == 0
    } else {
        (c.bits >= SIGN) == (n < 0) && exponent <= 1059 && significand == magnitude * pow2(
            (1059 - exponent) as nat,
        )
    }
}

/// Of two positive values the larger has the larger bits.
proof fn lemma_magnitudes_ordered(a: Coord, b: Coord, n: int, m: int)
    requires
        0 < n < m,
        is_fixed(a, n),
        is_fixed(b, m),
    ensures
        a.bits < b.bits,
{
    let s = (1059 - a.bits % SIGN / FRACTION) as nat;
    let t = (1059 - b.bits % SIGN / FRACTION) as nat;
    let ps = pow2(s);
    let pt = pow2(t);
    lemma_pow2_pos(s);
    lemma_pow2_pos(t);
    if s < t {
        lemma_pow2_unfold((s + 1) as nat);
        if s + 1 < t {
            lemma_pow2_strictly_increases((s + 1) as nat, t);
        }
        assert(pt >= 2 * ps);
        assert(m * pt >= 2 * (n * ps)) by (nonlinear_arith)
            requires
                m > n > 0,
                pt >= 2 * ps,
                ps > 0,
        ;
    } else if s == t {
        assert(n * ps < m * pt) by (nonlinear_arith)
            requires
                n < m,
                ps == pt,
                ps > 0,
        ;
    }
}

/// Fixed-point coordinates are ordered as the numbers they stand for.
pub proof fn fixed_coordinates_keep_their_order(a: Coord, b: Coord, n: int, m: int)
    requires
        is_fixed(a, n),
        is_fixed(b, m),
    ensures
        rank(a) <= rank(b) <==> n <= m,
        rank(a) == rank(b) <==> n == m,
{
    if n == m {
        lemma_one_double(a, b, n);
    } else {
        if n < m {
            lemma_ordered(a, b, n, m);
        } else {
            lemma_ordered(b, a, m, n);
        }
    }
}

/// The positive coordinate of the same size.
spec fn unsigned(c: Coord) -> Coord {
    Coord { bits: c.bits % SIGN }
}

proof fn lemma_ordered(a: Coord, b: Coord, n: int, m: int)
    requires
        n < m,
        is_fixed(a, n),
        is_fixed(b, m),
    ensures
        rank(a) < rank(b),
{
    if 0 < n {
        lemma_magnitudes_ordered(a, b, n, m);
    } else if m < 0 {
        assert(unsigned(a).bits % SIGN == a.bits % SIGN);
        assert(unsigned(b).bits % SIGN == b.bits % SIGN);
        lemma_magnitudes_ordered(unsigned(b), unsigned(a), -m, -n);
    } else {
        if n < 0 {
            lemma_nonzero(a, n);
        }
        if m > 0 {
            lemma_nonzero(b, m);
        }
    }
}

proof fn lemma_nonzero(c: Coord, n: int)
    requires
        n != 0,
        is_fixed(c, n),
    ensures
        c.bits % SIGN > 0,
{
    if c.bits % SIGN == 0 {
        // The exponent would be zero, which no value of this size has.
        let magnitude: int = if n < 0 {
            -n
        } else {
            n
        };
        lemma_pow2_52();
        lemma_pow2_strictly_increases(52, 1059);
        assert(magnitude * pow2(1059) > FRACTION) by (nonlinear_arith)
            requires
                magnitude >= 1,
                pow2(1059) > FRACTION,
        ;
    }
}

proof fn lemma_one_double(a: Coord, b: Coord, n: int)
    requires
        is_fixed(a, n),
        is_fixed(b, n),
    ensures
        a == b,
{
    if n != 0 {
        let magnitude: int = if n < 0 {
            -n
        } else {
            n
        };
        let s = (1059 - a.bits % SIGN / FRACTION) as nat;
        let t = (1059 - b.bits % SIGN / FRACTION) as nat;
        if s < t {
            lemma_one_exponent(magnitude, s, t);
        } else if t < s {
            lemma_one_exponent(magnitude, t, s);
        }
    }
}

proof fn lemma_one_exponent(magnitude: int, s: nat, t: nat)
    requires
        magnitude > 0,
        s < t,
    ensures
        magnitude * pow2(t) >= 2 * (magnitude * pow2(s)),
{
    lemma_pow2_unfold((s + 1) as nat);
    lemma_pow2_pos(s);
    if s + 1 < t {
        lemma_pow2_strictly_increases((s + 1) as nat, t);
    }
    let ps = pow2(s);
    let pt = pow2(t);
    assert(magnitude * pt >= 2 * (magnitude * ps)) by (nonlinear_arith)
        requires
            magnitude > 0,
            pt >= 2 * ps,
    ;
}

} // verus!
