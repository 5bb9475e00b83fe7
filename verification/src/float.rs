use vstd::arithmetic::power2::{lemma2_to64, lemma2_to64_rest, lemma_pow2_adds, lemma_pow2_pos,
    lemma_pow2_unfold, pow2};
use vstd::prelude::*;

verus! {

/// 2 to the 52nd: the weight of the hidden bit of a binary64 significand.
pub const HIDDEN_BIT: u64 = 0x10_0000_0000_0000;

/// 2 to the 63rd: the sign bit of a binary64 pattern.
pub const SIGN_BIT: u64 = 0x8000_0000_0000_0000;

/// The bit pattern of positive infinity. A pattern whose low 63 bits are
/// greater is not a number.
pub const INFINITY_BITS: u64 = 0x7ff0_0000_0000_0000;

/// A binary64 pattern without its sign bit.
pub open spec fn magnitude(bits: u64) -> int {
    bits as int % 0x8000_0000_0000_0000
}

pub open spec fn is_nan(bits: u64) -> bool {
    magnitude(bits) > 0x7ff0_0000_0000_0000
}

/// IEEE-754 equality of two binary64 patterns: nothing equals a pattern that
/// is not a number, the two zeros are equal, and any other two are equal
/// where the patterns are.
pub open spec fn float_eq(a: u64, b: u64) -> bool {
    &&& !is_nan(a)
    &&& !is_nan(b)
    &&& (a == b || (magnitude(a) == 0 && magnitude(b) == 0))
}

/// The exponent of the greatest power of two at or below a positive number.
pub open spec fn floor_log2(m: nat) -> nat
    decreases m,
{
    if m <= 1 {
        0
    } else {
        1 + floor_log2(m / 2)
    }
}

/// The binary64 pattern nearest to a positive integer, ties to the even
/// significand: the biased exponent in the bits above the 52nd, and below it
/// the significand without its hidden bit. A significand that rounding takes
/// to 2 to the 53rd carries into the exponent.
pub open spec fn magnitude_bits(m: nat) -> int {
    let e = floor_log2(m);
    if e <= 52 {
        (1023 + e) * 0x10_0000_0000_0000 + (m * pow2((52 - e) as nat) - 0x10_0000_0000_0000)
    } else {
        let d = pow2((e - 52) as nat);
        let q = m / d;
        let r = m % d;
        let up: int = if 2 * r > d || (2 * r == d && q % 2 == 1) {
            1
        } else {
            0
        };
        (1023 + e) * 0x10_0000_0000_0000 + (q - 0x10_0000_0000_0000) + up
    }
}

/// The binary64 pattern that a 64-bit integer converts to.
pub open spec fn integer_bits(i: i64) -> u64 {
    if i == 0 {
        0
    } else if i > 0 {
        magnitude_bits(i as nat) as u64
    } else {
        (0x8000_0000_0000_0000 + magnitude_bits((-i) as nat)) as u64
    }
}

pub fn float_equal(a: u64, b: u64) -> (r: bool)
    ensures
        r == float_eq(a, b),
{
    let ma = a & 0x7fff_ffff_ffff_ffff;
    let mb = b & 0x7fff_ffff_ffff_ffff;
    assert(ma == a % 0x8000_0000_0000_0000) by (bit_vector)
        requires
            ma == a & 0x7fff_ffff_ffff_ffff,
    ;
    assert(mb == b % 0x8000_0000_0000_0000) by (bit_vector)
        requires
            mb == b & 0x7fff_ffff_ffff_ffff,
    ;
    ma <= INFINITY_BITS && mb <= INFINITY_BITS && (a == b || (ma == 0 && mb == 0))
}

proof fn lemma_floor_log2(m: nat, e: nat)
    requires
        pow2(e) <= m < pow2(e + 1),
    ensures
        floor_log2(m) == e,
    decreases e,
{
    lemma2_to64();
    if e == 0 {
    } else {
        lemma_pow2_unfold(e);
        lemma_pow2_unfold(e + 1);
        lemma_pow2_pos((e - 1) as nat);
        lemma_floor_log2(m / 2, (e - 1) as nat);
    }
}

fn magnitude_to_float(m: u64) -> (r: u64)
    requires
        0 < m <= 0x8000_0000_0000_0000,
    ensures
        r == magnitude_bits(m as nat),
        r < 0x8000_0000_0000_0000,
{
    let mut e: u64 = 0;
    let mut p: u64 = 1;
    proof {
        lemma2_to64();
    }
    while p <= m / 2
        invariant
            p == pow2(e as nat),
            1 <= p <= m,
            e <= 63,
            0 < m <= 0x8000_0000_0000_0000,
        decreases m - p,
    {
        proof {
            lemma_pow2_unfold((e + 1) as nat);
            lemma2_to64_rest();
            if e >= 63 {
                assert(pow2(63) == 0x8000_0000_0000_0000);
                assert(false);
            }
        }
        p = p * 2;
        e = e + 1;
    }
    proof {
        lemma_pow2_unfold((e + 1) as nat);
        lemma_floor_log2(m as nat, e as nat);
        lemma2_to64();
        lemma2_to64_rest();
    }
    if e <= 52 {
        let scale = HIDDEN_BIT / p;
        proof {
            lemma_pow2_adds(e as nat, (52 - e) as nat);
            lemma_pow2_pos((52 - e) as nat);
            let s = pow2((52 - e) as nat) as int;
            assert(pow2(52) == 0x10_0000_0000_0000);
            assert(p * s == 0x10_0000_0000_0000);
            assert((p * s) / (p as int) == s) by (nonlinear_arith)
                requires
                    p > 0,
                    s >= 0,
            ;
            assert(scale == s);
            assert(m * s >= p * s) by (nonlinear_arith)
                requires
                    m >= p,
                    s >= 0,
            ;
            assert(m * s < 2 * p * s) by (nonlinear_arith)
                requires
                    m < 2 * p,
                    s > 0,
            ;
            assert(2 * p * s == 2 * (p * s)) by (nonlinear_arith);
        }
        (1023 + e) * HIDDEN_BIT + (m * scale - HIDDEN_BIT)
    } else {
        let d = p / HIDDEN_BIT;
        proof {
            lemma_pow2_adds(52, (e - 52) as nat);
            lemma_pow2_pos((e - 52) as nat);
            let s = pow2((e - 52) as nat) as int;
            assert(pow2(52) == 0x10_0000_0000_0000);
            assert(p == 0x10_0000_0000_0000 * s);
            assert((0x10_0000_0000_0000 * s) / 0x10_0000_0000_0000 == s) by (nonlinear_arith)
                requires
                    s >= 0,
            ;
            assert(d == s);
        }
        let q = m / d;
        let r = m % d;
        proof {
            assert(q >= 0x10_0000_0000_0000 && q < 0x20_0000_0000_0000) by (nonlinear_arith)
                requires
                    q == m / d,
                    d > 0,
                    m >= 0x10_0000_0000_0000 * d,
                    m < 2 * (0x10_0000_0000_0000 * d),
            ;
        }
        let up: u64 = if 2 * r > d || (2 * r == d && q % 2 == 1) {
            1
        } else {
            0
        };
        (1023 + e) * HIDDEN_BIT + (q - HIDDEN_BIT) + up
    }
}

/// Converts a 64-bit integer to binary64, rounding to nearest, ties to even.
pub fn integer_to_float(i: i64) -> (bits: u64)
    ensures
        bits == integer_bits(i),
{
    if i == 0 {
        0
    } else if i > 0 {
        magnitude_to_float(i as u64)
    } else {
        let m: u64 = (-(i + 1)) as u64 + 1;
        SIGN_BIT + magnitude_to_float(m)
    }
}

} // verus!
