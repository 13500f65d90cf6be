//! Binary64 floating-point numbers, held as their IEEE-754 bit patterns.
//!
//! The library never computes with floating-point values themselves; it
//! only reads and rearranges their bits: the sign, the total order, the
//! conversion from integers and the saturating conversion to `usize`.
use vstd::prelude::*;
use vstd::arithmetic::power2::*;

verus! {

/// The sign bit of a binary64 bit pattern.
pub open spec fn sign_mask() -> int {
    0x8000_0000_0000_0000
}

/// Integer whose signed order on bit patterns is the IEEE total order
/// (negative NaN < -inf < ... < -0 < +0 < ... < +inf < positive NaN).
pub open spec fn total_key(b: u64) -> int {
    if b < sign_mask() {
        b as int
    } else {
        0x7FFF_FFFF_FFFF_FFFF - b
    }
}

/// True if the bits stand for +0 or -0.
pub open spec fn is_zero_bits(b: u64) -> bool {
    b == 0 || b == sign_mask()
}

/// True if the bits stand for a NaN.
pub open spec fn is_nan_bits(b: u64) -> bool {
    abs_bits(b) > 0x7FF0_0000_0000_0000
}

/// The bits of `-x`: the sign bit flipped.
pub open spec fn neg_bits(b: u64) -> u64 {
    if b < sign_mask() {
        (b + sign_mask()) as u64
    } else {
        (b - sign_mask()) as u64
    }
}

/// The bits of `x.abs()`: the sign bit cleared.
pub open spec fn abs_bits(b: u64) -> u64 {
    if b < sign_mask() {
        b
    } else {
        (b - sign_mask()) as u64
    }
}

/// True if the value with these bits compares `< 0.0`
/// (a negative number other than -0, NaN excluded).
pub open spec fn lt_zero_bits(b: u64) -> bool {
    b > sign_mask() && !is_nan_bits(b)
}

/// Exponent of the highest set bit of `m` (0 for `m <= 1`).
pub open spec fn log2_floor(m: nat) -> nat
    decreases m,
{
    if m <= 1 {
        0
    } else {
        1 + log2_floor(m / 2)
    }
}

/// Significand (with the implicit bit) of the nearest binary64 number
/// to `m >= 1`, ties to even: `m` scaled to 53 bits.
pub open spec fn rounded_significand(m: nat) -> nat {
    let e = log2_floor(m);
    if e <= 52 {
        m * pow2((52 - e) as nat)
    } else {
        let s = (e - 52) as nat;
        let q = m / pow2(s);
        let r = m % pow2(s);
        let h = pow2((s - 1) as nat);
        if r > h || (r == h && q % 2 == 1) {
            q + 1
        } else {
            q
        }
    }
}

/// Bits of the binary64 number nearest to the natural number `m`, ties
/// to even: what `m as f64` gives.
pub open spec fn nat_f64_bits(m: nat) -> nat {
    if m == 0 {
        0
    } else {
        ((log2_floor(m) + 1023) * pow2(52) + rounded_significand(m) - pow2(52)) as nat
    }
}

/// Bits of the binary64 number nearest to the integer `i`.
pub open spec fn int_f64_bits(i: int) -> u64 {
    if i < 0 {
        (nat_f64_bits((-i) as nat) + sign_mask()) as u64
    } else {
        nat_f64_bits(i as nat) as u64
    }
}

/// The biased exponent field of a bit pattern.
pub open spec fn exponent_field(b: u64) -> nat {
    (abs_bits(b) as nat) / pow2(52)
}

/// The fraction field of a bit pattern.
pub open spec fn fraction_field(b: u64) -> nat {
    (b as nat) % pow2(52)
}

/// `x as usize` for the value with bits `b`: truncated toward zero,
/// NaN and negative values give 0, values too large give `usize::MAX`.
pub open spec fn f64_bits_to_usize(b: u64) -> usize {
    let e = exponent_field(b);
    let sig = pow2(52) + fraction_field(b);
    if is_nan_bits(b) || b >= sign_mask() || e < 1023 {
        0
    } else if e == 2047 {
        usize::MAX
    } else {
        let v = if e >= 1075 {
            sig * pow2((e - 1075) as nat)
        } else {
            sig / pow2((1075 - e) as nat)
        };
        if v > usize::MAX {
            usize::MAX
        } else {
            v as usize
        }
    }
}

/// The order key of a bit pattern, see [`total_key`].
pub fn total_key_of(b: u64) -> (k: i64)
    ensures
        k == total_key(b),
{
    if b < 0x8000_0000_0000_0000 {
        b as i64
    } else {
        let low: u64 = b - 0x8000_0000_0000_0000;
        -(low as i64) - 1
    }
}

/// True if `b` stands for +0 or -0.
pub fn is_zero(b: u64) -> (r: bool)
    ensures
        r == is_zero_bits(b),
{
    b == 0 || b == 0x8000_0000_0000_0000
}

/// Bits of the negation.
pub fn negate_bits(b: u64) -> (r: u64)
    ensures
        r == neg_bits(b),
{
    if b < 0x8000_0000_0000_0000 {
        b + 0x8000_0000_0000_0000
    } else {
        b - 0x8000_0000_0000_0000
    }
}

/// Bits of the absolute value.
pub fn absolute_bits(b: u64) -> (r: u64)
    ensures
        r == abs_bits(b),
{
    if b < 0x8000_0000_0000_0000 {
        b
    } else {
        b - 0x8000_0000_0000_0000
    }
}

/// True if the value compares `< 0.0`.
pub fn is_below_zero(b: u64) -> (r: bool)
    ensures
        r == lt_zero_bits(b),
{
    let a = absolute_bits(b);
    b > 0x8000_0000_0000_0000 && a <= 0x7FF0_0000_0000_0000
}

proof fn lemma_pow2_values()
    ensures
        pow2(52) == 0x10_0000_0000_0000,
        pow2(53) == 0x20_0000_0000_0000,
        pow2(63) == 0x8000_0000_0000_0000,
        pow2(64) == 0x1_0000_0000_0000_0000,
{
    lemma2_to64();
    lemma2_to64_rest();
}

proof fn lemma_pow2_le(a: nat, b: nat)
    requires
        a <= b,
    ensures
        pow2(a) <= pow2(b),
{
    if a < b {
        lemma_pow2_strictly_increases(a, b);
    }
}

/// `2^k` as a machine word.
fn pow2_u64(k: u64) -> (p: u64)
    requires
        k < 64,
    ensures
        p == pow2(k as nat),
{
    let mut p: u64 = 1;
    let mut i: u64 = 0;
    proof {
        lemma2_to64();
    }
    while i < k
        invariant
            i <= k < 64,
            p == pow2(i as nat),
        decreases k - i,
    {
        proof {
            lemma_pow2_unfold((i + 1) as nat);
            lemma_pow2_le((i + 1) as nat, 63);
            lemma_pow2_values();
        }
        p = p * 2;
        i = i + 1;
    }
    p
}

/// `2^l <= m < 2^(l+1)` for `l = log2_floor(m)`.
proof fn lemma_log2_bounds(m: nat)
    requires
        m >= 1,
    ensures
        pow2(log2_floor(m)) <= m < pow2(log2_floor(m) + 1),
    decreases m,
{
    if m <= 1 {
        lemma2_to64();
    } else {
        lemma_log2_bounds(m / 2);
        let l = log2_floor(m / 2);
        lemma_pow2_unfold(l + 1);
        lemma_pow2_unfold(l + 2);
    }
}

/// The binary64 bits of the natural number `m` (what `m as f64` gives).
pub fn nat_to_f64_bits(m: u64) -> (r: u64)
    ensures
        r == nat_f64_bits(m as nat),
        r < 0x7FF0_0000_0000_0000,
{
    if m == 0 {
        return 0;
    }
    let mut t: u64 = m;
    let mut e: u64 = 0;
    proof {
        lemma2_to64();
    }
    while t > 1
        invariant
            t >= 1,
            e + log2_floor(t as nat) == log2_floor(m as nat),
            e <= 64,
            t <= m,
            m >= 1,
            t as nat * pow2(e as nat) <= m,
        decreases t,
    {
        proof {
            lemma_pow2_unfold((e + 1) as nat);
            assert((t / 2) as nat * pow2((e + 1) as nat) <= m) by (nonlinear_arith)
                requires
                    t as nat * pow2(e as nat) <= m,
                    pow2((e + 1) as nat) == 2 * pow2(e as nat),
            ;
            lemma_pow2_pos(e as nat);
            if e >= 63 {
                lemma_pow2_le(64, (e + 1) as nat);
                lemma_pow2_values();
                assert(false) by (nonlinear_arith)
                    requires
                        t >= 2,
                        (t / 2) as nat * pow2((e + 1) as nat) <= m,
                        pow2((e + 1) as nat) >= 0x1_0000_0000_0000_0000,
                        m <= 0xFFFF_FFFF_FFFF_FFFF,
                ;
            }
        }
        t = t / 2;
        e = e + 1;
    }
    proof {
        lemma_log2_bounds(m as nat);
        lemma_pow2_values();
        if e >= 64 {
            lemma_pow2_le(64, e as nat);
        }
    }
    assert(e < 64);
    let ghost me = e as nat;
    assert(log2_floor(m as nat) == me);
    let sig: u64;
    if e <= 52 {
        let p = pow2_u64(52 - e);
        proof {
            lemma_pow2_adds((me + 1) as nat, (52 - me) as nat);
            assert(m as nat * pow2((52 - me) as nat) < pow2(53)) by (nonlinear_arith)
                requires
                    m < pow2(me + 1),
                    pow2(((me + 1) + (52 - me)) as nat) == pow2(me + 1) * pow2((52 - me) as nat),
                    ((me + 1) + (52 - me)) as nat == 53,
                    pow2((52 - me) as nat) > 0,
            ;
        }
        sig = m * p;
    } else {
        let s: u64 = e - 52;
        let p = pow2_u64(s);
        let h = pow2_u64(s - 1);
        proof {
            lemma_pow2_pos(s as nat);
        }
        let q = m / p;
        let r = m % p;
        proof {
            lemma_pow2_pos(s as nat);
            lemma_pow2_adds(s as nat, 53);
            assert(((s as nat) + 53) as nat == me + 1);
            assert(q < pow2(53)) by (nonlinear_arith)
                requires
                    m < pow2(s as nat) * pow2(53),
                    q == m as nat / pow2(s as nat),
                    pow2(s as nat) > 0,
            ;
        }
        if r > h || (r == h && q % 2 == 1) {
            sig = q + 1;
        } else {
            sig = q;
        }
    }
    assert(sig == rounded_significand(m as nat));
    proof {
        if e <= 52 {
            lemma_pow2_le(me, 52);
            lemma_pow2_adds(me, (52 - me) as nat);
            assert(pow2(52) <= m as nat * pow2((52 - me) as nat)) by (nonlinear_arith)
                requires
                    pow2(me) <= m,
                    pow2((me + (52 - me)) as nat) == pow2(me) * pow2((52 - me) as nat),
                    (me + (52 - me)) as nat == 52,
                    pow2((52 - me) as nat) > 0,
            ;
        } else {
            let s = (me - 52) as nat;
            lemma_pow2_adds(s, 52);
            lemma_pow2_pos(s);
            assert(pow2(52) <= m as nat / pow2(s)) by (nonlinear_arith)
                requires
                    pow2(me) <= m,
                    pow2((s + 52) as nat) == pow2(s) * pow2(52),
                    (s + 52) as nat == me,
                    pow2(s) > 0,
            ;
        }
    }
    (e + 1023) * 0x10_0000_0000_0000 + sig - 0x10_0000_0000_0000
}

/// `x as usize` for the binary64 value with bits `b`.
pub fn f64_to_usize(b: u64) -> (r: usize)
    ensures
        r == f64_bits_to_usize(b),
{
    proof {
        lemma_pow2_values();
    }
    let a = absolute_bits(b);
    let e = a / 0x10_0000_0000_0000;
    let frac = b % 0x10_0000_0000_0000;
    if a > 0x7FF0_0000_0000_0000 || b >= 0x8000_0000_0000_0000 || e < 1023 {
        return 0;
    }
    if e == 2047 {
        return usize::MAX;
    }
    let sig: u64 = 0x10_0000_0000_0000 + frac;
    if e >= 1075 {
        let k = e - 1075;
        if k >= 12 {
            proof {
                lemma_pow2_le(12, k as nat);
                lemma2_to64();
                assert(sig as nat * pow2(k as nat) >= 0x1_0000_0000_0000_0000) by (nonlinear_arith)
                    requires
                        sig >= 0x10_0000_0000_0000,
                        pow2(k as nat) >= pow2(12),
                        pow2(12) == 0x1000,
                ;
            }
            return usize::MAX;
        }
        let p = pow2_u64(k);
        proof {
            lemma_pow2_le(k as nat, 11);
            lemma2_to64();
            assert(sig as nat * pow2(k as nat) < 0x1_0000_0000_0000_0000) by (nonlinear_arith)
                requires
                    sig < 0x20_0000_0000_0000,
                    pow2(k as nat) <= pow2(11),
                    pow2(11) == 0x800,
            ;
        }
        let v = sig * p;
        if v as u128 > usize::MAX as u128 {
            usize::MAX
        } else {
            v as usize
        }
    } else {
        let k = 1075 - e;
        let p = pow2_u64(k);
        proof {
            lemma_pow2_pos(k as nat);
        }
        let v = sig / p;
        if v as u128 > usize::MAX as u128 {
            usize::MAX
        } else {
            v as usize
        }
    }
}

} // verus!
