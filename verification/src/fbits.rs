//! Single-precision scores carried as their IEEE-754 bit patterns (`f32::to_bits`).
//!
//! The library never does arithmetic on such values; it only stores and compares
//! them. Comparison follows IEEE-754: NaN is unordered, `+0` and `-0` are equal,
//! and otherwise values order by sign and magnitude.
use vstd::prelude::*;

verus! {

/// Bit pattern of the sign bit.
pub const SIGN_BIT: u32 = 0x8000_0000;

/// Bit pattern of `+infinity`; magnitudes above it are NaNs.
pub const POS_INF_BITS: u32 = 0x7f80_0000;

/// True when the pattern encodes a NaN.
pub open spec fn spec_is_nan(b: u32) -> bool {
    b % 0x8000_0000 > 0x7f80_0000
}

/// The position of a non-NaN pattern on the real line: equal for equal values
/// (so `+0` and `-0` share rank 0), ordered like the values they encode.
pub open spec fn rank(b: u32) -> int {
    if b >= 0x8000_0000 {
        -((b - 0x8000_0000) as int)
    } else {
        b as int
    }
}

/// IEEE `a >= b`.
pub open spec fn spec_ge(a: u32, b: u32) -> bool {
    !spec_is_nan(a) && !spec_is_nan(b) && rank(a) >= rank(b)
}

/// IEEE `a > b`.
pub open spec fn spec_gt(a: u32, b: u32) -> bool {
    !spec_is_nan(a) && !spec_is_nan(b) && rank(a) > rank(b)
}

pub fn is_nan(b: u32) -> (r: bool)
    ensures
        r == spec_is_nan(b),
{
    b % SIGN_BIT > POS_INF_BITS
}

fn rank_of(b: u32) -> (r: i64)
    ensures
        r == rank(b),
{
    if b >= SIGN_BIT {
        -((b - SIGN_BIT) as i64)
    } else {
        b as i64
    }
}

/// IEEE `a >= b` on bit patterns.
pub fn ge(a: u32, b: u32) -> (r: bool)
    ensures
        r == spec_ge(a, b),
{
    !is_nan(a) && !is_nan(b) && rank_of(a) >= rank_of(b)
}

/// 2 to the power `k`.
pub open spec fn p2(k: nat) -> nat
    decreases k,
{
    if k == 0 {
        1
    } else {
        2 * p2((k - 1) as nat)
    }
}

/// Number of binary digits of `n` (0 for 0).
pub open spec fn bit_length(n: nat) -> nat
    decreases n,
{
    if n == 0 {
        0
    } else {
        1 + bit_length(n / 2)
    }
}

pub proof fn lemma_p2_add(a: nat, b: nat)
    ensures
        p2(a) * p2(b) == p2(a + b),
    decreases a,
{
    if a == 0 {
        assert(p2(0) == 1);
    } else {
        let a1 = (a - 1) as nat;
        lemma_p2_add(a1, b);
        let x = p2(a1);
        let y = p2(b);
        assert(p2(a) == 2 * x);
        assert(a + b == (a1 + b) + 1);
        assert(p2(a + b) == 2 * p2(a1 + b));
        assert((2 * x) * y == 2 * (x * y)) by (nonlinear_arith);
    }
}

pub proof fn lemma_p2_positive(k: nat)
    ensures
        p2(k) >= 1,
    decreases k,
{
    if k > 0 {
        lemma_p2_positive((k - 1) as nat);
    }
}

pub proof fn lemma_p2_monotone(a: nat, b: nat)
    requires
        a < b,
    ensures
        p2(a) < p2(b),
    decreases b,
{
    lemma_p2_positive(a);
    if a < b - 1 {
        lemma_p2_monotone(a, (b - 1) as nat);
    }
}

pub proof fn lemma_p2_constants()
    ensures
        p2(23) == 0x80_0000,
        p2(24) == 0x100_0000,
        p2(40) == 0x100_0000_0000,
        p2(64) == 0x1_0000_0000_0000_0000,
{
    reveal_with_fuel(p2, 65);
}

pub proof fn lemma_bit_length_bounds(n: nat)
    requires
        n > 0,
    ensures
        bit_length(n) >= 1,
        p2((bit_length(n) - 1) as nat) <= n < p2(bit_length(n)),
    decreases n,
{
    if n > 1 {
        lemma_bit_length_bounds(n / 2);
        let h = bit_length(n / 2);
        assert(bit_length(n) == 1 + h);
        assert(p2(h) == 2 * p2((h - 1) as nat));
        assert(p2(h + 1) == 2 * p2(h));
    } else {
        assert(bit_length(0) == 0);
        assert(bit_length(1) == 1);
        assert(p2(1) == 2 * p2(0));
    }
}

/// A 64-bit value has at most 64 binary digits.
pub proof fn lemma_bit_length_u64(n: u64)
    requires
        n > 0,
    ensures
        1 <= bit_length(n as nat) <= 64,
{
    lemma_bit_length_bounds(n as nat);
    lemma_p2_constants();
    if bit_length(n as nat) > 64 {
        lemma_p2_monotone(64, (bit_length(n as nat) - 1) as nat);
    }
}

/// The single-precision value nearest to `n` (ties to even), as bits: what `n as f32`
/// gives for an unsigned integer.
pub open spec fn spec_count_bits(n: u64) -> u32 {
    if n == 0 {
        0
    } else {
        let e = (bit_length(n as nat) - 1) as nat;
        if e <= 23 {
            ((127 + e) * 0x80_0000 + (n * p2((23 - e) as nat) - 0x80_0000)) as u32
        } else {
            let s = (e - 23) as nat;
            let q = (n as nat) / p2(s);
            let r = (n as nat) % p2(s);
            let half = p2((s - 1) as nat);
            let q2: nat = if r > half || (r == half && q % 2 == 1) {
                q + 1
            } else {
                q
            };
            if q2 == 0x100_0000 {
                ((128 + e) * 0x80_0000) as u32
            } else {
                ((127 + e) * 0x80_0000 + (q2 - 0x80_0000)) as u32
            }
        }
    }
}

/// `n as f32`, as bits (see [`spec_count_bits`]).
pub fn count_bits(n: u64) -> (r: u32)
    ensures
        r == spec_count_bits(n),
{
    if n == 0 {
        return 0;
    }
    proof {
        lemma_bit_length_bounds(n as nat);
        lemma_bit_length_u64(n);
        lemma_p2_constants();
    }
    let mut e: u64 = 0;
    let mut t: u64 = n;
    while t > 1
        invariant
            t >= 1,
            bit_length(n as nat) <= 64,
            bit_length(n as nat) == e + bit_length(t as nat),
            bit_length(t as nat) >= 1,
        decreases t,
    {
        proof {
            lemma_bit_length_bounds((t / 2) as nat);
        }
        t = t / 2;
        e = e + 1;
    }
    proof {
        assert(bit_length(1) == 1) by {
            assert(bit_length(0) == 0);
        }
    }
    let ghost en = (bit_length(n as nat) - 1) as nat;
    assert(e == en);
    if e <= 23 {
        let mut pw: u64 = 1;
        let mut k: u64 = 0;
        while k < 23 - e
            invariant
                e <= 23,
                k <= 23 - e,
                pw == p2(k as nat),
                p2(23) == 0x80_0000,
            decreases 23 - e - k,
        {
            proof {
                if k + 1 < 23 {
                    lemma_p2_monotone(k as nat + 1, 23);
                }
            }
            pw = pw * 2;
            k = k + 1;
        }
        proof {
            lemma_p2_add(e as nat + 1, (23 - e) as nat);
            lemma_p2_add(e as nat, (23 - e) as nat);
            lemma_p2_positive(k as nat);
            assert(n * pw < p2(e as nat + 1) * pw) by (nonlinear_arith)
                requires
                    (n as int) < p2(e as nat + 1),
                    pw >= 1,
            ;
            assert(n * pw >= p2(e as nat) * pw) by (nonlinear_arith)
                requires
                    (n as int) >= p2(e as nat),
                    pw >= 1,
            ;
            assert(e as nat + 1 + (23 - e) == 24);
        }
        let m = n * pw;
        ((127 + e) * 0x80_0000 + (m - 0x80_0000)) as u32
    } else {
        let s = e - 23;
        let mut pw: u64 = 1;
        let mut k: u64 = 0;
        while k < s
            invariant
                s == e - 23,
                e <= 63,
                k <= s,
                pw == p2(k as nat),
                pw >= 1,
                p2(40) == 0x100_0000_0000,
            decreases s - k,
        {
            proof {
                if k + 1 < 40 {
                    lemma_p2_monotone(k as nat + 1, 40);
                }
                lemma_p2_positive(k as nat + 1);
            }
            pw = pw * 2;
            k = k + 1;
        }
        let q = n / pw;
        let r = n % pw;
        let half = pw / 2;
        proof {
            lemma_p2_positive(s as nat);
            assert(p2(s as nat) == 2 * p2((s - 1) as nat));
            lemma_p2_add(s as nat, 24);
            lemma_p2_add(s as nat, 23);
            assert(s + 24 == e + 1);
            assert(s + 23 == e);
            assert(q < 0x100_0000 && q >= 0x80_0000) by (nonlinear_arith)
                requires
                    (n as int) < pw * 0x100_0000,
                    (n as int) >= pw * 0x80_0000,
                    q == n / pw,
                    pw >= 1,
            ;
        }
        let q2 = if r > half || (r == half && q % 2 == 1) { q + 1 } else { q };
        if q2 == 0x100_0000 {
            ((128 + e) * 0x80_0000) as u32
        } else {
            ((127 + e) * 0x80_0000 + (q2 - 0x80_0000)) as u32
        }
    }
}

} // verus!
