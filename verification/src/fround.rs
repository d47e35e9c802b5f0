//! Single-precision addition and subtraction of non-negative values, carried out on their
//! IEEE-754 bit patterns: the exact result, rounded to 24 significant bits, to nearest,
//! ties to even, as the hardware does.
//!
//! Values are measured in units of the smallest subnormal, 2^-149, so every finite
//! non-negative pattern denotes a natural number of units (see [`units`]).
use vstd::prelude::*;
use vstd::arithmetic::power2::{pow2, lemma_pow2_pos, lemma_pow2_unfold, lemma_pow2_adds, lemma_pow2_strictly_increases, lemma2_to64};
use vstd::arithmetic::div_mod::{lemma_fundamental_div_mod, lemma_fundamental_div_mod_converse, lemma_div_denominator};

verus! {

/// A non-negative finite pattern: sign clear, exponent field not all ones.
pub open spec fn nonneg_finite(b: u32) -> bool {
    b < 0x7f80_0000
}

/// The exponent field of a pattern.
pub open spec fn exp_field(b: u32) -> nat {
    (b / 0x80_0000) as nat
}

/// The fraction field of a pattern.
pub open spec fn frac_field(b: u32) -> nat {
    (b % 0x80_0000) as nat
}

/// The significand, with the hidden bit of a normal value.
pub open spec fn significand(b: u32) -> nat {
    if exp_field(b) == 0 { frac_field(b) } else { frac_field(b) + 0x80_0000 }
}

/// The power of two that scales the significand, in units of 2^-149.
pub open spec fn scale(b: u32) -> nat {
    if exp_field(b) == 0 { 0 } else { (exp_field(b) - 1) as nat }
}

/// The value of a non-negative finite pattern, in units of 2^-149.
pub open spec fn units(b: u32) -> nat {
    significand(b) * pow2(scale(b))
}

/// How many low bits of `s` fall below its 24 leading significant bits.
pub open spec fn drop_bits(s: nat) -> nat
    decreases s,
{
    if s < 0x100_0000 { 0 } else { 1 + drop_bits(s / 2) }
}

/// `m` rounded to a multiple of 2^j: to the nearest, on a tie to the even multiple.
pub open spec fn round_at(m: nat, j: nat) -> nat {
    let g = pow2(j);
    let q = m / g;
    let r = m % g;
    if 2 * r > g || (2 * r == g && q % 2 == 1) { (q + 1) * g } else { q * g }
}

/// The single-precision rounding of an exact non-negative quantity: kept to 24 significant
/// bits, to nearest, ties to even.
pub open spec fn round_even(s: nat) -> nat {
    round_at(s, drop_bits(s))
}

/// `drop_bits` of a quantity with its leading bit at position `23 + k`.
pub proof fn lemma_drop_bits(s: nat, k: nat)
    requires
        pow2(23 + k) <= s < pow2(24 + k),
    ensures
        drop_bits(s) == k,
    decreases k,
{
    lemma2_to64();
    if k > 0 {
        if k > 1 {
            lemma_pow2_strictly_increases(24, 23 + k);
        }
        lemma_pow2_unfold(23 + k);
        lemma_pow2_unfold(24 + k);
        assert(pow2((23 + k - 1) as nat) <= s / 2 < pow2((24 + k - 1) as nat));
        lemma_drop_bits(s / 2, (k - 1) as nat);
    }
}

/// A quantity below `2^(24 + k)` drops at most `k` bits.
pub proof fn lemma_drop_bits_bound(s: nat, k: nat)
    requires
        s < pow2(24 + k),
    ensures
        drop_bits(s) <= k,
    decreases k,
{
    lemma2_to64();
    if s >= 0x100_0000 {
        if k == 0 {
            assert(false);
        } else {
            lemma_pow2_unfold(24 + k);
            assert(s / 2 < pow2((24 + k - 1) as nat));
            lemma_drop_bits_bound(s / 2, (k - 1) as nat);
        }
    }
}

/// Rounding `m * 2^e` keeps the scale: it is `m` rounded at `2^j`, scaled, when `m` has
/// its leading bit at `23 + j` (or, for `j == 0`, fits 24 bits and is normalized unless
/// `e == 0`).
pub proof fn lemma_round_scaled(m: nat, j: nat, e: nat)
    requires
        (j == 0 && m < 0x100_0000 && (e == 0 || m >= 0x80_0000)) || (pow2(23 + j) <= m < pow2(24 + j)),
    ensures
        round_even(m * pow2(e)) == round_at(m, j) * pow2(e),
{
    lemma2_to64();
    lemma_pow2_pos(e);
    lemma_pow2_pos(j);
    let pe = pow2(e);
    let pj = pow2(j);
    let s = m * pe;
    if e == 0 && m < 0x100_0000 {
        assert(pe == 1);
        assert(s == m) by (nonlinear_arith)
            requires
                pe == 1,
                s == m * pe,
        ;
        assert(drop_bits(s) == 0);
        assert(pj == 1) by {
            if j > 0 {
                lemma_pow2_strictly_increases(23, 23 + j);
                lemma_pow2_strictly_increases(24, 23 + j);
            }
        }
        assert(m / 1 == m && m % 1 == 0);
        assert(round_at(m, 0) == m);
        assert(round_at(m, j) == m);
    } else {
        assert(pow2(23 + j) <= m < pow2(24 + j)) by {
            if j == 0 {
                assert(pow2(23) == 0x80_0000 && pow2(24) == 0x100_0000);
            }
        }
        let k = j + e;
        lemma_pow2_adds(23 + j, e);
        lemma_pow2_adds(24 + j, e);
        lemma_pow2_adds(j, e);
        assert(pow2(23 + j) * pe <= s < pow2(24 + j) * pe) by (nonlinear_arith)
            requires
                pow2(23 + j) <= m,
                m < pow2(24 + j),
                pe > 0,
                s == m * pe,
        ;
        assert(((23 + j + e) as nat) == 23 + k);
        assert(((24 + j + e) as nat) == 24 + k);
        lemma_drop_bits(s, k);
        let g = pow2(k);
        assert(g == pj * pe);
        let q = m / pj;
        let r = m % pj;
        lemma_fundamental_div_mod(m as int, pj as int);
        assert(m == pj * q + r);
        assert(0 <= r < pj);
        assert(s == q * g + r * pe) by (nonlinear_arith)
            requires
                m == pj * q + r,
                s == m * pe,
                g == pj * pe,
        ;
        assert(0 <= r * pe < g) by (nonlinear_arith)
            requires
                r < pj,
                pe > 0,
                g == pj * pe,
        ;
        lemma_fundamental_div_mod_converse(s as int, g as int, q as int, (r * pe) as int);
        assert(s / g == q && s % g == r * pe);
        assert((2 * (r * pe) > g) == (2 * r > pj)) by (nonlinear_arith)
            requires
                pe > 0,
                g == pj * pe,
        ;
        assert((2 * (r * pe) == g) == (2 * r == pj)) by (nonlinear_arith)
            requires
                pe > 0,
                g == pj * pe,
        ;
        assert((q + 1) * g == ((q + 1) * pj) * pe) by (nonlinear_arith)
            requires
                g == pj * pe,
        ;
        assert(q * g == (q * pj) * pe) by (nonlinear_arith)
            requires
                g == pj * pe,
        ;
    }
}

/// A value that a pattern denotes rounds to itself.
pub proof fn lemma_round_units(b: u32)
    requires
        nonneg_finite(b),
    ensures
        round_even(units(b)) == units(b),
{
    lemma_round_scaled(significand(b), 0, scale(b));
    lemma2_to64();
    assert(round_at(significand(b), 0) == significand(b)) by {
        assert(significand(b) / 1 == significand(b) && significand(b) % 1 == 0);
    }
}

/// Rounding moves a quantity by less than `2^drop_bits`.
pub proof fn lemma_round_error(s: nat)
    ensures
        round_even(s) <= s + pow2(drop_bits(s)),
        s <= round_even(s) + pow2(drop_bits(s)),
{
    let g = pow2(drop_bits(s));
    lemma_pow2_pos(drop_bits(s));
    lemma_fundamental_div_mod(s as int, g as int);
    let q = s / g;
    let r = s % g;
    assert((q + 1) * g == q * g + g) by (nonlinear_arith);
    assert(s == g * q + r);
    assert(q * g == g * q) by (nonlinear_arith);
}

/// The pattern with exponent field `e` and fraction field `f`.
pub proof fn lemma_fields(e: nat, f: nat)
    requires
        e <= 254,
        f < 0x80_0000,
    ensures
        exp_field((e * 0x80_0000 + f) as u32) == e,
        frac_field((e * 0x80_0000 + f) as u32) == f,
        nonneg_finite((e * 0x80_0000 + f) as u32),
{
    let b = e * 0x80_0000 + f;
    assert(b < 0x7f80_0000);
    lemma_fundamental_div_mod_converse(b as int, 0x80_0000, e as int, f as int);
}

/// On non-negative finite patterns, the order of the bits is the order of the values.
pub proof fn lemma_units_order(a: u32, b: u32)
    requires
        nonneg_finite(a),
        nonneg_finite(b),
        a <= b,
    ensures
        units(a) <= units(b),
        a < b ==> units(a) < units(b),
        exp_field(a) <= exp_field(b),
{
    lemma2_to64();
    lemma_fundamental_div_mod(a as int, 0x80_0000);
    lemma_fundamental_div_mod(b as int, 0x80_0000);
    let ea = exp_field(a);
    let eb = exp_field(b);
    assert(ea <= eb);
    lemma_pow2_pos(scale(a));
    lemma_pow2_pos(scale(b));
    if ea == eb {
        assert(significand(a) <= significand(b));
        assert(a < b ==> significand(a) < significand(b));
        let p = pow2(scale(a));
        assert(significand(a) * p <= significand(b) * p) by (nonlinear_arith)
            requires
                significand(a) <= significand(b),
        ;
        if a < b {
            assert(significand(a) * p < significand(b) * p) by (nonlinear_arith)
                requires
                    significand(a) < significand(b),
                    p > 0,
            ;
        }
    } else {
        // the larger exponent field is normal: its value is at least 2^(23 + scale)
        assert(significand(b) >= 0x80_0000);
        let pb = pow2(scale(b));
        assert(units(b) >= 0x80_0000 * pb) by (nonlinear_arith)
            requires
                significand(b) >= 0x80_0000,
                units(b) == significand(b) * pb,
        ;
        if ea == 0 {
            assert(units(a) == significand(a)) by {
                assert(pow2(0) == 1);
            }
            assert(units(a) < 0x80_0000);
            assert(0x80_0000 <= 0x80_0000 * pb) by (nonlinear_arith)
                requires
                    pb > 0,
            ;
        } else {
            let pa = pow2(scale(a));
            assert(units(a) < 0x100_0000 * pa) by (nonlinear_arith)
                requires
                    significand(a) < 0x100_0000,
                    units(a) == significand(a) * pa,
                    pa > 0,
            ;
            // 2^24 * 2^(ea - 1) = 2^23 * 2^ea <= 2^23 * 2^(eb - 1)
            lemma_pow2_unfold(ea);
            assert(pa * 2 == pow2(ea));
            if ea < scale(b) {
                lemma_pow2_strictly_increases(ea, scale(b));
            }
            assert(pow2(ea) <= pb);
            assert(0x100_0000 * pa <= 0x80_0000 * pb) by (nonlinear_arith)
                requires
                    pa * 2 <= pb,
            ;
        }
    }
}

/// `2^96`, the bound of the wide intermediate quantities.
proof fn lemma_pow2_96()
    ensures
        pow2(96) == 0x1_0000_0000_0000_0000_0000_0000,
{
    lemma2_to64();
    lemma_pow2_adds(64, 32);
}

/// `2^d` for a small `d`.
fn pow2_u128(d: u32) -> (p: u128)
    requires
        d <= 64,
    ensures
        p == pow2(d as nat),
{
    let mut p: u128 = 1;
    let mut i: u32 = 0;
    proof {
        lemma2_to64();
    }
    while i < d
        invariant
            i <= d <= 64,
            p == pow2(i as nat),
        decreases d - i,
    {
        proof {
            lemma2_to64();
            lemma_pow2_unfold((i + 1) as nat);
            if i + 1 < 64 {
                lemma_pow2_strictly_increases((i + 1) as nat, 64);
            }
        }
        p = p * 2;
        i = i + 1;
    }
    p
}

/// The significand and scale of a non-negative finite pattern.
fn decode(b: u32) -> (r: (u128, u32))
    requires
        nonneg_finite(b),
    ensures
        r.0 == significand(b),
        r.1 == scale(b),
        r.1 <= 253,
        r.0 < 0x100_0000,
        r.1 > 0 ==> r.0 >= 0x80_0000,
{
    let e = b / 0x80_0000;
    let f = b % 0x80_0000;
    if e == 0 {
        (f as u128, 0)
    } else {
        ((f + 0x80_0000) as u128, e - 1)
    }
}

/// The quantity `m * 2^e` (in units of 2^-149), rounded to single precision, as a pattern.
fn encode_rounded(m: u128, e: u32) -> (b: u32)
    requires
        m < 0x1_0000_0000_0000_0000_0000_0000,
        e <= 253,
        m * pow2(e as nat) < pow2(151),
    ensures
        nonneg_finite(b),
        units(b) == round_even((m as nat) * pow2(e as nat)),
{
    proof {
        lemma2_to64();
    }
    let ghost s = m * pow2(e as nat);
    // normalize: bring the leading bit up to position 23 while the scale allows it
    let mut m = m;
    let mut e = e;
    while m < 0x80_0000 && e > 0
        invariant
            m < 0x1_0000_0000_0000_0000_0000_0000,
            e <= 253,
            m * pow2(e as nat) == s,
        decreases e,
    {
        proof {
            lemma_pow2_unfold(e as nat);
            assert((m * 2) * pow2((e - 1) as nat) == m * pow2(e as nat)) by (nonlinear_arith)
                requires
                    pow2(e as nat) == 2 * pow2((e - 1) as nat),
            ;
        }
        m = m * 2;
        e = e - 1;
    }
    if m < 0x100_0000 {
        // exact: 24 bits suffice
        proof {
            lemma_round_scaled(m as nat, 0, e as nat);
            assert(round_at(m as nat, 0) == m) by {
                assert(m as nat / 1 == m && m as nat % 1 == 0);
            }
        }
        if m >= 0x80_0000 {
            let f = (m - 0x80_0000) as u32;
            proof {
                lemma_fields((e + 1) as nat, f as nat);
            }
            let b = (e + 1) * 0x80_0000 + f;
            proof {
                assert(significand(b) == m);
                assert(scale(b) == e);
            }
            b
        } else {
            // a subnormal: the scale reached zero
            proof {
                lemma_fields(0, m as nat);
                assert(pow2(0) == 1);
            }
            m as u32
        }
    } else {
        // find j with 2^(23 + j) <= m < 2^(24 + j)
        let mut q: u128 = m;
        let mut g: u128 = 1;
        let mut j: u32 = 0;
        while q >= 0x100_0000
            invariant
                m >= 0x100_0000,
                m < 0x1_0000_0000_0000_0000_0000_0000,
                g == pow2(j as nat),
                g <= m,
                q == (m as nat) / (g as nat),
                j <= 96,
                j > 0 ==> q >= 0x80_0000,
            decreases q,
        {
            proof {
                lemma_pow2_unfold((j + 1) as nat);
                lemma_pow2_pos(j as nat);
                lemma_div_denominator(m as int, g as int, 2);
                lemma_fundamental_div_mod(m as int, g as int);
                assert(g * q <= m);
                assert(g * 2 <= m) by (nonlinear_arith)
                    requires
                        g * q <= m,
                        q >= 2,
                        g > 0,
                ;
                assert(j + 1 <= 96) by {
                    if j + 1 > 96 {
                        lemma_pow2_strictly_increases(96, (j + 1) as nat);
                        lemma_pow2_96();
                    }
                }
            }
            q = q / 2;
            g = g * 2;
            j = j + 1;
        }
        proof {
            lemma_pow2_pos(j as nat);
            lemma_fundamental_div_mod(m as int, g as int);
            lemma_pow2_adds(23, j as nat);
            lemma_pow2_adds(24, j as nat);
            assert(j > 0);
            assert(pow2(23) * g <= m < pow2(24) * g) by (nonlinear_arith)
                requires
                    m == g * q + (m as nat) % (g as nat),
                    (m as nat) % (g as nat) < g,
                    0x80_0000 <= q,
                    q < 0x100_0000,
                    pow2(23) == 0x80_0000,
                    pow2(24) == 0x100_0000,
            ;
            lemma_round_scaled(m as nat, j as nat, e as nat);
        }
        let r = m - q * g;
        let up = 2 * r > g || (2 * r == g && q % 2 == 1);
        let mut qq: u128 = if up { q + 1 } else { q };
        let mut jj: u32 = j;
        proof {
            assert(r == (m as nat) % (g as nat));
            assert(round_at(m as nat, j as nat) == qq * g);
        }
        if qq == 0x100_0000 {
            proof {
                lemma_pow2_unfold((j + 1) as nat);
                assert(qq * g == 0x80_0000 * pow2((j + 1) as nat));
            }
            qq = 0x80_0000;
            jj = j + 1;
        }
        proof {
            lemma_pow2_adds(jj as nat, e as nat);
            lemma_pow2_pos(e as nat);
            assert(round_at(m as nat, j as nat) == qq * pow2(jj as nat));
            assert(round_at(m as nat, j as nat) * pow2(e as nat) == qq * pow2((jj + e) as nat)) by (nonlinear_arith)
                requires
                    round_at(m as nat, j as nat) == qq * pow2(jj as nat),
                    pow2((jj + e) as nat) == pow2(jj as nat) * pow2(e as nat),
            ;
            // no overflow: the leading bit of m * 2^e sits at 23 + j + e < 151
            assert(j + e < 128) by {
                if j + e >= 128 {
                    lemma_pow2_adds((23 + j) as nat, e as nat);
                    assert(pow2((23 + j) as nat) * pow2(e as nat) <= m * pow2(e as nat)) by (nonlinear_arith)
                        requires
                            pow2((23 + j) as nat) <= m,
                    ;
                    if 23 + j + e > 151 {
                        lemma_pow2_strictly_increases(151, (23 + j + e) as nat);
                    }
                }
            }
            lemma_fields((jj + e + 1) as nat, (qq - 0x80_0000) as nat);
        }
        let b = (jj + e + 1) * 0x80_0000 + (qq - 0x80_0000) as u32;
        proof {
            assert(significand(b) == qq);
            assert(scale(b) == jj + e);
        }
        b
    }
}

/// The pattern of a value that single precision represents: a value below 2^24 units is
/// its own pattern (subnormal, or normal with exponent field 1); above, the exponent field
/// counts the dropped bits plus one and the fraction holds the 23 bits after the leading one.
pub open spec fn pattern_of(v: nat) -> u32 {
    if v < 0x100_0000 {
        v as u32
    } else {
        (drop_bits(v) * 0x80_0000 + v / pow2(drop_bits(v))) as u32
    }
}

/// The pattern of the single-precision sum of two non-negative values.
pub open spec fn spec_add(a: u32, b: u32) -> u32 {
    pattern_of(round_even(units(a) + units(b)))
}

/// The pattern of the single-precision difference of two non-negative values, `a` above `b`.
pub open spec fn spec_sub(a: u32, b: u32) -> u32 {
    pattern_of(round_even((units(a) - units(b)) as nat))
}

/// A quantity of at least 2^24 has its leading bit at `23 + drop_bits`.
pub proof fn lemma_drop_bits_bracket(s: nat)
    requires
        s >= 0x100_0000,
    ensures
        pow2(23 + drop_bits(s)) <= s < pow2(24 + drop_bits(s)),
    decreases s,
{
    lemma2_to64();
    let k = drop_bits(s);
    assert(k == 1 + drop_bits(s / 2));
    lemma_pow2_unfold(23 + k);
    lemma_pow2_unfold(24 + k);
    if s / 2 < 0x100_0000 {
        assert(k == 1);
    } else {
        lemma_drop_bits_bracket(s / 2);
        assert(((23 + k - 1) as nat) == 23 + drop_bits(s / 2));
    }
}

/// A rounded quantity below 2^151 units is represented, by [`pattern_of`].
pub proof fn lemma_pattern_of_round(s: nat)
    requires
        s < pow2(151),
    ensures
        nonneg_finite(pattern_of(round_even(s))),
        units(pattern_of(round_even(s))) == round_even(s),
{
    lemma2_to64();
    let v = round_even(s);
    if s < 0x100_0000 {
        assert(drop_bits(s) == 0);
        assert(s / 1 == s && s % 1 == 0);
        assert(v == s);
        if v >= 0x80_0000 {
            lemma_fields(1, (v - 0x80_0000) as nat);
            assert(((1 * 0x80_0000 + (v - 0x80_0000)) as u32) == v as u32);
        } else {
            lemma_fields(0, v);
        }
    } else {
        let k = drop_bits(s);
        lemma_drop_bits_bracket(s);
        lemma_drop_bits_bound(s, 127);
        let g = pow2(k);
        lemma_pow2_pos(k);
        lemma_pow2_adds(23, k);
        lemma_pow2_adds(24, k);
        lemma_pow2_adds(25, k);
        let q = s / g;
        lemma_fundamental_div_mod(s as int, g as int);
        assert(0x80_0000 <= q < 0x100_0000) by (nonlinear_arith)
            requires
                0x80_0000 * g <= s,
                s < 0x100_0000 * g,
                s == g * q + s % g,
                0 <= s % g < g,
        ;
        assert(k >= 1) by {
            if k == 0 {
                assert(g == 1);
            }
        }
        let qq: nat = if v == (q + 1) * g { q + 1 } else { q };
        assert(v == qq * g);
        if qq < 0x100_0000 {
            assert(0x80_0000 * g <= v < 0x100_0000 * g) by (nonlinear_arith)
                requires
                    v == qq * g,
                    0x80_0000 <= qq,
                    qq < 0x100_0000,
                    g > 0,
            ;
            lemma_drop_bits(v, k);
            lemma_fundamental_div_mod_converse(v as int, g as int, qq as int, 0);
            lemma_fields(k + 1, (qq - 0x80_0000) as nat);
            assert(((k + 1) * 0x80_0000 + (qq - 0x80_0000)) == k * 0x80_0000 + qq);
        } else {
            assert(qq == 0x100_0000);
            lemma_pow2_unfold(k + 1);
            lemma_pow2_adds(23, k + 1);
            lemma_pow2_adds(24, k + 1);
            assert(v == 0x80_0000 * pow2(k + 1));
            assert(0x80_0000 * pow2(k + 1) <= v < 0x100_0000 * pow2(k + 1));
            lemma_drop_bits(v, k + 1);
            lemma_pow2_pos(k + 1);
            lemma_fundamental_div_mod_converse(v as int, pow2(k + 1) as int, 0x80_0000, 0);
            lemma_fields(k + 2, 0);
            assert(((k + 2) * 0x80_0000 + 0) == (k + 1) * 0x80_0000 + 0x80_0000);
        }
    }
}

/// Two non-negative finite patterns with the same value are the same pattern.
pub proof fn lemma_units_injective(a: u32, b: u32)
    requires
        nonneg_finite(a),
        nonneg_finite(b),
        units(a) == units(b),
    ensures
        a == b,
{
    if a < b {
        lemma_units_order(a, b);
    } else if b < a {
        lemma_units_order(b, a);
    }
}

/// `units` of a value at most 2.0 is at most 2^150.
proof fn lemma_units_below_two(a: u32)
    requires
        a < 0x4000_0000,
    ensures
        units(a) < pow2(150),
        nonneg_finite(a),
{
    lemma2_to64();
    lemma_units_order(a, 0x4000_0000);
    lemma_fields(128, 0);
    assert((128 * 0x80_0000 + 0) as u32 == 0x4000_0000u32);
    lemma_pow2_adds(23, 127);
    assert(units(0x4000_0000) == pow2(150));
}

/// Single-precision `a + b` of two non-negative values below 2.0, on their patterns.
pub fn add_nonneg(a: u32, b: u32) -> (r: u32)
    requires
        a < 0x4000_0000,
        b < 0x4000_0000,
    ensures
        nonneg_finite(r),
        units(r) == round_even(units(a) + units(b)),
        r == spec_add(a, b),
{
    proof {
        lemma_units_below_two(a);
        lemma_units_below_two(b);
        lemma2_to64();
    }
    let (x, y) = if a >= b { (a, b) } else { (b, a) };
    proof {
        lemma_units_order(y, x);
    }
    let (mx, ex) = decode(x);
    let (my, ey) = decode(y);
    let d = ex - ey;
    proof {
        lemma_pow2_adds(d as nat, ey as nat);
        lemma_pow2_pos(d as nat);
        lemma_pow2_pos(ey as nat);
        assert(units(x) == (mx * pow2(d as nat)) * pow2(ey as nat)) by (nonlinear_arith)
            requires
                units(x) == mx * pow2(ex as nat),
                pow2(ex as nat) == pow2(d as nat) * pow2(ey as nat),
        ;
        assert(units(x) + units(y) == (mx * pow2(d as nat) + my) * pow2(ey as nat)) by (nonlinear_arith)
            requires
                units(x) == (mx * pow2(d as nat)) * pow2(ey as nat),
                units(y) == my * pow2(ey as nat),
        ;
    }
    let r = if my == 0 {
        proof {
            lemma_round_units(x);
        }
        x
    } else if d > 60 {
        // the smaller addend lies below half a unit in the last place of the larger
        proof {
            let g = pow2(d as nat);
            let m = mx * g + my;
            lemma_pow2_strictly_increases(24, d as nat);
            lemma_pow2_adds(23, d as nat);
            lemma_pow2_adds(24, d as nat);
            assert(pow2(23 + d as nat) <= m < pow2(24 + d as nat)) by (nonlinear_arith)
                requires
                    0x80_0000 <= mx,
                    mx < 0x100_0000,
                    my < 0x100_0000,
                    0x100_0000 < g,
                    m == mx * g + my,
                    pow2(23 + d as nat) == 0x80_0000 * g,
                    pow2(24 + d as nat) == 0x100_0000 * g,
            ;
            lemma_round_scaled(m as nat, d as nat, ey as nat);
            lemma_pow2_strictly_increases(25, d as nat);
            assert(pow2(25) == 0x200_0000);
            lemma_fundamental_div_mod_converse(m as int, g as int, mx as int, my as int);
            assert((m as nat) / g == mx && (m as nat) % g == my);
            assert(2 * my < g);
            assert(round_at(m as nat, d as nat) == mx * g);
            lemma_round_units(x);
        }
        x
    } else {
        let p = pow2_u128(d);
        proof {
            if d < 60 {
                lemma_pow2_strictly_increases(d as nat, 60);
            }
            assert(mx * p <= 0x100_0000 * pow2(60)) by (nonlinear_arith)
                requires
                    mx < 0x100_0000,
                    p <= pow2(60),
            ;
            lemma_pow2_96();
            lemma_pow2_adds(24, 60);
            lemma_pow2_adds(84, 12);
            lemma_pow2_unfold(151);
        }
        let m = mx * p + my;
        encode_rounded(m, ey)
    };
    proof {
        assert(units(x) + units(y) == units(a) + units(b));
        lemma_pow2_unfold(151);
        lemma_pattern_of_round(units(a) + units(b));
        lemma_units_injective(spec_add(a, b), r);
    }
    r
}

/// Single-precision `a - b` of two non-negative values, `b` below `a` below 2.0 and at
/// least 2^-31, on their patterns.
pub fn sub_nonneg(a: u32, b: u32) -> (r: u32)
    requires
        b < a,
        a < 0x4000_0000,
        0x3000_0000 <= b,
    ensures
        nonneg_finite(r),
        units(b) < units(a),
        units(r) == round_even((units(a) - units(b)) as nat),
        r == spec_sub(a, b),
{
    proof {
        lemma_units_below_two(a);
        lemma2_to64();
        lemma_units_order(b, a);
    }
    let (mx, ex) = decode(a);
    let (my, ey) = decode(b);
    let d = ex - ey;
    proof {
        assert(exp_field(b) >= 0x60);
        assert(exp_field(a) <= 0x80);
        lemma_pow2_adds(d as nat, ey as nat);
        lemma_pow2_pos(d as nat);
        lemma_pow2_pos(ey as nat);
        assert(units(a) == (mx * pow2(d as nat)) * pow2(ey as nat)) by (nonlinear_arith)
            requires
                units(a) == mx * pow2(ex as nat),
                pow2(ex as nat) == pow2(d as nat) * pow2(ey as nat),
        ;
        assert(my < mx * pow2(d as nat)) by (nonlinear_arith)
            requires
                units(a) == (mx * pow2(d as nat)) * pow2(ey as nat),
                units(b) == my * pow2(ey as nat),
                units(b) < units(a),
                pow2(ey as nat) > 0,
        ;
        assert(units(a) - units(b) == (mx * pow2(d as nat) - my) * pow2(ey as nat)) by (nonlinear_arith)
            requires
                units(a) == (mx * pow2(d as nat)) * pow2(ey as nat),
                units(b) == my * pow2(ey as nat),
        ;
    }
    let p = pow2_u128(d);
    proof {
        if d < 32 {
            lemma_pow2_strictly_increases(d as nat, 32);
        }
        assert(mx * p <= 0x100_0000 * pow2(32)) by (nonlinear_arith)
            requires
                mx < 0x100_0000,
                p <= pow2(32),
        ;
        lemma_pow2_96();
        lemma_pow2_strictly_increases(150, 151);
        assert((mx * p - my) * pow2(ey as nat) <= units(a)) by (nonlinear_arith)
            requires
                units(a) == (mx * p) * pow2(ey as nat),
                pow2(ey as nat) > 0,
        ;
    }
    let m = mx * p - my;
    let r = encode_rounded(m, ey);
    proof {
        lemma_pattern_of_round((units(a) - units(b)) as nat);
        lemma_units_injective(spec_sub(a, b), r);
    }
    r
}

/// Taking away more than 2^126 units (2^-23) from a value below 2.0 lowers it.
pub proof fn lemma_sub_lowers(a: u32, b: u32)
    requires
        b < a,
        a < 0x4000_0000,
        pow2(126) < units(b),
    ensures
        nonneg_finite(spec_sub(a, b)),
        spec_sub(a, b) < a,
        units(spec_sub(a, b)) < units(a),
{
    lemma_units_below_two(a);
    lemma_units_order(b, a);
    let s = (units(a) - units(b)) as nat;
    lemma_drop_bits_bound(s, 126);
    if drop_bits(s) < 126 {
        lemma_pow2_strictly_increases(drop_bits(s), 126);
    }
    lemma_round_error(s);
    lemma_pow2_unfold(151);
    lemma_pattern_of_round(s);
    if spec_sub(a, b) >= a {
        lemma_units_order(a, spec_sub(a, b));
    }
}

} // verus!
