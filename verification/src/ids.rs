//! Deterministic identifiers: a SplitMix64 stream rendered as 16 lowercase hex digits.
use vstd::prelude::*;
use crate::text::push_char;

verus! {

/// The SplitMix64 increment.
pub const GOLDEN_GAMMA: u64 = 0x9E37_79B9_7F4A_7C15;

/// The seed an engine starts from.
pub const INITIAL_ID_SEED: u64 = 0x1234_5678_9ABC_DEF0;

/// The SplitMix64 output function applied to an advanced state.
pub open spec fn splitmix_mix(s: u64) -> u64 {
    let z1 = (s ^ (s >> 30u64)).wrapping_mul(0xBF58_476D_1CE4_E5B9);
    let z2 = (z1 ^ (z1 >> 27u64)).wrapping_mul(0x94D0_49BB_1331_11EB);
    z2 ^ (z2 >> 31u64)
}

/// The next SplitMix64 state.
pub open spec fn splitmix_advance(state: u64) -> u64 {
    state.wrapping_add(GOLDEN_GAMMA)
}

/// Advances `state` and returns the next SplitMix64 output.
pub fn splitmix_next(state: &mut u64) -> (z: u64)
    ensures
        *final(state) == splitmix_advance(*old(state)),
        z == splitmix_mix(*final(state)),
{
    *state = state.wrapping_add(GOLDEN_GAMMA);
    let s = *state;
    let z1 = (s ^ (s >> 30u64)).wrapping_mul(0xBF58_476D_1CE4_E5B9);
    let z2 = (z1 ^ (z1 >> 27u64)).wrapping_mul(0x94D0_49BB_1331_11EB);
    z2 ^ (z2 >> 31u64)
}

/// A lowercase hex digit.
pub open spec fn hex_digit(d: u64) -> char {
    if d < 10 {
        (48 + d) as char
    } else {
        (87 + d) as char
    }
}

/// `z` as exactly 16 lowercase hex digits, most significant first.
pub open spec fn hex16(z: u64) -> Seq<char> {
    Seq::new(16, |i: int| hex_digit((z >> ((60 - 4 * i) as u64)) & 15u64))
}

/// The lowercase hex digit of a value below 16.
pub fn hex_digit_char(d: u64) -> (c: char)
    requires
        d < 16,
    ensures
        c == hex_digit(d),
{
    let digits = ['0', '1', '2', '3', '4', '5', '6', '7', '8', '9', 'a', 'b', 'c', 'd', 'e', 'f'];
    let c = digits[d as usize];
    assert(c == hex_digit(d)) by {
        assert(d == 0 || d == 1 || d == 2 || d == 3 || d == 4 || d == 5 || d == 6 || d == 7 || d == 8 || d == 9
            || d == 10 || d == 11 || d == 12 || d == 13 || d == 14 || d == 15);
    }
    c
}

/// `z` as exactly 16 zero-padded lowercase hex digits (what `format!("{:016x}", z)`
/// writes).
pub fn format_hex16(z: u64) -> (s: String)
    ensures
        s@ == hex16(z),
{
    let mut s = String::new();
    let mut i: u64 = 0;
    while i < 16
        invariant
            i <= 16,
            s@ == hex16(z).subrange(0, i as int),
        decreases 16 - i,
    {
        let x = z >> (60 - 4 * i);
        let d = x & 15;
        assert(d < 16) by (bit_vector)
            requires
                d == x & 15,
        ;
        assert(hex16(z)[i as int] == hex_digit(d));
        push_char(&mut s, hex_digit_char(d));
        assert(s@ =~= hex16(z).subrange(0, i + 1));
        i = i + 1;
    }
    s
}

} // verus!
