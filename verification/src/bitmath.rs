//! Powers of two and the bridges between bitwise operators and arithmetic
//! that the bitmap engine and the DAT codec lean on.
#![allow(unused_imports)]
use vstd::prelude::*;

verus! {

/// Two to the power `e`.
pub open spec fn pow2(e: nat) -> nat
    decreases e,
{
    if e == 0 {
        1
    } else {
        2 * pow2((e - 1) as nat)
    }
}

/// The values of the small powers of two that the bitmap engine works with.
pub proof fn lemma_pow2_values()
    ensures
        pow2(0) == 1,
        pow2(1) == 2,
        pow2(2) == 4,
        pow2(3) == 8,
        pow2(4) == 16,
        pow2(5) == 32,
        pow2(6) == 64,
        pow2(7) == 128,
        pow2(8) == 256,
        pow2(9) == 512,
        pow2(10) == 1024,
        pow2(11) == 2048,
        pow2(12) == 4096,
        pow2(16) == 0x1_0000,
        pow2(31) == 0x8000_0000,
        pow2(32) == 0x1_0000_0000,
{
    reveal_with_fuel(pow2, 33);
}

/// Powers of two grow with the exponent.
pub proof fn lemma_pow2_increases(a: nat, b: nat)
    requires
        a <= b,
    ensures
        pow2(a) <= pow2(b),
    decreases b,
{
    if a < b {
        lemma_pow2_increases(a, (b - 1) as nat);
    }
}

/// A right shift of a byte divides it by the corresponding power of two.
pub proof fn lemma_u8_shr_is_div(v: u8, s: u8)
    requires
        s < 8,
    ensures
        (v >> s) as nat == (v as nat) / pow2(s as nat),
{
    lemma_pow2_values();
    assert((v >> 0) == v / 1 && (v >> 1) == v / 2 && (v >> 2) == v / 4 && (v >> 3) == v / 8 && (v
        >> 4) == v / 16 && (v >> 5) == v / 32 && (v >> 6) == v / 64 && (v >> 7) == v / 128)
        by (bit_vector);
}

/// Masking a byte keeps its remainder by the corresponding power of two.
pub proof fn lemma_u8_mask_is_mod(v: u8)
    ensures
        (v & 1) as nat == (v as nat) % pow2(1),
        (v & 15) as nat == (v as nat) % pow2(4),
        (v & 255) as nat == (v as nat) % pow2(8),
{
    lemma_pow2_values();
    assert((v & 1) == v % 2 && (v & 15) == v % 16 && (v & 255) == v) by (bit_vector);
    assert((v as nat) % pow2(8) == v as nat);
}

/// Values below a power of two shift down to zero.
pub proof fn lemma_shr_zero(v: u32)
    by (bit_vector)
    ensures
        v <= 1 ==> v >> 1u32 == 0,
        v <= 3 ==> v >> 2u32 == 0,
        v <= 7 ==> v >> 3u32 == 0,
        v <= 255 ==> v >> 8u32 == 0,
        v <= 511 ==> v >> 9u32 == 0,
        v <= 1023 ==> v >> 10u32 == 0,
        v <= 4095 ==> v >> 12u32 == 0,
{
}

/// Setting or clearing one bit of a byte leaves every other bit alone, and
/// makes the touched bit read back as written.
pub proof fn lemma_u8_bit_update(b: u8, s: u8, t: u8)
    by (bit_vector)
    requires
        s < 8,
        t < 8,
    ensures
        ((b | (1u8 << s)) >> s) & 1 == 1,
        ((b & !(1u8 << s)) >> s) & 1 == 0,
        s != t ==> ((b | (1u8 << s)) >> t) & 1 == (b >> t) & 1,
        s != t ==> ((b & !(1u8 << s)) >> t) & 1 == (b >> t) & 1,
{
}

/// A byte splits into its low `k` bits and the bit above them.
pub proof fn lemma_u8_mod_split(v: u8, k: nat)
    requires
        k < 8,
    ensures
        (v as nat) % pow2(k + 1) == (v as nat) % pow2(k) + (((v >> (k as u8)) & 1) as nat) * pow2(
            k,
        ),
{
    let s = k as u8;
    lemma_pow2_values();
    assert((v as nat) % pow2(k + 1) == (v as nat) % (2 * pow2(k)));
    lemma_u8_shr_is_div(v, s);
    lemma_u8_mask_is_mod(v >> s);
    assert(((v >> s) & 1) as nat == ((v as nat) / pow2(k)) % 2);
    let m = pow2(k) as int;
    let x = v as int;
    assert(m > 0);
    vstd::arithmetic::div_mod::lemma_mod_breakdown(x, m, 2);
    assert(x % (m * 2) == m * ((x / m) % 2) + x % m);
    assert(m * 2 == 2 * m && m * ((x / m) % 2) == ((x / m) % 2) * m);
}

} // verus!
