//! SplitMix64: a counter-based generator.
//!
//! A draw depends on its key alone, never on how the work was divided.
use vstd::prelude::*;

verus! {

/// The golden-ratio increment of SplitMix64.
pub const GOLDEN: u64 = 0x9E37_79B9_7F4A_7C15;

/// SplitMix64 at `z`: advance by the increment, then two rounds of
/// xor-shift-multiply and a last xor-shift.
pub open spec fn splitmix(z: u64) -> u64 {
    let a = z.wrapping_add(GOLDEN);
    let b = (a ^ (a >> 30)).wrapping_mul(0xBF58_476D_1CE4_E5B9);
    let c = (b ^ (b >> 27)).wrapping_mul(0x94D0_49BB_1331_11EB);
    c ^ (c >> 31)
}

/// SplitMix64 at `z`.
pub fn splitmix64(z: u64) -> (r: u64)
    ensures
        r == splitmix(z),
{
    let a: u64 = z.wrapping_add(GOLDEN);
    let b: u64 = (a ^ (a >> 30)).wrapping_mul(0xBF58_476D_1CE4_E5B9);
    let c: u64 = (b ^ (b >> 27)).wrapping_mul(0x94D0_49BB_1331_11EB);
    c ^ (c >> 31)
}

/// Multiplication by an odd constant can be undone.
pub proof fn lemma_odd_scale_is_one_to_one(a: u64, b: u64, c: u64, inverse: u64)
    requires
        (c as int * inverse as int) % 0x1_0000_0000_0000_0000 == 1,
        a.wrapping_mul(c) == b.wrapping_mul(c),
    ensures
        a == b,
{
    lemma_scale_undone(a as int, c as int, inverse as int);
    lemma_scale_undone(b as int, c as int, inverse as int);
}

proof fn lemma_scale_undone(a: int, c: int, inverse: int)
    requires
        0 <= a < 0x1_0000_0000_0000_0000,
        (c * inverse) % 0x1_0000_0000_0000_0000 == 1,
    ensures
        ((a * c) % 0x1_0000_0000_0000_0000 * inverse) % 0x1_0000_0000_0000_0000 == a,
{
    let m: int = 0x1_0000_0000_0000_0000;
    vstd::arithmetic::div_mod::lemma_mul_mod_noop_left(a * c, inverse, m);
    assert(a * c * inverse == a * (c * inverse)) by (nonlinear_arith);
    vstd::arithmetic::div_mod::lemma_mul_mod_noop_right(a, c * inverse, m);
    vstd::arithmetic::div_mod::lemma_small_mod(a as nat, m as nat);
}

proof fn lemma_shifts_are_one_to_one(a: u64, b: u64)
    ensures
        a ^ (a >> 30) == b ^ (b >> 30) ==> a == b,
        a ^ (a >> 27) == b ^ (b >> 27) ==> a == b,
        a ^ (a >> 31) == b ^ (b >> 31) ==> a == b,
{
    assert(a ^ (a >> 30) == b ^ (b >> 30) ==> a == b) by (bit_vector);
    assert(a ^ (a >> 27) == b ^ (b >> 27) ==> a == b) by (bit_vector);
    assert(a ^ (a >> 31) == b ^ (b >> 31) ==> a == b) by (bit_vector);
}

/// SplitMix64 loses nothing: different keys give different words.
pub proof fn splitmix_is_one_to_one(x: u64, y: u64)
    requires
        x != y,
    ensures
        splitmix(x) != splitmix(y),
{
    if splitmix(x) == splitmix(y) {
        let a = x.wrapping_add(GOLDEN);
        let b = (a ^ (a >> 30)).wrapping_mul(0xBF58_476D_1CE4_E5B9);
        let c = (b ^ (b >> 27)).wrapping_mul(0x94D0_49BB_1331_11EB);
        let p = y.wrapping_add(GOLDEN);
        let q = (p ^ (p >> 30)).wrapping_mul(0xBF58_476D_1CE4_E5B9);
        let r = (q ^ (q >> 27)).wrapping_mul(0x94D0_49BB_1331_11EB);
        lemma_shifts_are_one_to_one(c, r);
        lemma_odd_scale_is_one_to_one(
            b ^ (b >> 27),
            q ^ (q >> 27),
            0x94D0_49BB_1331_11EB,
            0x3196_42B2_D24D_8EC3,
        );
        lemma_shifts_are_one_to_one(b, q);
        lemma_odd_scale_is_one_to_one(
            a ^ (a >> 30),
            p ^ (p >> 30),
            0xBF58_476D_1CE4_E5B9,
            0x96DE_1B17_3F11_9089,
        );
        lemma_shifts_are_one_to_one(a, p);
    }
}

} // verus!
