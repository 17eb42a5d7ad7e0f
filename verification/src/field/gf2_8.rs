//! The field GF(2^8) = GF(2)\[x\] / (x^8 + x^4 + x^3 + x + 1).

use crate::bits::lemma_word_facts;
use vstd::prelude::*;

verus! {

/// `x * a`.
pub open spec fn gf8_times_x(a: u8) -> u8 {
    (a << 1) ^ (if a >> 7 == 1 {
        0x1bu8
    } else {
        0u8
    })
}

/// `a` if `bit` is set, zero otherwise.
pub open spec fn gf8_select(a: u8, bit: u8) -> u8 {
    if bit & 1 == 1 {
        a
    } else {
        0
    }
}

/// The product: the sum of `x^i * a` over the set bits `i` of `b`.
#[verifier::opaque]
pub open spec fn gf8_mul(a: u8, b: u8) -> u8 {
    let a1 = gf8_times_x(a);
    let a2 = gf8_times_x(a1);
    let a3 = gf8_times_x(a2);
    let a4 = gf8_times_x(a3);
    let a5 = gf8_times_x(a4);
    let a6 = gf8_times_x(a5);
    let a7 = gf8_times_x(a6);
    gf8_select(a, b) ^ gf8_select(a1, b >> 1) ^ gf8_select(a2, b >> 2) ^ gf8_select(a3, b >> 3) ^ gf8_select(
        a4,
        b >> 4,
    ) ^ gf8_select(a5, b >> 5) ^ gf8_select(a6, b >> 6) ^ gf8_select(a7, b >> 7)
}

/// The residue of a polynomial of degree below sixteen: `x^8` is `x^4 + x^3 + x + 1`.
pub open spec fn gf8_residue(v: u16) -> u8 {
    (v as u8) ^ gf8_mul((v >> 8) as u8, 0x1b)
}

proof fn lemma_gf8_bits(p: u8, k: u8, a: u16, b: u16)
    by (bit_vector)
    requires
        k < 8,
    ensures
        gf8_mul(p, 1u8 << 0u8) == p,
        0u8 ^ p == p,
        gf8_residue((p as u16) << k) == gf8_mul(p, 1u8 << k),
        gf8_residue(a ^ b) == gf8_residue(a) ^ gf8_residue(b),
{
}

/// `x^0` is neutral for the product, and zero for the sum.
pub proof fn law_gf8_units(p: u8)
    ensures
        gf8_mul(p, 1u8 << 0u8) == p,
        0u8 ^ p == p,
{
    lemma_gf8_bits(p, 0, 0, 0);
}

/// Shifting by `k` and reducing multiplies by `x^k`.
pub proof fn law_shift_is_product(p: u8, k: u8)
    requires
        k < 8,
    ensures
        gf8_residue((p as u16) << k) == gf8_mul(p, 1u8 << k),
{
    lemma_gf8_bits(p, k, 0, 0);
}

/// Reduction is additive.
pub proof fn law_residue_is_additive(a: u16, b: u16)
    ensures
        gf8_residue(a ^ b) == gf8_residue(a) ^ gf8_residue(b),
{
    lemma_gf8_bits(0, 0, a, b);
}

proof fn lemma_gf8_powers(a: u8, b: u8, c: u8, k: u8)
    by (bit_vector)
    ensures
        gf8_mul(c, a ^ b) == gf8_mul(c, a) ^ gf8_mul(c, b),
        k < 7 ==> gf8_mul(c, 1u8 << ((k + 1) as u8)) == (gf8_mul(c, 1u8 << k) << 1) ^ (if gf8_mul(c, 1u8 << k) >= 128 {
            0x1bu8
        } else {
            0u8
        }),
{
}

/// The product distributes over the sum, and going from one power of `x` to the next
/// shifts it by one: what leaves at the top comes back as `x^4 + x^3 + x + 1`.
pub proof fn law_gf8_product(a: u8, b: u8, c: u8, k: u8)
    ensures
        gf8_mul(c, a ^ b) == gf8_mul(c, a) ^ gf8_mul(c, b),
        k < 7 ==> gf8_mul(c, 1u8 << ((k + 1) as u8)) == (gf8_mul(c, 1u8 << k) << 1) ^ (if gf8_mul(c, 1u8 << k) >= 128 {
            0x1bu8
        } else {
            0u8
        }),
{
    lemma_gf8_powers(a, b, c, k);
}

/// An element of GF(2^8).
#[derive(Clone, Copy, Debug, PartialEq, Eq, Structural)]
pub struct F8(pub u8);

fn times_x(a: u8) -> (r: u8)
    ensures
        r == gf8_times_x(a),
{
    (a << 1) ^ (if a >> 7 == 1 {
        0x1bu8
    } else {
        0u8
    })
}

fn select(a: u8, bit: u8) -> (r: u8)
    ensures
        r == gf8_select(a, bit),
{
    if bit & 1 == 1 {
        a
    } else {
        0
    }
}

impl F8 {
    /// Product of two elements.
    pub fn mul(self, other: F8) -> (r: F8)
        ensures
            r.0 == gf8_mul(self.0, other.0),
    {
        proof {
            reveal(gf8_mul);
        }
        let a = self.0;
        let b = other.0;
        let a1 = times_x(a);
        let a2 = times_x(a1);
        let a3 = times_x(a2);
        let a4 = times_x(a3);
        let a5 = times_x(a4);
        let a6 = times_x(a5);
        let a7 = times_x(a6);
        F8(
            select(a, b) ^ select(a1, b >> 1) ^ select(a2, b >> 2) ^ select(a3, b >> 3) ^ select(a4, b >> 4)
                ^ select(a5, b >> 5) ^ select(a6, b >> 6) ^ select(a7, b >> 7),
        )
    }
}

/// Reduces a polynomial of degree below sixteen.
pub fn gf8_reduce(v: u16) -> (r: u8)
    ensures
        r == gf8_residue(v),
{
    let lo = (v & 0xff) as u8;
    let hi = (v >> 8) as u8;
    proof {
        lemma_word_facts(0, 0, 0, 0, 0, v);
    }
    lo ^ F8(hi).mul(F8(0x1b)).0
}

} // verus!
