//! The field GF(2^128) = GF(2)\[x\] / (x^128 + x^7 + x^2 + x + 1).
//!
//! An element is a polynomial of degree below 128; coefficient `i` is bit `i`
//! of `lo` for `i < 64`, and bit `i - 64` of `hi` from there on. Addition is
//! XOR. The product is stated as the sum of the shifted multiplicands: for every
//! set coefficient `i` of the multiplier, `x^i` times the multiplicand.

use vstd::prelude::*;

pub mod ghash;

verus! {

/// An element of GF(2^128), or a polynomial of degree below 128.
#[derive(Clone, Copy, Debug, PartialEq, Eq, Structural)]
pub struct F128 {
    pub lo: u64,
    pub hi: u64,
}

impl F128 {
    /// The zero of the field.
    pub fn zero() -> (r: F128)
        ensures
            r == fzero(),
    {
        F128 { lo: 0, hi: 0 }
    }

    /// The one of the field.
    pub fn one() -> (r: F128)
        ensures
            r == fone(),
    {
        F128 { lo: 1, hi: 0 }
    }
}

impl std::ops::Add for F128 {
    type Output = F128;

    fn add(self, other: F128) -> (r: F128) {
        F128 { lo: self.lo ^ other.lo, hi: self.hi ^ other.hi }
    }
}

impl vstd::std_specs::ops::AddSpecImpl for F128 {
    open spec fn obeys_add_spec() -> bool {
        true
    }

    open spec fn add_req(self, other: F128) -> bool {
        true
    }

    open spec fn add_spec(self, other: F128) -> F128 {
        fadd(self, other)
    }
}

impl std::ops::Mul for F128 {
    type Output = F128;

    fn mul(self, other: F128) -> (r: F128) {
        ghash::ghash_mul_binius(self, other)
    }
}

impl vstd::std_specs::ops::MulSpecImpl for F128 {
    open spec fn obeys_mul_spec() -> bool {
        true
    }

    open spec fn mul_req(self, other: F128) -> bool {
        true
    }

    open spec fn mul_spec(self, other: F128) -> F128 {
        fmul(self, other)
    }
}

/// The zero of the field.
pub open spec fn fzero() -> F128 {
    F128 { lo: 0, hi: 0 }
}

/// The one of the field.
pub open spec fn fone() -> F128 {
    F128 { lo: 1, hi: 0 }
}

/// Sum of two elements.
pub open spec fn fadd(a: F128, b: F128) -> F128 {
    F128 { lo: a.lo ^ b.lo, hi: a.hi ^ b.hi }
}

/// What the coefficient of `x^128` folds to: `x^7 + x^2 + x + 1` if it is set.
pub open spec fn fold_top(hi: u64) -> u64 {
    if hi >> 63 == 1 {
        0x87
    } else {
        0
    }
}

/// `x * a`.
pub open spec fn times_x(a: F128) -> F128 {
    F128 { lo: (a.lo << 1) ^ fold_top(a.hi), hi: (a.hi << 1) | (a.lo >> 63) }
}

/// `x^n * a`.
pub open spec fn times_xn(a: F128, n: nat) -> F128
    decreases n,
{
    if n == 0 {
        a
    } else {
        times_x(times_xn(a, (n - 1) as nat))
    }
}

/// Whether the coefficient of `x^i` is set.
pub open spec fn coeff(a: F128, i: nat) -> bool {
    if i < 64 {
        (a.lo >> (i as u64)) & 1 == 1
    } else {
        (a.hi >> ((i - 64) as u64)) & 1 == 1
    }
}

/// The sum of `x^i * a` over the set coefficients `i < n` of `b`.
pub open spec fn fmul_upto(a: F128, b: F128, n: nat) -> F128
    decreases n,
{
    if n == 0 {
        fzero()
    } else {
        fadd(
            fmul_upto(a, b, (n - 1) as nat),
            if coeff(b, (n - 1) as nat) {
                times_xn(a, (n - 1) as nat)
            } else {
                fzero()
            },
        )
    }
}

/// Product of two elements.
#[verifier::opaque]
pub open spec fn fmul(a: F128, b: F128) -> F128 {
    fmul_upto(a, b, 128)
}

// ---- sums ----

proof fn lemma_xor_facts(a: u64, b: u64, c: u64)
    by (bit_vector)
    ensures
        a ^ b == b ^ a,
        (a ^ b) ^ c == a ^ (b ^ c),
        a ^ a == 0,
        a ^ 0 == a,
        0 ^ a == a,
{
}

/// Addition is commutative.
pub proof fn law_fadd_comm(a: F128, b: F128)
    ensures
        fadd(a, b) == fadd(b, a),
{
    lemma_xor_facts(a.lo, b.lo, 0);
    lemma_xor_facts(a.hi, b.hi, 0);
}

/// Addition is associative.
pub proof fn law_fadd_assoc(a: F128, b: F128, c: F128)
    ensures
        fadd(fadd(a, b), c) == fadd(a, fadd(b, c)),
{
    lemma_xor_facts(a.lo, b.lo, c.lo);
    lemma_xor_facts(a.hi, b.hi, c.hi);
}

/// The characteristic is two: every element is its own negative.
pub proof fn law_fadd_self(a: F128)
    ensures
        fadd(a, a) == fzero(),
{
    lemma_xor_facts(a.lo, a.lo, 0);
    lemma_xor_facts(a.hi, a.hi, 0);
}

/// Zero is neutral.
pub proof fn law_fadd_zero(a: F128)
    ensures
        fadd(a, fzero()) == a,
        fadd(fzero(), a) == a,
{
    lemma_xor_facts(a.lo, a.lo, 0);
    lemma_xor_facts(a.hi, a.hi, 0);
}

/// Two sums of two regroup.
pub proof fn lemma_fadd_swap4(a: F128, b: F128, c: F128, d: F128)
    ensures
        fadd(fadd(a, b), fadd(c, d)) == fadd(fadd(a, c), fadd(b, d)),
{
    law_fadd_assoc(a, b, fadd(c, d));
    law_fadd_assoc(b, c, d);
    law_fadd_comm(b, c);
    law_fadd_assoc(c, b, d);
    law_fadd_assoc(a, c, fadd(b, d));
}

// ---- multiplication by powers of x ----

proof fn lemma_times_x_bits(a: u64, b: u64, c: u64, d: u64)
    by (bit_vector)
    ensures
        ((a ^ b) << 1) ^ (if (c ^ d) >> 63 == 1 { 0x87u64 } else { 0u64 }) == ((a << 1) ^ (if c >> 63
            == 1 { 0x87u64 } else { 0u64 })) ^ ((b << 1) ^ (if d >> 63 == 1 { 0x87u64 } else { 0u64 })),
        ((c ^ d) << 1) | ((a ^ b) >> 63) == ((c << 1) | (a >> 63)) ^ ((d << 1) | (b >> 63)),
{
}

proof fn lemma_times_x_add(a: F128, b: F128)
    ensures
        times_x(fadd(a, b)) == fadd(times_x(a), times_x(b)),
{
    lemma_times_x_bits(a.lo, b.lo, a.hi, b.hi);
}

/// Multiplication by a power of `x` distributes over sums.
pub proof fn lemma_times_xn_add(a: F128, b: F128, n: nat)
    ensures
        times_xn(fadd(a, b), n) == fadd(times_xn(a, n), times_xn(b, n)),
    decreases n,
{
    if n > 0 {
        lemma_times_xn_add(a, b, (n - 1) as nat);
        lemma_times_x_add(times_xn(a, (n - 1) as nat), times_xn(b, (n - 1) as nat));
    }
}

/// Powers of `x` add up.
pub proof fn lemma_times_xn_compose(a: F128, m: nat, n: nat)
    ensures
        times_xn(times_xn(a, m), n) == times_xn(a, m + n),
    decreases n,
{
    if n > 0 {
        lemma_times_xn_compose(a, m, (n - 1) as nat);
        assert(m + n - 1 == m + (n - 1));
    }
}

proof fn lemma_times_xn_zero(n: nat)
    ensures
        times_xn(fzero(), n) == fzero(),
    decreases n,
{
    if n > 0 {
        lemma_times_xn_zero((n - 1) as nat);
        assert((0u64 << 1) ^ (if 0u64 >> 63 == 1 { 0x87u64 } else { 0u64 }) == 0 && (0u64 << 1) | (0u64
            >> 63) == 0) by (bit_vector);
    }
}

proof fn lemma_shift_up(a: u64, n: u64)
    by (bit_vector)
    requires
        n < 64,
    ensures
        (a >> ((64 - n) as u64)) >> 63 != 1 || n == 64,
        ((a << n) << 1) ^ (if (a >> ((64 - n) as u64)) >> 63 == 1 { 0x87u64 } else { 0u64 }) == a << ((n + 1)
            as u64),
        ((a >> ((64 - n) as u64)) << 1) | ((a << n) >> 63) == a >> ((63 - n) as u64),
        a << 0u64 == a,
        a >> 64u64 == 0,
        a << 64u64 == 0,
        a >> 0u64 == a,
{
}

/// A polynomial of degree below 64 moves up without wrapping.
pub proof fn lemma_times_xn_low(a: u64, n: nat)
    requires
        n <= 64,
    ensures
        times_xn(F128 { lo: a, hi: 0 }, n) == (F128 {
            lo: a << (n as u64),
            hi: a >> ((64 - n) as u64),
        }),
    decreases n,
{
    if n > 0 {
        lemma_times_xn_low(a, (n - 1) as nat);
        lemma_shift_up(a, (n - 1) as u64);
    } else {
        lemma_shift_up(a, 0);
    }
}

/// Low word of `h * (x^7 + x^2 + x + 1)`.
pub open spec fn tap_lo(h: u64) -> u64 {
    h ^ (h << 1) ^ (h << 2) ^ (h << 7)
}

/// High word of `h * (x^7 + x^2 + x + 1)`.
pub open spec fn tap_hi(h: u64) -> u64 {
    (h >> 63) ^ (h >> 62) ^ (h >> 57)
}

proof fn lemma_tap_step(h: u64, n: u64)
    by (bit_vector)
    requires
        n < 64,
    ensures
        ({
            let t = h >> ((64 - n) as u64);
            let lo = t ^ (t << 1) ^ (t << 2) ^ (t << 7);
            let hi = (h << n) ^ ((t >> 63) ^ (t >> 62) ^ (t >> 57));
            let u = h >> ((63 - n) as u64);
            &&& (lo << 1) ^ (if hi >> 63 == 1 { 0x87u64 } else { 0u64 }) == u ^ (u << 1) ^ (u << 2) ^ (u
                << 7)
            &&& (hi << 1) | (lo >> 63) == (h << ((n + 1) as u64)) ^ ((u >> 63) ^ (u >> 62) ^ (u >> 57))
        }),
        ({
            let t = h >> 64u64;
            &&& t ^ (t << 1) ^ (t << 2) ^ (t << 7) == 0
            &&& (h << 0u64) ^ ((t >> 63) ^ (t >> 62) ^ (t >> 57)) == h
        }),
        (h << 64u64) ^ ((h >> 63) ^ (h >> 62) ^ (h >> 57)) == (h >> 63) ^ (h >> 62) ^ (h >> 57),
        h >> 0u64 == h,
{
}

proof fn lemma_times_xn_high(h: u64, n: nat)
    requires
        n <= 64,
    ensures
        times_xn(F128 { lo: 0, hi: h }, n) == (F128 {
            lo: tap_lo(h >> ((64 - n) as u64)),
            hi: (h << (n as u64)) ^ tap_hi(h >> ((64 - n) as u64)),
        }),
    decreases n,
{
    if n > 0 {
        lemma_times_xn_high(h, (n - 1) as nat);
        lemma_tap_step(h, (n - 1) as u64);
    } else {
        lemma_tap_step(h, 0);
    }
}

/// `x^64 * v`: the low word moves up, the high word folds through the taps.
pub proof fn lemma_times_x64(v: F128)
    ensures
        times_xn(v, 64) == (F128 { lo: tap_lo(v.hi), hi: v.lo ^ tap_hi(v.hi) }),
{
    let a = F128 { lo: v.lo, hi: 0 };
    let b = F128 { lo: 0, hi: v.hi };
    lemma_xor_facts(v.lo, 0, 0);
    lemma_xor_facts(v.hi, 0, 0);
    assert(fadd(a, b) == v);
    lemma_times_xn_add(a, b, 64);
    lemma_times_xn_low(v.lo, 64);
    lemma_times_xn_high(v.hi, 64);
    lemma_shift_up(v.lo, 0);
    lemma_tap_step(v.hi, 0);
    lemma_xor_facts(tap_lo(v.hi), 0, 0);
    lemma_xor_facts(v.lo, tap_hi(v.hi), 0);
}

// ---- the product ----

proof fn lemma_fmul_upto_add_left(a: F128, b: F128, c: F128, n: nat)
    ensures
        fmul_upto(fadd(a, b), c, n) == fadd(fmul_upto(a, c, n), fmul_upto(b, c, n)),
    decreases n,
{
    if n > 0 {
        let m = (n - 1) as nat;
        lemma_fmul_upto_add_left(a, b, c, m);
        lemma_times_xn_add(a, b, m);
        law_fadd_zero(fzero());
        let p = if coeff(c, m) { times_xn(a, m) } else { fzero() };
        let q = if coeff(c, m) { times_xn(b, m) } else { fzero() };
        lemma_fadd_swap4(fmul_upto(a, c, m), fmul_upto(b, c, m), p, q);
    } else {
        law_fadd_zero(fzero());
    }
}

proof fn lemma_bit_of_xor(a: u64, b: u64, i: u64)
    by (bit_vector)
    ensures
        ((a ^ b) >> i) & 1 == ((a >> i) & 1) ^ ((b >> i) & 1),
        (a >> i) & 1 == 0 || (a >> i) & 1 == 1,
        (b >> i) & 1 == 0 || (b >> i) & 1 == 1,
        0u64 ^ 0u64 == 0,
        1u64 ^ 0u64 == 1,
        0u64 ^ 1u64 == 1,
        1u64 ^ 1u64 == 0,
{
}

proof fn lemma_coeff_add(a: F128, b: F128, i: nat)
    requires
        i < 128,
    ensures
        coeff(fadd(a, b), i) == (coeff(a, i) != coeff(b, i)),
{
    if i < 64 {
        lemma_bit_of_xor(a.lo, b.lo, i as u64);
    } else {
        lemma_bit_of_xor(a.hi, b.hi, (i - 64) as u64);
    }
}

proof fn lemma_fmul_upto_add_right(a: F128, b: F128, c: F128, n: nat)
    requires
        n <= 128,
    ensures
        fmul_upto(a, fadd(b, c), n) == fadd(fmul_upto(a, b, n), fmul_upto(a, c, n)),
    decreases n,
{
    if n > 0 {
        let m = (n - 1) as nat;
        lemma_fmul_upto_add_right(a, b, c, m);
        lemma_coeff_add(b, c, m);
        let t = times_xn(a, m);
        law_fadd_zero(fzero());
        law_fadd_zero(t);
        law_fadd_self(t);
        let p = if coeff(b, m) { t } else { fzero() };
        let q = if coeff(c, m) { t } else { fzero() };
        lemma_fadd_swap4(fmul_upto(a, b, m), fmul_upto(a, c, m), p, q);
    } else {
        law_fadd_zero(fzero());
    }
}

/// The product distributes over a sum on the left.
pub proof fn law_fmul_add_left(a: F128, b: F128, c: F128)
    ensures
        fmul(fadd(a, b), c) == fadd(fmul(a, c), fmul(b, c)),
{
    reveal(fmul);
    lemma_fmul_upto_add_left(a, b, c, 128);
}

/// The product distributes over a sum on the right.
pub proof fn law_fmul_add_right(a: F128, b: F128, c: F128)
    ensures
        fmul(a, fadd(b, c)) == fadd(fmul(a, b), fmul(a, c)),
{
    reveal(fmul);
    lemma_fmul_upto_add_right(a, b, c, 128);
}

proof fn lemma_fmul_upto_shift(a: F128, b: F128, k: nat, n: nat)
    ensures
        fmul_upto(times_xn(a, k), b, n) == times_xn(fmul_upto(a, b, n), k),
    decreases n,
{
    lemma_times_xn_zero(k);
    if n > 0 {
        let m = (n - 1) as nat;
        lemma_fmul_upto_shift(a, b, k, m);
        let p = if coeff(b, m) { times_xn(a, m) } else { fzero() };
        lemma_times_xn_compose(a, k, m);
        lemma_times_xn_compose(a, m, k);
        assert(k + m == m + k);
        lemma_times_xn_add(fmul_upto(a, b, m), p, k);
    }
}

/// A power of `x` moves out of the left factor.
pub proof fn lemma_fmul_shift_left(a: F128, b: F128, k: nat)
    ensures
        fmul(times_xn(a, k), b) == times_xn(fmul(a, b), k),
{
    reveal(fmul);
    lemma_fmul_upto_shift(a, b, k, 128);
}

/// The low `n` coefficients of `b`.
spec fn low_part(b: F128, n: nat) -> F128 {
    if n <= 64 {
        F128 { lo: (b.lo << ((64 - n) as u64)) >> ((64 - n) as u64), hi: 0 }
    } else {
        F128 { lo: b.lo, hi: (b.hi << ((128 - n) as u64)) >> ((128 - n) as u64) }
    }
}

proof fn lemma_low_bits_step(b: u64, n: u64)
    by (bit_vector)
    requires
        n < 64,
    ensures
        ((b << ((64 - n) as u64)) >> ((64 - n) as u64)) ^ (if (b >> n) & 1 == 1 { 1u64 << n } else { 0u64 })
            == (b << ((63 - n) as u64)) >> ((63 - n) as u64),
        (b << 64u64) >> 64u64 == 0,
        (b << 0u64) >> 0u64 == b,
        (0u64 << 1) ^ (if (1u64 << n) >> 63 == 1 && n < 63 { 0x87u64 } else { 0u64 }) == 0,
        n < 63 ==> (1u64 << n) >> 63 != 1,
        ((1u64 << n) << 1) | (0u64 >> 63) == 1u64 << ((n + 1) as u64),
        1u64 >> ((64 - n) as u64) == 0,
        (0u64 << 1) ^ 0u64 == 0,
        1u64 << 0u64 == 1,
        1u64 << 64u64 == 0,
        1u64 >> 0u64 == 1,
{
}

proof fn lemma_unit_high(k: nat)
    requires
        k < 64,
    ensures
        times_xn(F128 { lo: 0, hi: 1 }, k) == (F128 { lo: 0, hi: 1u64 << (k as u64) }),
    decreases k,
{
    if k > 0 {
        lemma_unit_high((k - 1) as nat);
        lemma_low_bits_step(0, (k - 1) as u64);
    } else {
        lemma_low_bits_step(0, 0);
    }
}

proof fn lemma_unit(i: nat)
    requires
        i < 128,
    ensures
        times_xn(fone(), i) == (if i < 64 {
            F128 { lo: 1u64 << (i as u64), hi: 0 }
        } else {
            F128 { lo: 0, hi: 1u64 << ((i - 64) as u64) }
        }),
{
    if i < 64 {
        lemma_times_xn_low(1, i);
        lemma_low_bits_step(0, i as u64);
    } else {
        lemma_times_xn_low(1, 64);
        lemma_low_bits_step(0, 0);
        assert(times_xn(fone(), 64) == (F128 { lo: 0, hi: 1 }));
        lemma_times_xn_compose(fone(), 64, (i - 64) as nat);
        lemma_unit_high((i - 64) as nat);
    }
}

proof fn lemma_low_part(b: F128, n: nat)
    requires
        n <= 128,
    ensures
        fmul_upto(fone(), b, n) == low_part(b, n),
    decreases n,
{
    if n > 0 {
        let m = (n - 1) as nat;
        lemma_low_part(b, m);
        lemma_unit(m);
        if m < 64 {
            lemma_low_bits_step(b.lo, m as u64);
            lemma_xor_facts(0, 0, 0);
        } else {
            lemma_low_bits_step(b.hi, (m - 64) as u64);
            lemma_low_bits_step(b.lo, 0);
            lemma_xor_facts(b.lo, 0, 0);
            lemma_xor_facts(0, 0, 0);
        }
    } else {
        lemma_low_bits_step(b.lo, 0);
    }
}

/// One is neutral on the left.
pub proof fn law_fmul_one_left(b: F128)
    ensures
        fmul(fone(), b) == b,
{
    reveal(fmul);
    lemma_low_part(b, 128);
    lemma_low_bits_step(b.hi, 0);
}

proof fn lemma_fmul_zero_left_upto(b: F128, n: nat)
    ensures
        fmul_upto(fzero(), b, n) == fzero(),
    decreases n,
{
    if n > 0 {
        lemma_fmul_zero_left_upto(b, (n - 1) as nat);
        lemma_times_xn_zero((n - 1) as nat);
    }
    law_fadd_zero(fzero());
}

/// Zero absorbs.
pub proof fn law_fmul_zero(b: F128)
    ensures
        fmul(fzero(), b) == fzero(),
        fmul(b, fzero()) == fzero(),
{
    reveal(fmul);
    lemma_fmul_zero_left_upto(b, 128);
    law_fmul_comm(fzero(), b);
}

proof fn lemma_fmul_comm_upto(a: F128, b: F128, n: nat)
    ensures
        fmul(fmul_upto(fone(), b, n), a) == fmul_upto(a, b, n),
    decreases n,
{
    if n > 0 {
        let m = (n - 1) as nat;
        lemma_fmul_comm_upto(a, b, m);
        let p = if coeff(b, m) { times_xn(fone(), m) } else { fzero() };
        law_fmul_add_left(fmul_upto(fone(), b, m), p, a);
        lemma_fmul_shift_left(fone(), a, m);
        law_fmul_one_left(a);
        lemma_fmul_zero_left_upto(a, 128);
        reveal(fmul);
    } else {
        reveal(fmul);
        lemma_fmul_zero_left_upto(a, 128);
    }
}

/// The product is commutative.
pub proof fn law_fmul_comm(a: F128, b: F128)
    ensures
        fmul(a, b) == fmul(b, a),
{
    lemma_fmul_comm_upto(a, b, 128);
    law_fmul_one_left(b);
    reveal(fmul);
}

proof fn lemma_fmul_regroup_upto(a: F128, b: F128, c: F128, n: nat)
    ensures
        fmul_upto(fmul(a, b), c, n) == fmul(fmul_upto(a, c, n), b),
    decreases n,
{
    if n > 0 {
        let m = (n - 1) as nat;
        lemma_fmul_regroup_upto(a, b, c, m);
        let p = if coeff(c, m) { times_xn(a, m) } else { fzero() };
        law_fmul_add_left(fmul_upto(a, c, m), p, b);
        lemma_fmul_shift_left(a, b, m);
        law_fmul_zero(b);
    } else {
        law_fmul_zero(b);
    }
}

/// The product is associative.
pub proof fn law_fmul_assoc(a: F128, b: F128, c: F128)
    ensures
        fmul(fmul(a, b), c) == fmul(a, fmul(b, c)),
{
    lemma_fmul_regroup_upto(b, a, c, 128);
    assert(fmul(fmul(b, a), c) == fmul(fmul(b, c), a)) by {
        reveal(fmul);
    }
    law_fmul_comm(a, b);
    law_fmul_comm(fmul(b, c), a);
}

/// A power of `x` moves out of the right factor.
pub proof fn lemma_fmul_shift_right(a: F128, b: F128, k: nat)
    ensures
        fmul(a, times_xn(b, k)) == times_xn(fmul(a, b), k),
{
    law_fmul_comm(a, times_xn(b, k));
    lemma_fmul_shift_left(b, a, k);
    law_fmul_comm(a, b);
}

// ---- the coefficients ----

proof fn lemma_coefficient_bits(lo: u64, hi: u64, i: u64)
    by (bit_vector)
    requires
        i < 64,
    ensures
        (((lo ^ hi) >> i) & 1 == 1) == (((lo >> i) & 1 == 1) != ((hi >> i) & 1 == 1)),
        (((lo << 1) ^ (if hi >> 63 == 1 {
            0x87u64
        } else {
            0u64
        })) >> i) & 1 == 1 <==> ((i > 0 && (lo >> ((i - 1) as u64)) & 1 == 1) != ((hi >> 63) & 1 == 1 && (i == 0 || i == 1
            || i == 2 || i == 7))),
        ((((hi << 1) | (lo >> 63)) >> i) & 1 == 1) == (if i == 0 {
            (lo >> 63) & 1 == 1
        } else {
            (hi >> ((i - 1) as u64)) & 1 == 1
        }),
        0u64 >> 63 != 1,
        (1u64 << 1) ^ 0u64 == 2,
        (0u64 << 1) | (1u64 >> 63) == 0,
{
}

/// A coefficient of a sum is set where it is set in exactly one of the summands.
pub proof fn law_sum_adds_coefficients(a: F128, b: F128, i: nat)
    requires
        i < 128,
    ensures
        coeff(fadd(a, b), i) == (coeff(a, i) != coeff(b, i)),
{
    if i < 64 {
        lemma_coefficient_bits(a.lo, b.lo, i as u64);
    } else {
        lemma_coefficient_bits(a.hi, b.hi, (i - 64) as u64);
    }
}

/// Multiplying by `x` moves every coefficient up by one, and the one that leaves at the
/// top comes back as `x^7 + x^2 + x + 1`.
pub proof fn law_x_moves_coefficients_up(a: F128, i: nat)
    requires
        i < 128,
    ensures
        coeff(fmul(F128 { lo: 2, hi: 0 }, a), i) == ((i > 0 && coeff(a, (i - 1) as nat)) != (coeff(a, 127) && (i == 0
            || i == 1 || i == 2 || i == 7))),
{
    let x = F128 { lo: 2, hi: 0 };
    lemma_coefficient_bits(a.lo, a.hi, (i % 64) as u64);
    lemma_fmul_shift_left(fone(), a, 1);
    law_fmul_one_left(a);
    reveal_with_fuel(times_xn, 2);
    assert(times_xn(fone(), 1) == x);
    assert(times_xn(a, 1) == times_x(a));
}

/// `x^n * a` goes on by one factor `x` at a time.
pub proof fn law_powers_of_x_go_on(a: F128, n: nat)
    ensures
        times_xn(a, 0) == a,
        times_xn(a, n + 1) == fmul(F128 { lo: 2, hi: 0 }, times_xn(a, n)),
        fmul(times_xn(fone(), n), a) == times_xn(a, n),
{
    let b = times_xn(a, n);
    lemma_coefficient_bits(0, 0, 0);
    lemma_fmul_shift_left(fone(), b, 1);
    law_fmul_one_left(b);
    reveal_with_fuel(times_xn, 2);
    assert(times_xn(fone(), 1) == F128 { lo: 2, hi: 0 });
    assert(times_xn(b, 1) == times_x(b));
    lemma_fmul_shift_left(fone(), a, n);
    law_fmul_one_left(a);
}

} // verus!
