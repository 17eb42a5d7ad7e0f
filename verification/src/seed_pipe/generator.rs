//! The counter-based block generator.
//!
//! The generator's state advances by a constant for each draw and the mixing
//! function is not fed back, so the state before any block has a closed form and
//! blocks can be made independently of each other.

use crate::r1cs_hashes::{inputs_of, Compression, Inputs};
use vstd::arithmetic::div_mod::{lemma_add_mod_noop, lemma_add_mod_noop_right, lemma_mul_mod_noop_left};
use vstd::prelude::*;

verus! {

/// What one draw adds to the state.
pub const GOLDEN: u64 = 0x9E37_79B9_7F4A_7C15;

/// Draws for one block: the chaining value, the message and the counter.
pub const DRAWS_PER_BLOCK: usize = 25;

/// The seed of the warm-up run.
pub const WARMUP_SEED: u64 = 0x00C0_FFEE_BEEF_D15C;

/// Blocks that one task fills.
pub const FILL_CHUNK: usize = 4096;

/// The output for the state `z`.
pub open spec fn mixed(z: u64) -> u32 {
    let z1 = (z ^ (z >> 30)).wrapping_mul(0xBF58_476D_1CE4_E5B9);
    let z2 = (z1 ^ (z1 >> 27)).wrapping_mul(0x94D0_49BB_1331_11EB);
    (z2 ^ (z2 >> 31)) as u32
}

/// The state after `d` draws from `init`, one after the other.
pub open spec fn rng_state(init: u64, d: nat) -> u64
    decreases d,
{
    if d == 0 {
        init
    } else {
        rng_state(init, (d - 1) as nat).wrapping_add(GOLDEN)
    }
}

/// Draw number `d`, from zero.
pub open spec fn draw(init: u64, d: int) -> u32 {
    mixed(rng_state(init, (d + 1) as nat))
}

/// Block `i` of the sequence that starts from `init`.
pub open spec fn generated(init: u64, i: int) -> Inputs {
    Inputs {
        cv: Seq::new(8, |w: int| draw(init, 25 * i + w)),
        message: Seq::new(16, |w: int| draw(init, 25 * i + 8 + w)),
        counter: draw(init, 25 * i + 24) as u64,
        block_len: 64,
        flags: 11,
    }
}

/// The initial state for a size and a seed.
pub open spec fn init_of(log2_size: u32, seed: u64) -> u64 {
    seed ^ (((log2_size as u64) << 29) | ((log2_size as u64) >> 35))
}

/// `x` modulo 2^64.
#[verifier::opaque]
pub open spec fn mod64(x: int) -> int {
    x % 0x1_0000_0000_0000_0000
}

/// The state after `d` draws is the initial state plus `d` times the constant.
pub proof fn law_state_has_closed_form(init: u64, d: nat)
    ensures
        rng_state(init, d) == mod64(init + d * GOLDEN),
    decreases d,
{
    reveal(mod64);
    if d > 0 {
        law_state_has_closed_form(init, (d - 1) as nat);
        let x = init + (d - 1) * GOLDEN;
        assert((d - 1) * GOLDEN + GOLDEN == d * GOLDEN) by (nonlinear_arith)
            requires
                d > 0,
        ;
        lemma_add_mod_noop(x, GOLDEN as int, 0x1_0000_0000_0000_0000);
        assert(mod64(GOLDEN as int) == GOLDEN);
        assert(mod64(mod64(x) + GOLDEN) == mod64(x + GOLDEN));
    }
}

/// Reducing a factor and the product first does not change the reduced sum.
pub proof fn lemma_wrapped_product(init: int, d: int, g: int)
    ensures
        mod64(init + mod64(mod64(d) * g)) == mod64(init + d * g),
{
    reveal(mod64);
    lemma_mul_mod_noop_left(d, g, 0x1_0000_0000_0000_0000);
    lemma_add_mod_noop_right(init, d * g, 0x1_0000_0000_0000_0000);
}

/// The product modulo 2^64.
pub fn mul64(x: u64, y: u64) -> (r: u64)
    ensures
        r == mod64(x * y),
{
    reveal(mod64);
    x.wrapping_mul(y)
}

/// The sum modulo 2^64.
pub fn add64(x: u64, y: u64) -> (r: u64)
    ensures
        r == mod64(x + y),
{
    reveal(mod64);
    x.wrapping_add(y)
}

/// The mixing function.
pub fn mix(z: u64) -> (r: u32)
    ensures
        r == mixed(z),
{
    let z1 = (z ^ (z >> 30)).wrapping_mul(0xBF58_476D_1CE4_E5B9);
    let z2 = (z1 ^ (z1 >> 27)).wrapping_mul(0x94D0_49BB_1331_11EB);
    (z2 ^ (z2 >> 31)) as u32
}

/// The initial state for a size and a seed.
pub fn generator_init(log2_size: u32, seed: u64) -> (r: u64)
    ensures
        r == init_of(log2_size, seed),
{
    let n = log2_size as u64;
    seed ^ ((n << 29) | (n >> 35))
}

/// The state before the first draw of block `block`.
pub fn block_state(init: u64, block: usize) -> (s: u64)
    ensures
        s == rng_state(init, (25 * block) as nat),
{
    let n = mul64(block as u64, 25);
    let step = mul64(n, GOLDEN);
    let s = add64(init, step);
    proof {
        let d = 25 * block as int;
        law_state_has_closed_form(init, d as nat);
        lemma_wrapped_product(init as int, d, GOLDEN as int);
        assert((block as u64) * 25 == d);
        assert(n == mod64(d));
        assert(step == mod64(mod64(d) * GOLDEN));
        assert(s == mod64(init + d * GOLDEN));
        assert((d as nat) * GOLDEN == d * GOLDEN);
    }
    s
}

/// One block, from the closed form.
pub fn gen_block(init: u64, block: usize) -> (c: Compression)
    ensures
        inputs_of(c) == generated(init, block as int),
{
    let mut s = block_state(init, block);
    let mut cv = [0u32; 8];
    let ghost d0 = 25 * block as int;
    for w in 0..8usize
        invariant
            d0 == 25 * block,
            s == rng_state(init, (d0 + w) as nat),
            forall|k: int| 0 <= k < w ==> #[trigger] cv@[k] == draw(init, d0 + k),
    {
        s = s.wrapping_add(GOLDEN);
        assert((d0 + w + 1) as nat - 1 == (d0 + w) as nat);
        cv[w] = mix(s);
    }
    let mut message = [0u32; 16];
    for w in 0..16usize
        invariant
            d0 == 25 * block,
            s == rng_state(init, (d0 + 8 + w) as nat),
            forall|k: int| 0 <= k < w ==> #[trigger] message@[k] == draw(init, d0 + 8 + k),
    {
        s = s.wrapping_add(GOLDEN);
        assert((d0 + 8 + w + 1) as nat - 1 == (d0 + 8 + w) as nat);
        message[w] = mix(s);
    }
    s = s.wrapping_add(GOLDEN);
    assert((d0 + 25) as nat - 1 == (d0 + 24) as nat);
    let c = (cv, message, mix(s) as u64, 64u32, 11u32);
    proof {
        let g = generated(init, block as int);
        assert(cv@ =~= g.cv);
        assert(message@ =~= g.message);
    }
    c
}

} // verus!
