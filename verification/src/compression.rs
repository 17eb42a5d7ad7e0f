//! Single-node compression kernels.
//!
//! The kernels start from the chaining value above the whole initial value, run
//! the seven rounds, fold the halves and XOR the chaining value back in. The flag
//! byte selects the kernel and does not enter the rounds, so that the root and the
//! inner nodes share one form.

pub mod flags;

use crate::bits::lemma_word_facts;
use crate::blake3_core::laws::law_start_state_holds_the_inputs;
use crate::blake3_core::{compress_cv, init_state, seven_rounds, steps};
use crate::hash::{detect_platform, Blake3Platform};
use vstd::prelude::*;

verus! {

/// The initial chaining value.
pub const IV: [u32; 8] = [
    0x6A09E667, 0xBB67AE85, 0x3C6EF372, 0xA54FF53A, 0x510E527F, 0x9B05688C, 0x1F83D9AB, 0x5BE0CD19,
];

/// Flag of the first block of a chunk.
pub const CHUNK_START: u8 = 1;

/// Flag of the last block of a chunk.
pub const CHUNK_END: u8 = 2;

/// Flag of a parent node.
pub const PARENT: u8 = 4;

/// Flag of the root.
pub const ROOT: u8 = 8;

/// How far the rounds are unrolled.
#[derive(Clone, Copy, Debug, PartialEq, Eq, Structural)]
pub enum GMacroUnroll {
    Off,
    Round,
    All,
}

/// The unrolling of the kernels: one round at a time.
pub const G_MACRO_UNROLL_DEFAULT: GMacroUnroll = GMacroUnroll::Round;

/// The unrolling of this build, in which the root has no kernel of its own.
pub fn resolve_g_macro_unroll() -> (r: GMacroUnroll)
    ensures
        r == G_MACRO_UNROLL_DEFAULT,
{
    G_MACRO_UNROLL_DEFAULT
}

/// The state that the kernels start from.
pub open spec fn node_start(cv: Seq<u32>) -> Seq<u32> {
    cv + IV@
}

/// The chaining value that the kernels return: the halves of the final state and
/// the old chaining value, XORed.
pub open spec fn node_cv(cv: Seq<u32>, m: Seq<u32>) -> Seq<u32> {
    let s = steps(node_start(cv), m, 0, 56);
    Seq::new(8, |i: int| (s[i] ^ s[i + 8]) ^ cv[i])
}

/// Folds the halves of the state, and the initial value into the upper one.
pub fn permute(state: &mut [u32; 16])
    ensures
        forall|i: int| 0 <= i < 8 ==> #[trigger] final(state)@[i] == old(state)@[i] ^ old(state)@[i + 8],
        forall|i: int| 8 <= i < 16 ==> #[trigger] final(state)@[i] == old(state)@[i] ^ IV@[i - 8],
{
    let ghost s0 = state@;
    for i in 0..8usize
        invariant
            s0.len() == 16,
            forall|k: int| 0 <= k < i ==> #[trigger] state@[k] == s0[k] ^ s0[k + 8],
            forall|k: int| i <= k < 8 ==> #[trigger] state@[k] == s0[k],
            forall|k: int| 8 <= k < 8 + i ==> #[trigger] state@[k] == s0[k] ^ IV@[k - 8],
            forall|k: int| 8 + i <= k < 16 ==> #[trigger] state@[k] == s0[k],
    {
        state[i] = state[i] ^ state[i + 8];
        state[i + 8] = state[i + 8] ^ IV[i];
    }
}

/// Compresses an inner node.
pub fn compress_node(cv: &[u32; 8], m: &[u32; 16], flags: u8) -> (r: [u32; 8])
    requires
        flags & PARENT == PARENT,
    ensures
        r@ == node_cv(cv@, m@),
        // The old chaining value, taken off again, leaves the folded halves of the state
        // after the seven rounds.
        forall|i: int|
            0 <= i < 8 ==> #[trigger] r@[i] ^ cv@[i] == steps(cv@ + IV@, m@, 0, 56)[i] ^ steps(
                cv@ + IV@,
                m@,
                0,
                56,
            )[i + 8],
{
    let mut state = [
        cv[0],
        cv[1],
        cv[2],
        cv[3],
        cv[4],
        cv[5],
        cv[6],
        cv[7],
        IV[0],
        IV[1],
        IV[2],
        IV[3],
        IV[4],
        IV[5],
        IV[6],
        IV[7],
    ];
    assert(state@ =~= node_start(cv@));
    seven_rounds(&mut state, m);
    permute(&mut state);
    let r = [
        state[0] ^ cv[0],
        state[1] ^ cv[1],
        state[2] ^ cv[2],
        state[3] ^ cv[3],
        state[4] ^ cv[4],
        state[5] ^ cv[5],
        state[6] ^ cv[6],
        state[7] ^ cv[7],
    ];
    assert(r@ =~= node_cv(cv@, m@));
    proof {
        let s = steps(cv@ + IV@, m@, 0, 56);
        assert forall|i: int| 0 <= i < 8 implies #[trigger] r@[i] ^ cv@[i] == s[i] ^ s[i + 8] by {
            lemma_word_facts(0, 0, s[i] ^ s[i + 8], cv@[i], 0, 0);
        }
    }
    r
}

/// Compresses the root, which has the form of an inner node.
pub fn compress_root(cv: &[u32; 8], m: &[u32; 16], _flags: u8) -> (r: [u32; 8])
    ensures
        r@ == node_cv(cv@, m@),
        // The old chaining value, taken off again, leaves the folded halves of the state
        // after the seven rounds.
        forall|i: int|
            0 <= i < 8 ==> #[trigger] r@[i] ^ cv@[i] == steps(cv@ + IV@, m@, 0, 56)[i] ^ steps(
                cv@ + IV@,
                m@,
                0,
                56,
            )[i + 8],
{
    proof {
        lemma_word_facts(0, 0, 0, 0, 0, 0);
    }
    compress_node(cv, m, PARENT)
}

/// Compresses one node, as the root or as an inner node.
pub fn compress(cv: &[u32; 8], m: &[u32; 16], flags: u8, is_root: bool) -> (r: [u32; 8])
    ensures
        r@ == node_cv(cv@, m@),
        // The old chaining value, taken off again, leaves the folded halves of the state
        // after the seven rounds.
        forall|i: int|
            0 <= i < 8 ==> #[trigger] r@[i] ^ cv@[i] == steps(cv@ + IV@, m@, 0, 56)[i] ^ steps(
                cv@ + IV@,
                m@,
                0,
                56,
            )[i + 8],
{
    if is_root {
        compress_root(cv, m, flags | ROOT)
    } else {
        proof {
            lemma_word_facts(0, 0, 0, 0, flags, 0);
        }
        compress_node(cv, m, flags | PARENT)
    }
}

/// The kernels are the compression function with the rest of the initial value in the
/// place of the counter, the length and the flags, and with the chaining value XORed
/// in once more.
pub proof fn law_node_feeds_the_chaining_value_forward(cv: Seq<u32>, m: Seq<u32>, i: int)
    requires
        cv.len() == 8,
        0 <= i < 8,
    ensures
        node_cv(cv, m).len() == 8,
        node_cv(cv, m)[i] == compress_cv(cv, m, 0x9B05688C_510E527F, 0x1F83D9AB, 0x5BE0CD19)[i] ^ cv[i],
        node_cv(cv, m)[i] ^ cv[i] == compress_cv(cv, m, 0x9B05688C_510E527F, 0x1F83D9AB, 0x5BE0CD19)[i],
{
    let c: u64 = 0x9B05688C_510E527F;
    law_start_state_holds_the_inputs(cv, c, 0x1F83D9AB, 0x5BE0CD19);
    assert(node_start(cv) =~= init_state(cv, c, 0x1F83D9AB, 0x5BE0CD19));
    lemma_word_facts(0, 0, compress_cv(cv, m, c, 0x1F83D9AB, 0x5BE0CD19)[i], cv[i], 0, 0);
}

/// The build configuration of the kernels.
#[derive(Clone, Copy, Debug)]
pub struct KernelKnobs {
    pub specialize_root: bool,
    pub inline_message_schedule: bool,
    pub avx2_rotate_via_pshufb: bool,
    pub g_macro_unroll: GMacroUnroll,
}

impl KernelKnobs {
    /// The configuration of this build: no specialisation is on.
    pub fn current() -> (r: KernelKnobs)
        ensures
            !r.specialize_root,
            !r.inline_message_schedule,
            !r.avx2_rotate_via_pshufb,
            r.g_macro_unroll == G_MACRO_UNROLL_DEFAULT,
    {
        KernelKnobs {
            specialize_root: false,
            inline_message_schedule: false,
            avx2_rotate_via_pshufb: false,
            g_macro_unroll: resolve_g_macro_unroll(),
        }
    }
}

/// The platform of this machine, on which nothing is promised.
pub fn platform() -> Blake3Platform {
    detect_platform()
}

} // verus!
