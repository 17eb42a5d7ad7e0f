//! Settings that come from the environment and from the processor.

use crate::seed_pipe::line::{number_in, parse_number};
use vstd::prelude::*;

verus! {

/// How far ahead the pair folds ask for their source.
pub const FOLD_PAIRS_PF_AHEAD: usize = 256;

/// How far ahead the sixteen-bank folds ask for their source.
pub const FOLD16_PF_AHEAD: usize = 512;

/// How far ahead the pairwise folds ask for their source.
pub const FOLD_AVX2_PF_AHEAD: usize = 4;

/// A distance: none when it is switched off, the number that the setting writes
/// when it writes one, and the usual one otherwise.
pub fn prefetch_ahead(off_is_set: bool, setting: Option<&str>, usual: usize) -> (r: usize)
    ensures
        r == (if off_is_set {
            0
        } else {
            match setting {
                Some(s) => match number_in(s@) {
                    Some(n) => if n <= usize::MAX {
                        n as usize
                    } else {
                        usual
                    },
                    None => usual,
                },
                None => usual,
            }
        }),
{
    if off_is_set {
        return 0;
    }
    match setting {
        Some(s) => match parse_number(s) {
            Some(n) => if n <= usize::MAX as u64 {
                n as usize
            } else {
                usual
            },
            None => usual,
        },
        None => usual,
    }
}

/// Whether the wide carry-less products can be used: both feature bits of the
/// processor's word are set. The result comes with the value to remember; a
/// remembered zero or one is the result of an earlier look.
pub fn vpclmulqdq_runtime(cached: u8, ebx: u32) -> (r: (bool, u8))
    ensures
        cached == 0 ==> r == (false, 0u8),
        cached == 1 ==> r == (true, 1u8),
        cached > 1 ==> r.0 == (ebx & 0x10000 != 0 && ebx & 0x400 != 0) && r.1 == (if r.0 {
            1u8
        } else {
            0u8
        }),
{
    if cached == 0 {
        return (false, 0);
    }
    if cached == 1 {
        return (true, 1);
    }
    let usable = ebx & 0x10000 != 0 && ebx & 0x400 != 0;
    (
        usable,
        if usable {
            1
        } else {
            0
        },
    )
}

} // verus!
