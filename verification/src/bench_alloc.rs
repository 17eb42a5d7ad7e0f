//! The work of the allocation benchmark.

use crate::field::gf2_128::F128;
use vstd::prelude::*;

verus! {

/// Elements that the work writes.
pub const WORK_LEN: usize = 8192;

/// Writes the first [`WORK_LEN`] elements, column by column of a table of 128 rows of 64.
pub fn do_work(v: &mut [F128])
    requires
        old(v).len() >= WORK_LEN,
    ensures
        final(v).len() == old(v).len(),
        forall|n: int|
            0 <= n < old(v).len() ==> #[trigger] final(v)@[n] == (if n < WORK_LEN {
                F128 { lo: (n % 64) as u64, hi: (n / 64) as u64 }
            } else {
                old(v)@[n]
            }),
{
    let ghost before = v@;
    for i in 0..64usize
        invariant
            v.len() == before.len(),
            v.len() >= WORK_LEN,
            forall|n: int|
                0 <= n < before.len() ==> #[trigger] v@[n] == (if n < WORK_LEN && n % 64 < i {
                    F128 { lo: (n % 64) as u64, hi: (n / 64) as u64 }
                } else {
                    before[n]
                }),
    {
        for j in 0..128usize
            invariant
                i < 64,
                v.len() == before.len(),
                v.len() >= WORK_LEN,
                forall|n: int|
                    0 <= n < before.len() ==> #[trigger] v@[n] == (if n < WORK_LEN && (n % 64 < i || (n % 64 == i && n
                        / 64 < j)) {
                        F128 { lo: (n % 64) as u64, hi: (n / 64) as u64 }
                    } else {
                        before[n]
                    }),
        {
            v[j * 64 + i] = F128 { lo: i as u64, hi: j as u64 };
        }
    }
}

} // verus!
