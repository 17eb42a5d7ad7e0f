//! Sweeps over the packed witness: rows folded through byte tables, padded pairs
//! as zero rows, and the look-ahead message of what comes out.

use super::fold::{
    add_four_groups, add_one_group, fold16_to_4, fold2_seq, fold64_to_16, folds16, holds16, store_sixteen,
};
use super::message::{lookahead, lookahead_upto, LookaheadMessage};
use super::row_fold::{
    f128_byte, fold_round2_pair, gfni_fold64_rows, law_batch_is_row_fold, law_zero_row_folds_to_zero, mats_of,
    row_fold, tables_linear,
};
use crate::field::f128_slice::lerp2;
use crate::field::gf2_128::ghash::{f128x4_loadu, f128x4_storeu, F128x4};
use crate::field::gf2_128::{fmul, fzero, F128};
use vstd::arithmetic::power2::pow2;
use vstd::prelude::*;

verus! {

/// Whether the pair with index `pair` is padding.
pub open spec fn pair_skipped(pair: int, mask: usize, useful: usize) -> bool {
    ((pair as usize) & mask) >= useful
}

/// A packed row as the sweep sees it: zero in a padded pair, its fold otherwise.
pub open spec fn swept_row(table: Seq<F128>, pkt: Seq<u8>, row: int, pair: int, mask: usize, useful: usize) -> F128 {
    if pair_skipped(pair, mask, useful) {
        fzero()
    } else {
        row_fold(table, pkt, row)
    }
}

/// The `n` rows from `row_base` on as the sweep sees them; row `row_base` is the
/// first of pair `pair_base`.
pub open spec fn sweep_rows(
    table: Seq<F128>,
    pkt: Seq<u8>,
    row_base: int,
    pair_base: int,
    mask: usize,
    useful: usize,
    n: nat,
) -> Seq<F128> {
    Seq::new(n, |i: int| swept_row(table, pkt, row_base + i, pair_base + i / 2, mask, useful))
}

/// Whether the padded rows among the `n` rows from `row_base` on hold zero bytes.
pub open spec fn padding_is_zero(
    pkt: Seq<u8>,
    row_base: int,
    pair_base: int,
    mask: usize,
    useful: usize,
    n: int,
) -> bool {
    forall|i: int, j: int|
        0 <= i < n && pair_skipped(pair_base + i / 2, mask, useful) && #[trigger] in_row(j, row_base + i)
            ==> pkt[j] == 0
}

/// Byte `j` belongs to packed row `row`.
pub open spec fn in_row(j: int, row: int) -> bool {
    8 * row <= j < 8 * row + 8
}

proof fn lemma_padding_row(
    table: Seq<F128>,
    pkt: Seq<u8>,
    row_base: int,
    pair_base: int,
    mask: usize,
    useful: usize,
    n: int,
    i: int,
)
    requires
        tables_linear(table),
        padding_is_zero(pkt, row_base, pair_base, mask, useful, n),
        0 <= i < n,
    ensures
        swept_row(table, pkt, row_base + i, pair_base + i / 2, mask, useful) == row_fold(
            table,
            pkt,
            row_base + i,
        ),
{
    if pair_skipped(pair_base + i / 2, mask, useful) {
        let row = row_base + i;
        assert forall|j: int| 8 * row <= j < 8 * row + 8 implies #[trigger] pkt[j] == 0 by {
            assert(in_row(j, row_base + i));
        }
        law_zero_row_folds_to_zero(table, pkt, row);
    }
}

/// Sixty-four rows folded in one batch.
fn refill(pkt: &[u8], row: usize, mats: &[u64; 128], table: Ghost<Seq<F128>>) -> (out: [F128; 64])
    requires
        8 * row + 512 <= pkt.len(),
        tables_linear(table@),
        mats_of(table@, mats@),
    ensures
        forall|i: int| 0 <= i < 64 ==> #[trigger] out@[i] == row_fold(table@, pkt@, row + i),
{
    let out = gfni_fold64_rows(pkt, row, mats);
    proof {
        assert forall|i: int| 0 <= i < 64 implies #[trigger] out@[i] == row_fold(table@, pkt@, row + i) by {
            assert forall|k: int| 0 <= k < 16 implies #[trigger] f128_byte(out@[i], k)
                == super::row_fold::batch_byte(
                mats@,
                pkt@.subrange(8 * (row + i), 8 * (row + i) + 8),
                k,
            ) by {}
            law_batch_is_row_fold(table@, mats@, pkt@, row + i, out@[i]);
        }
    }
    out
}

/// The sixteen rows of eight pairs, as the sweep sees them: from the cached
/// batch where there is one, by table look-ups otherwise.
fn sweep_sixteen(
    table: &[F128],
    a_pkt: &[u8],
    b_pkt: &[u8],
    row: usize,
    pair: usize,
    mask: usize,
    useful: usize,
    cached: bool,
    fa: &[F128; 64],
    fb: &[F128; 64],
    at: usize,
) -> (r: ([F128; 16], [F128; 16]))
    requires
        table.len() == 2048,
        8 * row + 128 <= a_pkt.len(),
        8 * row + 128 <= b_pkt.len(),
        pair + 8 <= usize::MAX,
        cached ==> at + 16 <= 64,
        cached ==> forall|i: int| 0 <= i < 16 ==> #[trigger] fa@[at + i] == row_fold(table@, a_pkt@, row + i),
        cached ==> forall|i: int| 0 <= i < 16 ==> #[trigger] fb@[at + i] == row_fold(table@, b_pkt@, row + i),
    ensures
        forall|i: int|
            0 <= i < 16 ==> #[trigger] r.0@[i] == swept_row(
                table@,
                a_pkt@,
                row + i,
                pair + i / 2,
                mask,
                useful,
            ),
        forall|i: int|
            0 <= i < 16 ==> #[trigger] r.1@[i] == swept_row(
                table@,
                b_pkt@,
                row + i,
                pair + i / 2,
                mask,
                useful,
            ),
{
    let mut ra = [F128::zero(); 16];
    let mut rb = [F128::zero(); 16];
    for p in 0..8usize
        invariant
            table.len() == 2048,
            8 * row + 128 <= a_pkt.len(),
            8 * row + 128 <= b_pkt.len(),
            pair + 8 <= usize::MAX,
            cached ==> at + 16 <= 64,
            cached ==> forall|i: int|
                0 <= i < 16 ==> #[trigger] fa@[at + i] == row_fold(table@, a_pkt@, row + i),
            cached ==> forall|i: int|
                0 <= i < 16 ==> #[trigger] fb@[at + i] == row_fold(table@, b_pkt@, row + i),
            forall|i: int|
                0 <= i < 2 * p ==> #[trigger] ra@[i] == swept_row(
                    table@,
                    a_pkt@,
                    row + i,
                    pair + i / 2,
                    mask,
                    useful,
                ),
            forall|i: int|
                0 <= i < 2 * p ==> #[trigger] rb@[i] == swept_row(
                    table@,
                    b_pkt@,
                    row + i,
                    pair + i / 2,
                    mask,
                    useful,
                ),
            forall|i: int| 2 * p <= i < 16 ==> #[trigger] ra@[i] == fzero(),
            forall|i: int| 2 * p <= i < 16 ==> #[trigger] rb@[i] == fzero(),
    {
        let ghost c0 = 2 * p as int;
        assert((2 * p) / 2 == p && (2 * p + 1) / 2 == p);
        if ((pair + p) & mask) < useful {
            let folded = if cached {
                assert(fa@[at + c0] == row_fold(table@, a_pkt@, row + c0));
                assert(fa@[at + (c0 + 1)] == row_fold(table@, a_pkt@, row + (c0 + 1)));
                assert(fb@[at + c0] == row_fold(table@, b_pkt@, row + c0));
                assert(fb@[at + (c0 + 1)] == row_fold(table@, b_pkt@, row + (c0 + 1)));
                [fa[at + 2 * p], fa[at + 2 * p + 1], fb[at + 2 * p], fb[at + 2 * p + 1]]
            } else {
                fold_round2_pair(table, a_pkt, b_pkt, row + 2 * p, row + 2 * p + 1)
            };
            ra[2 * p] = folded[0];
            ra[2 * p + 1] = folded[1];
            rb[2 * p] = folded[2];
            rb[2 * p + 1] = folded[3];
        }
    }
    (ra, rb)
}

/// Four lane vectors from sixteen elements.
fn quads_of(src: &[F128], at: usize) -> (o: [F128x4; 4])
    requires
        at + 16 <= src.len(),
    ensures
        holds16(o@[0]@, o@[1]@, o@[2]@, o@[3]@, src@, at as int),
{
    [
        f128x4_loadu(src, at),
        f128x4_loadu(src, at + 4),
        f128x4_loadu(src, at + 8),
        f128x4_loadu(src, at + 12),
    ]
}

proof fn lemma_holds16_shift(
    o0: Seq<F128>,
    o1: Seq<F128>,
    o2: Seq<F128>,
    o3: Seq<F128>,
    src: Seq<F128>,
    at: int,
    want: Seq<F128>,
    to: int,
)
    requires
        holds16(o0, o1, o2, o3, src, at),
        forall|i: int| 0 <= i < 16 ==> #[trigger] src[at + i] == want[to + i],
    ensures
        holds16(o0, o1, o2, o3, want, to),
{
    assert forall|i: int| 0 <= i < 4 implies #[trigger] o0[i] == want[to + i] by {
        assert(src[at + i] == want[to + i]);
    }
    assert forall|i: int| 0 <= i < 4 implies #[trigger] o1[i] == want[to + 4 + i] by {
        assert(src[at + (4 + i)] == want[to + (4 + i)]);
    }
    assert forall|i: int| 0 <= i < 4 implies #[trigger] o2[i] == want[to + 8 + i] by {
        assert(src[at + (8 + i)] == want[to + (8 + i)]);
    }
    assert forall|i: int| 0 <= i < 4 implies #[trigger] o3[i] == want[to + 12 + i] by {
        assert(src[at + (12 + i)] == want[to + (12 + i)]);
    }
}

/// Sweeps one chunk of the packed witness: with `WRITE`, stores every row as the
/// sweep sees it; in any case returns the eight look-ahead sums of those rows.
///
/// Where `mats` are given and the chunk is a multiple of thirty-two pairs, the
/// rows are folded in batches; with `regfold`, a batch is used as it comes, and
/// the padded rows must hold zero bytes.
pub fn round2_lookahead_chunk<const WRITE: bool>(
    table: &[F128],
    mats: Option<&[u64; 128]>,
    a_pkt: &[u8],
    b_pkt: &[u8],
    row_base: usize,
    a_chunk: &mut [F128],
    b_chunk: &mut [F128],
    eq_lo: &[F128],
    pair_idx_base: usize,
    pair_in_block_mask: usize,
    useful_pairs_inclusive: usize,
    regfold: bool,
) -> (m: [F128; 8])
    requires
        table.len() == 2048,
        eq_lo.len() % 2 == 0,
        8 * (row_base + 2 * eq_lo.len()) <= a_pkt.len(),
        8 * (row_base + 2 * eq_lo.len()) <= b_pkt.len(),
        pair_idx_base + eq_lo.len() <= usize::MAX,
        WRITE ==> old(a_chunk).len() == 2 * eq_lo.len(),
        WRITE ==> old(b_chunk).len() == 2 * eq_lo.len(),
        mats matches Some(ms) ==> tables_linear(table@) && mats_of(table@, ms@),
        mats is Some && regfold ==> padding_is_zero(
            a_pkt@,
            row_base as int,
            pair_idx_base as int,
            pair_in_block_mask,
            useful_pairs_inclusive,
            2 * eq_lo.len(),
        ),
        mats is Some && regfold ==> padding_is_zero(
            b_pkt@,
            row_base as int,
            pair_idx_base as int,
            pair_in_block_mask,
            useful_pairs_inclusive,
            2 * eq_lo.len(),
        ),
    ensures
        ({
            let a = sweep_rows(
                table@,
                a_pkt@,
                row_base as int,
                pair_idx_base as int,
                pair_in_block_mask,
                useful_pairs_inclusive,
                (2 * eq_lo.len()) as nat,
            );
            let b = sweep_rows(
                table@,
                b_pkt@,
                row_base as int,
                pair_idx_base as int,
                pair_in_block_mask,
                useful_pairs_inclusive,
                (2 * eq_lo.len()) as nat,
            );
            &&& WRITE ==> final(a_chunk)@ == a && final(b_chunk)@ == b
            &&& !WRITE ==> final(a_chunk)@ == old(a_chunk)@ && final(b_chunk)@ == old(b_chunk)@
            &&& forall|k: int| 0 <= k < 8 ==> #[trigger] m@[k] == lookahead(k, eq_lo@, a, b)
        }),
{
    let ghost a0 = a_chunk@;
    let ghost b0 = b_chunk@;
    let mask = pair_in_block_mask;
    let useful = useful_pairs_inclusive;
    let lo_size: usize = eq_lo.len();
    let ghost sa = sweep_rows(
        table@,
        a_pkt@,
        row_base as int,
        pair_idx_base as int,
        mask,
        useful,
        (2 * lo_size) as nat,
    );
    let ghost sb = sweep_rows(
        table@,
        b_pkt@,
        row_base as int,
        pair_idx_base as int,
        mask,
        useful,
        (2 * lo_size) as nat,
    );
    let use_batch: bool = mats.is_some() && lo_size >= 32 && lo_size % 32 == 0;
    let mut fa = [F128::zero(); 64];
    let mut fb = [F128::zero(); 64];
    let mut msg = LookaheadMessage::new();
    let mut x_lo: usize = 0;
    while lo_size - x_lo >= 8
        invariant
            table.len() == 2048,
            lo_size == eq_lo.len(),
            lo_size % 2 == 0,
            x_lo <= lo_size,
            x_lo % 8 == 0,
            8 * (row_base + 2 * lo_size) <= a_pkt.len(),
            8 * (row_base + 2 * lo_size) <= b_pkt.len(),
            pair_idx_base + lo_size <= usize::MAX,
            mask == pair_in_block_mask,
            useful == useful_pairs_inclusive,
            use_batch ==> mats is Some && lo_size % 32 == 0,
            mats matches Some(ms) ==> tables_linear(table@) && mats_of(table@, ms@),
            mats is Some && regfold ==> padding_is_zero(
                a_pkt@,
                row_base as int,
                pair_idx_base as int,
                mask,
                useful,
                2 * lo_size as int,
            ),
            mats is Some && regfold ==> padding_is_zero(
                b_pkt@,
                row_base as int,
                pair_idx_base as int,
                mask,
                useful,
                2 * lo_size as int,
            ),
            sa == sweep_rows(
                table@,
                a_pkt@,
                row_base as int,
                pair_idx_base as int,
                mask,
                useful,
                (2 * lo_size) as nat,
            ),
            sb == sweep_rows(
                table@,
                b_pkt@,
                row_base as int,
                pair_idx_base as int,
                mask,
                useful,
                (2 * lo_size) as nat,
            ),
            WRITE ==> a_chunk.len() == 2 * lo_size,
            WRITE ==> b_chunk.len() == 2 * lo_size,
            WRITE ==> forall|i: int| 0 <= i < 2 * x_lo ==> #[trigger] a_chunk@[i] == sa[i],
            WRITE ==> forall|i: int| 0 <= i < 2 * x_lo ==> #[trigger] b_chunk@[i] == sb[i],
            !WRITE ==> a_chunk@ == a0 && b_chunk@ == b0,
            use_batch && x_lo % 32 != 0 ==> cache_holds(
                fa@,
                table@,
                a_pkt@,
                row_base + 2 * (x_lo - x_lo % 32),
            ),
            use_batch && x_lo % 32 != 0 ==> cache_holds(
                fb@,
                table@,
                b_pkt@,
                row_base + 2 * (x_lo - x_lo % 32),
            ),
            forall|k: int|
                0 <= k < 8 ==> #[trigger] msg.sum(k) == lookahead_upto(k, eq_lo@, sa, sb, (x_lo / 2) as nat),
        decreases lo_size - x_lo,
    {
        if use_batch && x_lo % 32 == 0 {
            match mats {
                Some(ms) => {
                    assert(x_lo + 32 <= lo_size) by {
                        assert(x_lo % 32 == 0 && lo_size % 32 == 0 && x_lo < lo_size);
                    }
                    let g0: usize = row_base + 2 * x_lo;
                    fa = refill(a_pkt, g0, ms, Ghost(table@));
                    fb = refill(b_pkt, g0, ms, Ghost(table@));
                },
                None => {},
            }
        }
        let at: usize = 2 * (x_lo % 32);
        let ghost cb = row_base + 2 * (x_lo - x_lo % 32);
        let row: usize = row_base + 2 * x_lo;
        proof {
            if use_batch {
                assert(cache_holds(fa@, table@, a_pkt@, cb));
                assert(cache_holds(fb@, table@, b_pkt@, cb));
                assert forall|i: int| 0 <= i < 16 implies #[trigger] fa@[at + i] == row_fold(
                    table@,
                    a_pkt@,
                    row + i,
                ) by {
                    assert(cached_at(fa@, table@, a_pkt@, cb, at + i));
                    assert(cb + (at + i) == row + i);
                }
                assert forall|i: int| 0 <= i < 16 implies #[trigger] fb@[at + i] == row_fold(
                    table@,
                    b_pkt@,
                    row + i,
                ) by {
                    assert(cached_at(fb@, table@, b_pkt@, cb, at + i));
                    assert(cb + (at + i) == row + i);
                }
            }
        }
        let (oa, ob): ([F128x4; 4], [F128x4; 4]) = if use_batch && regfold {
            let oa = quads_of(&fa, at);
            let ob = quads_of(&fb, at);
            proof {
                assert forall|i: int| 0 <= i < 16 implies #[trigger] fa@[at + i] == sa[2 * x_lo + i] by {
                    lemma_padding_row(
                        table@,
                        a_pkt@,
                        row_base as int,
                        pair_idx_base as int,
                        mask,
                        useful,
                        2 * lo_size as int,
                        2 * x_lo + i,
                    );
                }
                lemma_holds16_shift(oa@[0]@, oa@[1]@, oa@[2]@, oa@[3]@, fa@, at as int, sa, 2 * x_lo as int);
                assert forall|i: int| 0 <= i < 16 implies #[trigger] fb@[at + i] == sb[2 * x_lo + i] by {
                    lemma_padding_row(
                        table@,
                        b_pkt@,
                        row_base as int,
                        pair_idx_base as int,
                        mask,
                        useful,
                        2 * lo_size as int,
                        2 * x_lo + i,
                    );
                }
                lemma_holds16_shift(ob@[0]@, ob@[1]@, ob@[2]@, ob@[3]@, fb@, at as int, sb, 2 * x_lo as int);
            }
            (oa, ob)
        } else {
            let (ra, rb) = sweep_sixteen(
                table,
                a_pkt,
                b_pkt,
                row,
                pair_idx_base + x_lo,
                mask,
                useful,
                use_batch,
                &fa,
                &fb,
                at,
            );
            let oa = quads_of(&ra, 0);
            let ob = quads_of(&rb, 0);
            proof {
                assert forall|i: int| 0 <= i < 16 implies #[trigger] ra@[0 + i] == sa[2 * x_lo + i] by {
                    assert((2 * x_lo + i) / 2 == x_lo + i / 2);
                }
                lemma_holds16_shift(oa@[0]@, oa@[1]@, oa@[2]@, oa@[3]@, ra@, 0, sa, 2 * x_lo as int);
                assert forall|i: int| 0 <= i < 16 implies #[trigger] rb@[0 + i] == sb[2 * x_lo + i] by {
                    assert((2 * x_lo + i) / 2 == x_lo + i / 2);
                }
                lemma_holds16_shift(ob@[0]@, ob@[1]@, ob@[2]@, ob@[3]@, rb@, 0, sb, 2 * x_lo as int);
            }
            (oa, ob)
        };
        if WRITE {
            store_sixteen(a_chunk, 2 * x_lo, oa[0], oa[1], oa[2], oa[3], Ghost(sa));
            store_sixteen(b_chunk, 2 * x_lo, ob[0], ob[1], ob[2], ob[3], Ghost(sb));
        }
        add_four_groups(&mut msg, eq_lo, x_lo, oa, ob, Ghost(sa), Ghost(sb));
        proof {
            assert((x_lo + 8) / 2 == x_lo / 2 + 4);
            if (x_lo + 8) % 32 != 0 {
                assert((x_lo + 8) - (x_lo + 8) % 32 == x_lo - x_lo % 32);
            }
        }
        x_lo = x_lo + 8;
    }
    while lo_size - x_lo >= 2
        invariant
            table.len() == 2048,
            lo_size == eq_lo.len(),
            lo_size % 2 == 0,
            x_lo <= lo_size,
            x_lo % 2 == 0,
            8 * (row_base + 2 * lo_size) <= a_pkt.len(),
            8 * (row_base + 2 * lo_size) <= b_pkt.len(),
            pair_idx_base + lo_size <= usize::MAX,
            sa == sweep_rows(
                table@,
                a_pkt@,
                row_base as int,
                pair_idx_base as int,
                mask,
                useful,
                (2 * lo_size) as nat,
            ),
            sb == sweep_rows(
                table@,
                b_pkt@,
                row_base as int,
                pair_idx_base as int,
                mask,
                useful,
                (2 * lo_size) as nat,
            ),
            WRITE ==> a_chunk.len() == 2 * lo_size,
            WRITE ==> b_chunk.len() == 2 * lo_size,
            WRITE ==> forall|i: int| 0 <= i < 2 * x_lo ==> #[trigger] a_chunk@[i] == sa[i],
            WRITE ==> forall|i: int| 0 <= i < 2 * x_lo ==> #[trigger] b_chunk@[i] == sb[i],
            !WRITE ==> a_chunk@ == a0 && b_chunk@ == b0,
            forall|k: int|
                0 <= k < 8 ==> #[trigger] msg.sum(k) == lookahead_upto(k, eq_lo@, sa, sb, (x_lo / 2) as nat),
        decreases lo_size - x_lo,
    {
        let mut ra = [F128::zero(); 4];
        let mut rb = [F128::zero(); 4];
        for half in 0..2usize
            invariant
                table.len() == 2048,
                x_lo % 2 == 0,
                x_lo + 2 <= lo_size,
                8 * (row_base + 2 * lo_size) <= a_pkt.len(),
                8 * (row_base + 2 * lo_size) <= b_pkt.len(),
                pair_idx_base + lo_size <= usize::MAX,
                sa == sweep_rows(
                    table@,
                    a_pkt@,
                    row_base as int,
                    pair_idx_base as int,
                    mask,
                    useful,
                    (2 * lo_size) as nat,
                ),
                sb == sweep_rows(
                    table@,
                    b_pkt@,
                    row_base as int,
                    pair_idx_base as int,
                    mask,
                    useful,
                    (2 * lo_size) as nat,
                ),
                forall|i: int| 0 <= i < 2 * half ==> #[trigger] ra@[i] == sa[2 * x_lo + i],
                forall|i: int| 0 <= i < 2 * half ==> #[trigger] rb@[i] == sb[2 * x_lo + i],
                forall|i: int| 2 * half <= i < 4 ==> #[trigger] ra@[i] == fzero(),
                forall|i: int| 2 * half <= i < 4 ==> #[trigger] rb@[i] == fzero(),
        {
            let pair: usize = x_lo + half;
            assert((2 * pair) / 2 == pair && (2 * pair + 1) / 2 == pair);
            if ((pair_idx_base + pair) & mask) < useful {
                let row: usize = row_base + 2 * pair;
                let folded = fold_round2_pair(table, a_pkt, b_pkt, row, row + 1);
                ra[2 * half] = folded[0];
                ra[2 * half + 1] = folded[1];
                rb[2 * half] = folded[2];
                rb[2 * half + 1] = folded[3];
            }
            proof {
                assert(sa[2 * pair as int] == swept_row(
                    table@,
                    a_pkt@,
                    row_base + 2 * pair,
                    pair_idx_base + pair,
                    mask,
                    useful,
                ));
                assert(sa[2 * pair + 1] == swept_row(
                    table@,
                    a_pkt@,
                    row_base + (2 * pair + 1),
                    pair_idx_base + pair,
                    mask,
                    useful,
                ));
                assert(sb[2 * pair as int] == swept_row(
                    table@,
                    b_pkt@,
                    row_base + 2 * pair,
                    pair_idx_base + pair,
                    mask,
                    useful,
                ));
                assert(sb[2 * pair + 1] == swept_row(
                    table@,
                    b_pkt@,
                    row_base + (2 * pair + 1),
                    pair_idx_base + pair,
                    mask,
                    useful,
                ));
            }
        }
        let o: usize = 2 * x_lo;
        if WRITE {
            a_chunk[o] = ra[0];
            a_chunk[o + 1] = ra[1];
            a_chunk[o + 2] = ra[2];
            a_chunk[o + 3] = ra[3];
            b_chunk[o] = rb[0];
            b_chunk[o + 1] = rb[1];
            b_chunk[o + 2] = rb[2];
            b_chunk[o + 3] = rb[3];
        }
        let ghost before = msg;
        msg.add_one(eq_lo[x_lo + 1], ra, rb);
        proof {
            let n = (x_lo / 2) as int;
            assert(2 * n == x_lo && (x_lo + 2) / 2 == n + 1);
            assert(ra@[0] == sa[2 * x_lo + 0] && ra@[1] == sa[2 * x_lo + 1] && ra@[2] == sa[2 * x_lo + 2] && ra@[3]
                == sa[2 * x_lo + 3]);
            assert(rb@[0] == sb[2 * x_lo + 0] && rb@[1] == sb[2 * x_lo + 1] && rb@[2] == sb[2 * x_lo + 2] && rb@[3]
                == sb[2 * x_lo + 3]);
            assert forall|k: int| 0 <= k < 8 implies #[trigger] msg.sum(k) == lookahead_upto(
                k,
                eq_lo@,
                sa,
                sb,
                (n + 1) as nat,
            ) by {
                assert(before.sum(k) == lookahead_upto(k, eq_lo@, sa, sb, n as nat));
                super::message::lemma_lookahead_step1(k, eq_lo@, sa, sb, n);
            }
        }
        x_lo = x_lo + 2;
    }
    proof {
        if WRITE {
            assert(a_chunk@ =~= sa);
            assert(b_chunk@ =~= sb);
        }
    }
    msg.finish()
}

/// Four composed outputs of each table, from sixteen swept rows.
fn group_from_packed(
    table: &[F128],
    a_pkt: &[u8],
    b_pkt: &[u8],
    x0: usize,
    rho1: F128,
    rho2: F128,
    mask: usize,
    useful: usize,
    cached: bool,
    fa: &[F128; 64],
    fb: &[F128; 64],
    at: usize,
) -> (r: (F128x4, F128x4))
    requires
        table.len() == 2048,
        8 * (4 * x0 + 16) <= a_pkt.len(),
        8 * (4 * x0 + 16) <= b_pkt.len(),
        cached ==> at + 16 <= 64,
        cached ==> forall|i: int| 0 <= i < 16 ==> #[trigger] fa@[at + i] == row_fold(table@, a_pkt@, 4 * x0 + i),
        cached ==> forall|i: int| 0 <= i < 16 ==> #[trigger] fb@[at + i] == row_fold(table@, b_pkt@, 4 * x0 + i),
    ensures
        composed_at(r.0@, table@, a_pkt@, x0 as int, rho1, rho2, mask, useful),
        composed_at(r.1@, table@, b_pkt@, x0 as int, rho1, rho2, mask, useful),
{
    let (ra, rb) = sweep_sixteen(
        table,
        a_pkt,
        b_pkt,
        4 * x0,
        2 * x0,
        mask,
        useful,
        cached,
        fa,
        fb,
        at,
    );
    let qa = fold16_to_4(&ra, 0, rho1, rho2);
    let qb = fold16_to_4(&rb, 0, rho1, rho2);
    proof {
        lemma_composed_from_rows(qa@, ra@, 0, table@, a_pkt@, x0 as int, rho1, rho2, mask, useful);
        lemma_composed_from_rows(qb@, rb@, 0, table@, b_pkt@, x0 as int, rho1, rho2, mask, useful);
    }
    (qa, qb)
}

/// Composed output `x`: the four swept rows from `4 x` on, folded at `rho1` and then at `rho2`.
#[verifier::opaque]
pub open spec fn composed(
    table: Seq<F128>,
    pkt: Seq<u8>,
    x: int,
    rho1: F128,
    rho2: F128,
    mask: usize,
    useful: usize,
) -> F128 {
    lerp2(
        swept_row(table, pkt, 4 * x, 2 * x, mask, useful),
        swept_row(table, pkt, 4 * x + 1, 2 * x, mask, useful),
        swept_row(table, pkt, 4 * x + 2, 2 * x + 1, mask, useful),
        swept_row(table, pkt, 4 * x + 3, 2 * x + 1, mask, useful),
        rho1,
        rho2,
    )
}

/// The `n` composed outputs from `out_base` on.
pub open spec fn composed_seq(
    table: Seq<F128>,
    pkt: Seq<u8>,
    out_base: int,
    rho1: F128,
    rho2: F128,
    mask: usize,
    useful: usize,
    n: nat,
) -> Seq<F128> {
    Seq::new(n, |o: int| composed(table, pkt, out_base + o, rho1, rho2, mask, useful))
}

/// The lanes of `q` are the composed outputs from `x0` on.
spec fn composed_at(
    q: Seq<F128>,
    table: Seq<F128>,
    pkt: Seq<u8>,
    x0: int,
    rho1: F128,
    rho2: F128,
    mask: usize,
    useful: usize,
) -> bool {
    forall|i: int| 0 <= i < 4 ==> #[trigger] q[i] == composed(table, pkt, x0 + i, rho1, rho2, mask, useful)
}

proof fn lemma_composed_from_rows(
    q: Seq<F128>,
    rows: Seq<F128>,
    s: int,
    table: Seq<F128>,
    pkt: Seq<u8>,
    x0: int,
    rho1: F128,
    rho2: F128,
    mask: usize,
    useful: usize,
)
    requires
        folds16(q, rows, s, rho1, rho2),
        forall|i: int|
            0 <= i < 16 ==> #[trigger] rows[s + i] == swept_row(
                table,
                pkt,
                4 * x0 + i,
                2 * x0 + i / 2,
                mask,
                useful,
            ),
    ensures
        composed_at(q, table, pkt, x0, rho1, rho2, mask, useful),
{
    reveal(composed);
    assert forall|i: int| 0 <= i < 4 implies #[trigger] q[i] == composed(
        table,
        pkt,
        x0 + i,
        rho1,
        rho2,
        mask,
        useful,
    ) by {
        let b = 4 * i;
        assert(rows[s + b] == swept_row(table, pkt, 4 * x0 + b, 2 * x0 + b / 2, mask, useful));
        assert(rows[s + (b + 1)] == swept_row(table, pkt, 4 * x0 + (b + 1), 2 * x0 + (b + 1) / 2, mask, useful));
        assert(rows[s + (b + 2)] == swept_row(table, pkt, 4 * x0 + (b + 2), 2 * x0 + (b + 2) / 2, mask, useful));
        assert(rows[s + (b + 3)] == swept_row(table, pkt, 4 * x0 + (b + 3), 2 * x0 + (b + 3) / 2, mask, useful));
        assert(b / 2 == 2 * i && (b + 1) / 2 == 2 * i && (b + 2) / 2 == 2 * i + 1 && (b + 3) / 2 == 2 * i + 1);
        assert(4 * x0 + b == 4 * (x0 + i));
        assert(2 * x0 + 2 * i == 2 * (x0 + i));
    }
}

/// The swept rows folded twice are the composed outputs.
pub proof fn law_composed_is_sweep_folded_twice(
    table: Seq<F128>,
    pkt: Seq<u8>,
    out_base: int,
    rho1: F128,
    rho2: F128,
    mask: usize,
    useful: usize,
    n: nat,
)
    ensures
        fold2_seq(
            sweep_rows(table, pkt, 4 * out_base, 2 * out_base, mask, useful, 4 * n),
            rho1,
            rho2,
        ) == composed_seq(table, pkt, out_base, rho1, rho2, mask, useful, n),
{
    reveal(composed);
    let rows = sweep_rows(table, pkt, 4 * out_base, 2 * out_base, mask, useful, 4 * n);
    let left = fold2_seq(rows, rho1, rho2);
    let right = composed_seq(table, pkt, out_base, rho1, rho2, mask, useful, n);
    assert(left.len() == n);
    assert forall|o: int| 0 <= o < n implies left[o] == right[o] by {
        let b = 4 * o;
        assert(b / 2 == 2 * o && (b + 1) / 2 == 2 * o && (b + 2) / 2 == 2 * o + 1 && (b + 3) / 2 == 2 * o + 1);
        assert(4 * out_base + b == 4 * (out_base + o));
        assert(2 * out_base + 2 * o == 2 * (out_base + o));
    }
    assert(left =~= right);
}

/// Sixteen composed outputs of each table, from sixty-four swept rows.
fn composed_sixteen(
    table: &[F128],
    mats: Option<&[u64; 128]>,
    a_pkt: &[u8],
    b_pkt: &[u8],
    out_base: usize,
    ol: usize,
    rho1: F128,
    rho2: F128,
    rho12: F128,
    mask: usize,
    useful: usize,
    regfold: bool,
    defer: bool,
    n: Ghost<int>,
) -> (r: ([F128x4; 4], [F128x4; 4]))
    requires
        table.len() == 2048,
        rho12 == fmul(rho1, rho2),
        4 * ol + 64 <= n@,
        8 * (4 * out_base + n@) <= a_pkt.len(),
        8 * (4 * out_base + n@) <= b_pkt.len(),
        mats matches Some(ms) ==> tables_linear(table@) && mats_of(table@, ms@),
        mats is Some && regfold ==> padding_is_zero(
            a_pkt@,
            4 * out_base as int,
            2 * out_base as int,
            mask,
            useful,
            n@,
        ),
        mats is Some && regfold ==> padding_is_zero(
            b_pkt@,
            4 * out_base as int,
            2 * out_base as int,
            mask,
            useful,
            n@,
        ),
    ensures
        composed_four(r.0@, table@, a_pkt@, out_base + ol, rho1, rho2, mask, useful),
        composed_four(r.1@, table@, b_pkt@, out_base + ol, rho1, rho2, mask, useful),
{
    let xg: usize = out_base + ol;
    let mut fa = [F128::zero(); 64];
    let mut fb = [F128::zero(); 64];
    let cached: bool = match mats {
        Some(ms) => {
            fa = refill(a_pkt, 4 * xg, ms, Ghost(table@));
            fb = refill(b_pkt, 4 * xg, ms, Ghost(table@));
            true
        },
        None => false,
    };
    if cached && regfold {
        let oa = fold64_to_16(&fa, 0, rho1, rho2, rho12, defer);
        let ob = fold64_to_16(&fb, 0, rho1, rho2, rho12, defer);
        proof {
            lemma_batch_rows(fa@, table@, a_pkt@, out_base as int, ol as int, mask, useful, n@);
            lemma_batch_rows(fb@, table@, b_pkt@, out_base as int, ol as int, mask, useful, n@);
            lemma_four_groups(oa@, fa@, table@, a_pkt@, xg as int, rho1, rho2, mask, useful);
            lemma_four_groups(ob@, fb@, table@, b_pkt@, xg as int, rho1, rho2, mask, useful);
        }
        (oa, ob)
    } else {
        proof {
            if cached {
                lemma_cache_part(fa@, table@, a_pkt@, xg as int, 0);
                lemma_cache_part(fb@, table@, b_pkt@, xg as int, 0);
                lemma_cache_part(fa@, table@, a_pkt@, xg as int, 1);
                lemma_cache_part(fb@, table@, b_pkt@, xg as int, 1);
                lemma_cache_part(fa@, table@, a_pkt@, xg as int, 2);
                lemma_cache_part(fb@, table@, b_pkt@, xg as int, 2);
                lemma_cache_part(fa@, table@, a_pkt@, xg as int, 3);
                lemma_cache_part(fb@, table@, b_pkt@, xg as int, 3);
            }
        }
        let (oa0, ob0) = group_from_packed(
            table, a_pkt, b_pkt, xg, rho1, rho2, mask, useful, cached, &fa, &fb, 0,
        );
        let (oa1, ob1) = group_from_packed(
            table, a_pkt, b_pkt, xg + 4, rho1, rho2, mask, useful, cached, &fa, &fb, 16,
        );
        let (oa2, ob2) = group_from_packed(
            table, a_pkt, b_pkt, xg + 8, rho1, rho2, mask, useful, cached, &fa, &fb, 32,
        );
        let (oa3, ob3) = group_from_packed(
            table, a_pkt, b_pkt, xg + 12, rho1, rho2, mask, useful, cached, &fa, &fb, 48,
        );
        ([oa0, oa1, oa2, oa3], [ob0, ob1, ob2, ob3])
    }
}

/// Four vectors hold the sixteen composed outputs from `xg` on.
spec fn composed_four(
    o: Seq<F128x4>,
    table: Seq<F128>,
    pkt: Seq<u8>,
    xg: int,
    rho1: F128,
    rho2: F128,
    mask: usize,
    useful: usize,
) -> bool {
    &&& composed_at(o[0]@, table, pkt, xg, rho1, rho2, mask, useful)
    &&& composed_at(o[1]@, table, pkt, xg + 4, rho1, rho2, mask, useful)
    &&& composed_at(o[2]@, table, pkt, xg + 8, rho1, rho2, mask, useful)
    &&& composed_at(o[3]@, table, pkt, xg + 12, rho1, rho2, mask, useful)
}

/// The composed outputs of a chunk and their look-ahead sums.
fn composed_pass(
    table: &[F128],
    mats: Option<&[u64; 128]>,
    a_pkt: &[u8],
    b_pkt: &[u8],
    out_base: usize,
    a_out: &mut [F128],
    b_out: &mut [F128],
    rho1: F128,
    rho2: F128,
    eq_lo: &[F128],
    pair_in_block_mask: usize,
    useful_pairs_inclusive: usize,
    regfold: bool,
    defer: bool,
) -> (m: [F128; 8])
    requires
        table.len() == 2048,
        eq_lo.len() % 2 == 0,
        old(a_out).len() == 2 * eq_lo.len(),
        old(b_out).len() == 2 * eq_lo.len(),
        8 * (4 * out_base + 8 * eq_lo.len()) <= a_pkt.len(),
        8 * (4 * out_base + 8 * eq_lo.len()) <= b_pkt.len(),
        mats matches Some(ms) ==> tables_linear(table@) && mats_of(table@, ms@),
        mats is Some && regfold ==> padding_is_zero(
            a_pkt@,
            4 * out_base as int,
            2 * out_base as int,
            pair_in_block_mask,
            useful_pairs_inclusive,
            8 * eq_lo.len(),
        ),
        mats is Some && regfold ==> padding_is_zero(
            b_pkt@,
            4 * out_base as int,
            2 * out_base as int,
            pair_in_block_mask,
            useful_pairs_inclusive,
            8 * eq_lo.len(),
        ),
    ensures
        final(a_out)@ == composed_seq(
            table@,
            a_pkt@,
            out_base as int,
            rho1,
            rho2,
            pair_in_block_mask,
            useful_pairs_inclusive,
            (2 * eq_lo.len()) as nat,
        ),
        final(b_out)@ == composed_seq(
            table@,
            b_pkt@,
            out_base as int,
            rho1,
            rho2,
            pair_in_block_mask,
            useful_pairs_inclusive,
            (2 * eq_lo.len()) as nat,
        ),
        forall|k: int|
            0 <= k < 8 ==> #[trigger] m@[k] == lookahead(k, eq_lo@, final(a_out)@, final(b_out)@),
{
    let mask = pair_in_block_mask;
    let useful = useful_pairs_inclusive;
    let lo_size: usize = eq_lo.len();
    let ghost sa = composed_seq(table@, a_pkt@, out_base as int, rho1, rho2, mask, useful, (2 * lo_size) as nat);
    let ghost sb = composed_seq(table@, b_pkt@, out_base as int, rho1, rho2, mask, useful, (2 * lo_size) as nat);
    let rho12 = rho1 * rho2;
    let mut msg = LookaheadMessage::new();
    let mut x_lo: usize = 0;
    while lo_size - x_lo >= 8
        invariant
            table.len() == 2048,
            rho12 == fmul(rho1, rho2),
            lo_size == eq_lo.len(),
            lo_size % 2 == 0,
            x_lo <= lo_size,
            x_lo % 8 == 0,
            8 * (4 * out_base + 8 * lo_size) <= a_pkt.len(),
            8 * (4 * out_base + 8 * lo_size) <= b_pkt.len(),
            a_out.len() == 2 * lo_size,
            b_out.len() == 2 * lo_size,
            mats matches Some(ms) ==> tables_linear(table@) && mats_of(table@, ms@),
            mats is Some && regfold ==> padding_is_zero(
                a_pkt@,
                4 * out_base as int,
                2 * out_base as int,
                mask,
                useful,
                8 * lo_size as int,
            ),
            mats is Some && regfold ==> padding_is_zero(
                b_pkt@,
                4 * out_base as int,
                2 * out_base as int,
                mask,
                useful,
                8 * lo_size as int,
            ),
            sa == composed_seq(table@, a_pkt@, out_base as int, rho1, rho2, mask, useful, (2 * lo_size) as nat),
            sb == composed_seq(table@, b_pkt@, out_base as int, rho1, rho2, mask, useful, (2 * lo_size) as nat),
            forall|i: int| 0 <= i < 2 * x_lo ==> #[trigger] a_out@[i] == sa[i],
            forall|i: int| 0 <= i < 2 * x_lo ==> #[trigger] b_out@[i] == sb[i],
            forall|k: int|
                0 <= k < 8 ==> #[trigger] msg.sum(k) == lookahead_upto(k, eq_lo@, sa, sb, (x_lo / 2) as nat),
        decreases lo_size - x_lo,
    {
        let ol: usize = 2 * x_lo;
        let (oa, ob) = composed_sixteen(
            table,
            mats,
            a_pkt,
            b_pkt,
            out_base,
            ol,
            rho1,
            rho2,
            rho12,
            mask,
            useful,
            regfold,
            defer,
            Ghost(8 * lo_size as int),
        );
        proof {
            lemma_composed_holds16(oa@, table@, a_pkt@, out_base as int, ol as int, rho1, rho2, mask, useful, sa);
            lemma_composed_holds16(ob@, table@, b_pkt@, out_base as int, ol as int, rho1, rho2, mask, useful, sb);
        }
        store_sixteen(a_out, ol, oa[0], oa[1], oa[2], oa[3], Ghost(sa));
        store_sixteen(b_out, ol, ob[0], ob[1], ob[2], ob[3], Ghost(sb));
        add_four_groups(&mut msg, eq_lo, x_lo, oa, ob, Ghost(sa), Ghost(sb));
        proof {
            assert((x_lo + 8) / 2 == x_lo / 2 + 4);
        }
        x_lo = x_lo + 8;
    }
    while lo_size - x_lo >= 2
        invariant
            table.len() == 2048,
            lo_size == eq_lo.len(),
            lo_size % 2 == 0,
            x_lo <= lo_size,
            x_lo % 2 == 0,
            8 * (4 * out_base + 8 * lo_size) <= a_pkt.len(),
            8 * (4 * out_base + 8 * lo_size) <= b_pkt.len(),
            a_out.len() == 2 * lo_size,
            b_out.len() == 2 * lo_size,
            sa == composed_seq(table@, a_pkt@, out_base as int, rho1, rho2, mask, useful, (2 * lo_size) as nat),
            sb == composed_seq(table@, b_pkt@, out_base as int, rho1, rho2, mask, useful, (2 * lo_size) as nat),
            forall|i: int| 0 <= i < 2 * x_lo ==> #[trigger] a_out@[i] == sa[i],
            forall|i: int| 0 <= i < 2 * x_lo ==> #[trigger] b_out@[i] == sb[i],
            forall|k: int|
                0 <= k < 8 ==> #[trigger] msg.sum(k) == lookahead_upto(k, eq_lo@, sa, sb, (x_lo / 2) as nat),
        decreases lo_size - x_lo,
    {
        let ol: usize = 2 * x_lo;
        let none = [F128::zero(); 64];
        let (oa, ob) = group_from_packed(
            table, a_pkt, b_pkt, out_base + ol, rho1, rho2, mask, useful, false, &none, &none, 0,
        );
        let ghost a_before = a_out@;
        let ghost b_before = b_out@;
        f128x4_storeu(a_out, ol, oa);
        f128x4_storeu(b_out, ol, ob);
        proof {
            assert forall|i: int| 0 <= i < ol + 4 implies #[trigger] a_out@[i] == sa[i] by {
                if ol <= i {
                    assert(oa@[i - ol] == composed(table@, a_pkt@, out_base + ol + (i - ol), rho1, rho2, mask, useful));
                }
            }
            assert forall|i: int| 0 <= i < ol + 4 implies #[trigger] b_out@[i] == sb[i] by {
                if ol <= i {
                    assert(ob@[i - ol] == composed(table@, b_pkt@, out_base + ol + (i - ol), rho1, rho2, mask, useful));
                }
            }
        }
        add_one_group(&mut msg, eq_lo, x_lo, a_out, b_out, Ghost(sa), Ghost(sb));
        proof {
            assert((x_lo + 2) / 2 == x_lo / 2 + 1);
        }
        x_lo = x_lo + 2;
    }
    proof {
        assert(a_out@ =~= sa);
        assert(b_out@ =~= sb);
    }
    msg.finish()
}

/// Re-derives the swept rows from the packed witness, folds them at `rho1` and
/// then at `rho2` without storing them, and returns the eight look-ahead sums of
/// the outputs. Output `o` of the chunk comes from the rows `4 (out_base + o)` on.
///
/// Where `mats` are given, the rows are folded in batches; with `regfold`, a
/// batch is used as it comes, and the padded rows must hold zero bytes. With
/// `defer` the two folds of a batch share one reduction.
pub fn fold2_from_packed_lookahead(
    table: &[F128],
    mats: Option<&[u64; 128]>,
    a_pkt: &[u8],
    b_pkt: &[u8],
    out_base: usize,
    a_out: &mut [F128],
    b_out: &mut [F128],
    rho1: F128,
    rho2: F128,
    eq_lo: &[F128],
    pair_in_block_mask: usize,
    useful_pairs_inclusive: usize,
    regfold: bool,
    defer: bool,
) -> (m: [F128; 8])
    requires
        table.len() == 2048,
        eq_lo.len() % 2 == 0,
        old(a_out).len() == 2 * eq_lo.len(),
        old(b_out).len() == 2 * eq_lo.len(),
        8 * (4 * out_base + 8 * eq_lo.len()) <= a_pkt.len(),
        8 * (4 * out_base + 8 * eq_lo.len()) <= b_pkt.len(),
        mats matches Some(ms) ==> tables_linear(table@) && mats_of(table@, ms@),
        mats is Some && regfold ==> padding_is_zero(
            a_pkt@,
            4 * out_base as int,
            2 * out_base as int,
            pair_in_block_mask,
            useful_pairs_inclusive,
            8 * eq_lo.len(),
        ),
        mats is Some && regfold ==> padding_is_zero(
            b_pkt@,
            4 * out_base as int,
            2 * out_base as int,
            pair_in_block_mask,
            useful_pairs_inclusive,
            8 * eq_lo.len(),
        ),
    ensures
        final(a_out)@ == fold2_seq(
            sweep_rows(
                table@,
                a_pkt@,
                4 * out_base as int,
                2 * out_base as int,
                pair_in_block_mask,
                useful_pairs_inclusive,
                (8 * eq_lo.len()) as nat,
            ),
            rho1,
            rho2,
        ),
        final(b_out)@ == fold2_seq(
            sweep_rows(
                table@,
                b_pkt@,
                4 * out_base as int,
                2 * out_base as int,
                pair_in_block_mask,
                useful_pairs_inclusive,
                (8 * eq_lo.len()) as nat,
            ),
            rho1,
            rho2,
        ),
        forall|k: int|
            0 <= k < 8 ==> #[trigger] m@[k] == lookahead(k, eq_lo@, final(a_out)@, final(b_out)@),
{
    let m = composed_pass(
        table,
        mats,
        a_pkt,
        b_pkt,
        out_base,
        a_out,
        b_out,
        rho1,
        rho2,
        eq_lo,
        pair_in_block_mask,
        useful_pairs_inclusive,
        regfold,
        defer,
    );
    proof {
        lemma_outputs(
            a_out@,
            table@,
            a_pkt@,
            out_base as int,
            rho1,
            rho2,
            pair_in_block_mask,
            useful_pairs_inclusive,
        );
        lemma_outputs(
            b_out@,
            table@,
            b_pkt@,
            out_base as int,
            rho1,
            rho2,
            pair_in_block_mask,
            useful_pairs_inclusive,
        );
    }
    m
}

proof fn lemma_outputs(
    out: Seq<F128>,
    table: Seq<F128>,
    pkt: Seq<u8>,
    out_base: int,
    rho1: F128,
    rho2: F128,
    mask: usize,
    useful: usize,
)
    requires
        forall|i: int|
            0 <= i < out.len() ==> #[trigger] out[i] == composed(
                table,
                pkt,
                out_base + i,
                rho1,
                rho2,
                mask,
                useful,
            ),
    ensures
        out == fold2_seq(
            sweep_rows(table, pkt, 4 * out_base, 2 * out_base, mask, useful, (4 * out.len()) as nat),
            rho1,
            rho2,
        ),
{
    law_composed_is_sweep_folded_twice(table, pkt, out_base, rho1, rho2, mask, useful, out.len());
    assert(out =~= composed_seq(table, pkt, out_base, rho1, rho2, mask, useful, out.len()));
}

proof fn lemma_cache_part(f: Seq<F128>, table: Seq<F128>, pkt: Seq<u8>, xg: int, g: int)
    requires
        forall|i: int| 0 <= i < 64 ==> #[trigger] f[i] == row_fold(table, pkt, 4 * xg + i),
        0 <= g < 4,
    ensures
        forall|i: int| 0 <= i < 16 ==> #[trigger] f[16 * g + i] == row_fold(table, pkt, 4 * (xg + 4 * g) + i),
{
    assert forall|i: int| 0 <= i < 16 implies #[trigger] f[16 * g + i] == row_fold(
        table,
        pkt,
        4 * (xg + 4 * g) + i,
    ) by {
        assert(4 * xg + (16 * g + i) == 4 * (xg + 4 * g) + i);
    }
}

/// With zero padding, a batch is the swept rows themselves.
proof fn lemma_batch_rows(
    f: Seq<F128>,
    table: Seq<F128>,
    pkt: Seq<u8>,
    out_base: int,
    ol: int,
    mask: usize,
    useful: usize,
    n: int,
)
    requires
        tables_linear(table),
        padding_is_zero(pkt, 4 * out_base, 2 * out_base, mask, useful, n),
        0 <= ol,
        4 * ol + 64 <= n,
        forall|i: int| 0 <= i < 64 ==> #[trigger] f[i] == row_fold(table, pkt, 4 * (out_base + ol) + i),
    ensures
        forall|i: int|
            0 <= i < 64 ==> #[trigger] f[i] == swept_row(
                table,
                pkt,
                4 * (out_base + ol) + i,
                2 * (out_base + ol) + i / 2,
                mask,
                useful,
            ),
{
    assert forall|i: int| 0 <= i < 64 implies #[trigger] f[i] == swept_row(
        table,
        pkt,
        4 * (out_base + ol) + i,
        2 * (out_base + ol) + i / 2,
        mask,
        useful,
    ) by {
        lemma_padding_row(table, pkt, 4 * out_base, 2 * out_base, mask, useful, n, 4 * ol + i);
        assert((4 * ol + i) / 2 == 2 * ol + i / 2);
        assert(4 * out_base + (4 * ol + i) == 4 * (out_base + ol) + i);
        assert(2 * out_base + (2 * ol + i / 2) == 2 * (out_base + ol) + i / 2);
    }
}

/// Four folded quarters of a batch of swept rows are sixteen composed outputs.
proof fn lemma_four_groups(
    o: Seq<F128x4>,
    rows: Seq<F128>,
    table: Seq<F128>,
    pkt: Seq<u8>,
    xg: int,
    rho1: F128,
    rho2: F128,
    mask: usize,
    useful: usize,
)
    requires
        o.len() == 4,
        folds16(o[0]@, rows, 0, rho1, rho2),
        folds16(o[1]@, rows, 16, rho1, rho2),
        folds16(o[2]@, rows, 32, rho1, rho2),
        folds16(o[3]@, rows, 48, rho1, rho2),
        forall|i: int|
            0 <= i < 64 ==> #[trigger] rows[i] == swept_row(
                table,
                pkt,
                4 * xg + i,
                2 * xg + i / 2,
                mask,
                useful,
            ),
    ensures
        composed_at(o[0]@, table, pkt, xg, rho1, rho2, mask, useful),
        composed_at(o[1]@, table, pkt, xg + 4, rho1, rho2, mask, useful),
        composed_at(o[2]@, table, pkt, xg + 8, rho1, rho2, mask, useful),
        composed_at(o[3]@, table, pkt, xg + 12, rho1, rho2, mask, useful),
{
    assert forall|i: int| 0 <= i < 16 implies #[trigger] rows[0 + i] == swept_row(
        table,
        pkt,
        4 * xg + i,
        2 * xg + i / 2,
        mask,
        useful,
    ) by {}
    lemma_composed_from_rows(o[0]@, rows, 0, table, pkt, xg, rho1, rho2, mask, useful);
    assert forall|i: int| 0 <= i < 16 implies #[trigger] rows[16 + i] == swept_row(
        table,
        pkt,
        4 * (xg + 4) + i,
        2 * (xg + 4) + i / 2,
        mask,
        useful,
    ) by {
        assert((16 + i) / 2 == 8 + i / 2);
    }
    lemma_composed_from_rows(o[1]@, rows, 16, table, pkt, xg + 4, rho1, rho2, mask, useful);
    assert forall|i: int| 0 <= i < 16 implies #[trigger] rows[32 + i] == swept_row(
        table,
        pkt,
        4 * (xg + 8) + i,
        2 * (xg + 8) + i / 2,
        mask,
        useful,
    ) by {
        assert((32 + i) / 2 == 16 + i / 2);
    }
    lemma_composed_from_rows(o[2]@, rows, 32, table, pkt, xg + 8, rho1, rho2, mask, useful);
    assert forall|i: int| 0 <= i < 16 implies #[trigger] rows[48 + i] == swept_row(
        table,
        pkt,
        4 * (xg + 12) + i,
        2 * (xg + 12) + i / 2,
        mask,
        useful,
    ) by {
        assert((48 + i) / 2 == 24 + i / 2);
    }
    lemma_composed_from_rows(o[3]@, rows, 48, table, pkt, xg + 12, rho1, rho2, mask, useful);
}

proof fn lemma_composed_holds16(
    o: Seq<F128x4>,
    table: Seq<F128>,
    pkt: Seq<u8>,
    out_base: int,
    ol: int,
    rho1: F128,
    rho2: F128,
    mask: usize,
    useful: usize,
    want: Seq<F128>,
)
    requires
        o.len() == 4,
        0 <= ol,
        ol + 16 <= want.len(),
        composed_at(o[0]@, table, pkt, out_base + ol, rho1, rho2, mask, useful),
        composed_at(o[1]@, table, pkt, out_base + ol + 4, rho1, rho2, mask, useful),
        composed_at(o[2]@, table, pkt, out_base + ol + 8, rho1, rho2, mask, useful),
        composed_at(o[3]@, table, pkt, out_base + ol + 12, rho1, rho2, mask, useful),
        forall|i: int|
            0 <= i < want.len() ==> #[trigger] want[i] == composed(
                table,
                pkt,
                out_base + i,
                rho1,
                rho2,
                mask,
                useful,
            ),
    ensures
        holds16(o[0]@, o[1]@, o[2]@, o[3]@, want, ol),
{
    assert forall|i: int| 0 <= i < 4 implies #[trigger] o[0]@[i] == want[ol + i] by {
        assert(out_base + ol + i == out_base + (ol + i));
    }
    assert forall|i: int| 0 <= i < 4 implies #[trigger] o[1]@[i] == want[ol + 4 + i] by {
        assert(out_base + ol + 4 + i == out_base + (ol + 4 + i));
    }
    assert forall|i: int| 0 <= i < 4 implies #[trigger] o[2]@[i] == want[ol + 8 + i] by {
        assert(out_base + ol + 8 + i == out_base + (ol + 8 + i));
    }
    assert forall|i: int| 0 <= i < 4 implies #[trigger] o[3]@[i] == want[ol + 12 + i] by {
        assert(out_base + ol + 12 + i == out_base + (ol + 12 + i));
    }
}

/// Entry `i` of a cached batch is the fold of row `base + i`.
spec fn cached_at(f: Seq<F128>, table: Seq<F128>, pkt: Seq<u8>, base: int, i: int) -> bool {
    f[i] == row_fold(table, pkt, base + i)
}

/// A cached batch holds the folds of the sixty-four rows from `base` on.
spec fn cache_holds(f: Seq<F128>, table: Seq<F128>, pkt: Seq<u8>, base: int) -> bool {
    forall|i: int| 0 <= i < 64 ==> #[trigger] cached_at(f, table, pkt, base, i)
}

// ---- what the sweep is for ----

/// Whatever the mask, a pair is padding exactly if the bits of its index in the mask make a
/// number past the useful pairs.
pub proof fn law_mask_places_the_pair_in_its_block(pair: usize, mask: usize, useful: usize)
    ensures
        pair_skipped(pair as int, mask, useful) <==> useful <= (pair & mask),
{
}

/// In blocks of a power of two of pairs, the padding of a block are the pairs from the
/// number of useful pairs on, in every block alike.
pub proof fn law_padding_ends_every_block(block: int, p: int, log: nat, mask: usize, useful: usize)
    requires
        log < usize::BITS,
        mask + 1 == pow2(log),
        0 <= block,
        0 <= p <= mask,
        block * pow2(log) + p <= usize::MAX,
    ensures
        pair_skipped(block * pow2(log) + p, mask, useful) <==> p >= useful,
{
    let pair = (block * pow2(log) + p) as usize;
    vstd::bits::lemma_usize_pow2_no_overflow(log);
    vstd::bits::lemma_usize_low_bits_mask_is_mod(pair, log);
    assert(vstd::bits::low_bits_mask(log) == mask);
    vstd::arithmetic::div_mod::lemma_mod_multiples_vanish(block, p, pow2(log) as int);
    vstd::arithmetic::div_mod::lemma_small_mod(p as nat, pow2(log));
    assert(pow2(log) * block == block * pow2(log)) by (nonlinear_arith);
}

/// Every row of a useful pair comes out as the fold of its eight bytes, and every row
/// of a padded pair as zero.
pub proof fn law_sweep_folds_the_useful_rows(
    table: Seq<F128>,
    pkt: Seq<u8>,
    row_base: int,
    first_block: int,
    log: nat,
    mask: usize,
    useful: usize,
    n: nat,
    i: int,
)
    requires
        log < usize::BITS,
        mask + 1 == pow2(log),
        0 <= first_block,
        0 <= i < n,
        first_block * pow2(log) + i / 2 <= usize::MAX,
    ensures
        ({
            let rows = sweep_rows(table, pkt, row_base, first_block * pow2(log), mask, useful, n);
            let p = (i / 2) % (pow2(log) as int);
            &&& rows.len() == n
            &&& p < useful ==> rows[i] == row_fold(table, pkt, row_base + i)
            &&& p >= useful ==> rows[i] == fzero()
        }),
{
    let size = pow2(log) as int;
    let q = (i / 2) / size;
    let p = (i / 2) % size;
    vstd::arithmetic::div_mod::lemma_fundamental_div_mod(i / 2, size);
    vstd::arithmetic::power2::lemma_pow2_pos(log);
    assert(first_block * size + i / 2 == (first_block + q) * size + p) by (nonlinear_arith)
        requires
            i / 2 == size * q + p,
    ;
    assert(0 <= q) by (nonlinear_arith)
        requires
            i / 2 == size * q + p,
            0 <= i / 2,
            0 <= p < size,
    ;
    law_padding_ends_every_block(first_block + q, p, log, mask, useful);
}

/// Where the padded rows hold zero bytes and the tables are linear, it makes no
/// difference that they are left out: the sweep gives the fold of every row.
pub proof fn law_sweep_is_the_fold_of_all_rows(
    table: Seq<F128>,
    pkt: Seq<u8>,
    row_base: int,
    pair_base: int,
    mask: usize,
    useful: usize,
    n: nat,
)
    requires
        tables_linear(table),
        forall|i: int, j: int|
            0 <= i < n && ((pair_base + i / 2) as usize) & mask >= useful && 0 <= j < 8 ==> pkt[#[trigger] (8 * (row_base
                + i) + j)] == 0,
    ensures
        sweep_rows(table, pkt, row_base, pair_base, mask, useful, n) == Seq::new(
            n,
            |i: int| row_fold(table, pkt, row_base + i),
        ),
{
    let rows = sweep_rows(table, pkt, row_base, pair_base, mask, useful, n);
    let all = Seq::new(n, |i: int| row_fold(table, pkt, row_base + i));
    assert forall|i: int| 0 <= i < n implies #[trigger] rows[i] == all[i] by {
        if pair_skipped(pair_base + i / 2, mask, useful) {
            let row = row_base + i;
            assert forall|j: int| 8 * row <= j < 8 * row + 8 implies #[trigger] pkt[j] == 0 by {
                assert(8 * (row_base + i) + (j - 8 * row) == j);
            }
            law_zero_row_folds_to_zero(table, pkt, row);
        }
    }
    assert(rows =~= all);
}

} // verus!
