//! Tests of the folds of the multilinear rounds and of their messages.

use flock::field::gf2_128::F128;
use flock::zerocheck::multilinear::fold::{fold2_and_message, fold2_and_message_lookahead, fold_and_message};
use flock::zerocheck::multilinear::row_fold::{
    build_row_fold_mats, f128_byte_exec, fold_round2_pair, gfni_fold64_rows,
};
use flock::zerocheck::multilinear::sweep::{fold2_from_packed_lookahead, round2_lookahead_chunk};

struct Xorshift(u64);

impl Xorshift {
    fn next(&mut self) -> u64 {
        self.0 ^= self.0 << 13;
        self.0 ^= self.0 >> 7;
        self.0 ^= self.0 << 17;
        self.0
    }

    fn element(&mut self) -> F128 {
        let lo = self.next();
        let hi = self.next();
        F128 { lo, hi }
    }

    fn elements(&mut self, n: usize) -> Vec<F128> {
        (0..n).map(|_| self.element()).collect()
    }
}

fn fold(v: &[F128], r: F128) -> Vec<F128> {
    v.chunks(2).map(|p| p[0] + r * (p[0] + p[1])).collect()
}

fn message(eq: &[F128], a: &[F128], b: &[F128]) -> (F128, F128) {
    let mut one = F128::zero();
    let mut inf = F128::zero();
    for i in 0..eq.len() {
        one = one + eq[i] * (a[2 * i + 1] * b[2 * i + 1]);
        inf = inf + eq[i] * ((a[2 * i] + a[2 * i + 1]) * (b[2 * i] + b[2 * i + 1]));
    }
    (one, inf)
}

fn forms(x: &[F128]) -> [F128; 8] {
    [
        x[1],
        x[0] + x[1],
        x[3],
        x[2] + x[3],
        x[2],
        x[0] + x[2],
        x[1] + x[3],
        (x[0] + x[2]) + (x[1] + x[3]),
    ]
}

fn lookahead(eq: &[F128], a: &[F128], b: &[F128]) -> [F128; 8] {
    let mut sums = [F128::zero(); 8];
    for u in 0..eq.len() / 2 {
        let fa = forms(&a[4 * u..4 * u + 4]);
        let fb = forms(&b[4 * u..4 * u + 4]);
        for k in 0..8 {
            sums[k] = sums[k] + eq[2 * u + 1] * (fa[k] * fb[k]);
        }
    }
    sums
}

#[test]
fn folds_carry_the_next_message() {
    let mut rng = Xorshift(0x1357_2468_9bdf_ace0);
    for n in [2usize, 4, 6, 8, 22] {
        let eq = rng.elements(n);
        let a = rng.elements(4 * n);
        let b = rng.elements(4 * n);
        let r = rng.element();
        let mut a_out = vec![F128::zero(); 2 * n];
        let mut b_out = vec![F128::zero(); 2 * n];
        let m = fold_and_message(&a, &b, &mut a_out, &mut b_out, r, &eq);
        assert_eq!(a_out, fold(&a, r));
        assert_eq!(b_out, fold(&b, r));
        assert_eq!(m, message(&eq, &a_out, &b_out));
    }
}

#[test]
fn double_folds_are_two_folds() {
    let mut rng = Xorshift(0xfeed_beef_1234_5678);
    for n in [2usize, 4, 8, 10, 16, 26] {
        let eq = rng.elements(n);
        let a = rng.elements(8 * n);
        let b = rng.elements(8 * n);
        let (r1, r2) = (rng.element(), rng.element());
        let want_a = fold(&fold(&a, r1), r2);
        let want_b = fold(&fold(&b, r1), r2);
        let mut a_out = vec![F128::zero(); 2 * n];
        let mut b_out = vec![F128::zero(); 2 * n];
        let m = fold2_and_message(&a, &b, &mut a_out, &mut b_out, r1, r2, &eq);
        assert_eq!((&a_out, &b_out), (&want_a, &want_b));
        assert_eq!(m, message(&eq, &want_a, &want_b));
        for defer in [false, true] {
            let mut a2 = vec![F128::zero(); 2 * n];
            let mut b2 = vec![F128::zero(); 2 * n];
            let m = fold2_and_message_lookahead(&a, &b, &mut a2, &mut b2, r1, r2, &eq, defer);
            assert_eq!((&a2, &b2), (&want_a, &want_b));
            assert_eq!(m, lookahead(&eq, &want_a, &want_b), "n={n} defer={defer}");
        }
    }
}

/// A table whose entries are sums of its unit entries.
fn linear_table(rng: &mut Xorshift) -> Vec<F128> {
    let units: Vec<F128> = rng.elements(64);
    let mut t = vec![F128::zero(); 2048];
    for j in 0..8 {
        for w in 0..256usize {
            for bit in 0..8 {
                if (w >> bit) & 1 == 1 {
                    t[256 * j + w] = t[256 * j + w] + units[8 * j + bit];
                }
            }
        }
    }
    t
}

fn row(table: &[F128], pkt: &[u8], r: usize) -> F128 {
    (0..8).fold(F128::zero(), |s, j| s + table[256 * j + pkt[8 * r + j] as usize])
}

#[test]
fn matrices_fold_rows_as_the_table_does() {
    let mut rng = Xorshift(0x0dd0_c0de_0dd0_c0de);
    let table = linear_table(&mut rng);
    let mats = build_row_fold_mats(&table);
    let pkt: Vec<u8> = (0..8 * 80).map(|_| rng.next() as u8).collect();
    let got = gfni_fold64_rows(&pkt, 9, &mats);
    for r in 0..64 {
        assert_eq!(got[r], row(&table, &pkt, 9 + r), "row {r}");
    }
    let four = fold_round2_pair(&table, &pkt, &pkt, 3, 70);
    assert_eq!(four, [row(&table, &pkt, 3), row(&table, &pkt, 70), row(&table, &pkt, 3), row(&table, &pkt, 70)]);
    assert_eq!(f128_byte_exec(F128 { lo: 0x1122, hi: 0x33 }, 1), 0x11);
    assert_eq!(f128_byte_exec(F128 { lo: 0x1122, hi: 0x33 }, 8), 0x33);
}

fn packed(rng: &mut Xorshift, rows: usize, pair_base: usize, mask: usize, useful: usize) -> Vec<u8> {
    let mut v: Vec<u8> = (0..8 * rows).map(|_| rng.next() as u8).collect();
    for r in 0..rows {
        if ((pair_base + r / 2) & mask) >= useful {
            v[8 * r..8 * r + 8].fill(0);
        }
    }
    v
}

fn swept(table: &[F128], pkt: &[u8], rows: usize, pair_base: usize, mask: usize, useful: usize) -> Vec<F128> {
    (0..rows)
        .map(|r| {
            if ((pair_base + r / 2) & mask) >= useful {
                F128::zero()
            } else {
                row(table, pkt, r)
            }
        })
        .collect()
}

#[test]
fn sweeps_agree_in_every_form() {
    let mut rng = Xorshift(0x5117_ab1e_0000_0001);
    let table = linear_table(&mut rng);
    let mats = build_row_fold_mats(&table);
    for (n, mask, useful) in [(32usize, 15usize, 13usize), (40, 7, 7), (8, 3, 4), (6, 31, 2)] {
        let rows = 2 * n;
        let a = packed(&mut rng, rows, 0, mask, useful);
        let b = packed(&mut rng, rows, 0, mask, useful);
        let eq = rng.elements(n);
        let want_a = swept(&table, &a, rows, 0, mask, useful);
        let want_b = swept(&table, &b, rows, 0, mask, useful);
        let want = lookahead(&eq, &want_a, &want_b);
        for (with_mats, regfold) in [(false, false), (true, false), (true, true)] {
            let ms = if with_mats { Some(&mats) } else { None };
            let mut ca = vec![F128::one(); rows];
            let mut cb = vec![F128::one(); rows];
            let m = round2_lookahead_chunk::<true>(
                &table, ms, &a, &b, 0, &mut ca, &mut cb, &eq, 0, mask, useful, regfold,
            );
            assert_eq!(ca, want_a, "n={n} mats={with_mats} regfold={regfold}");
            assert_eq!(cb, want_b);
            assert_eq!(m, want);
            let mut none: [F128; 0] = [];
            let mut none2: [F128; 0] = [];
            let m = round2_lookahead_chunk::<false>(
                &table, ms, &a, &b, 0, &mut none, &mut none2, &eq, 0, mask, useful, regfold,
            );
            assert_eq!(m, want);
        }
    }
}

#[test]
fn packed_double_folds_are_folds_of_the_sweep() {
    let mut rng = Xorshift(0x5117_ab1e_0000_0077);
    let table = linear_table(&mut rng);
    let mats = build_row_fold_mats(&table);
    for (n, mask, useful) in [(16usize, 15usize, 13usize), (18, 7, 7), (2, 3, 4)] {
        let rows = 8 * n;
        let a = packed(&mut rng, rows, 0, mask, useful);
        let b = packed(&mut rng, rows, 0, mask, useful);
        let eq = rng.elements(n);
        let (r1, r2) = (rng.element(), rng.element());
        let want_a = fold(&fold(&swept(&table, &a, rows, 0, mask, useful), r1), r2);
        let want_b = fold(&fold(&swept(&table, &b, rows, 0, mask, useful), r1), r2);
        for (with_mats, regfold, defer) in
            [(false, false, false), (true, false, true), (true, true, false), (true, true, true)]
        {
            let ms = if with_mats { Some(&mats) } else { None };
            let mut oa = vec![F128::zero(); 2 * n];
            let mut ob = vec![F128::zero(); 2 * n];
            let m = fold2_from_packed_lookahead(
                &table, ms, &a, &b, 0, &mut oa, &mut ob, r1, r2, &eq, mask, useful, regfold, defer,
            );
            assert_eq!(oa, want_a, "n={n} mats={with_mats} regfold={regfold} defer={defer}");
            assert_eq!(ob, want_b);
            assert_eq!(m, lookahead(&eq, &want_a, &want_b));
        }
    }
}

#[test]
fn scaled_tables_fold_to_scaled_rows() {
    let mut rng = Xorshift(0x5ca1_ed00_1234_5678);
    let table = linear_table(&mut rng);
    let s = rng.element();
    let scaled: Vec<F128> = table.iter().map(|&e| s * e).collect();
    let pkt: Vec<u8> = (0..512).map(|_| rng.next() as u8).collect();
    let plain = gfni_fold64_rows(&pkt, 0, &build_row_fold_mats(&table));
    let got = gfni_fold64_rows(&pkt, 0, &build_row_fold_mats(&scaled));
    for r in 0..64 {
        assert_eq!(got[r], s * plain[r]);
        assert_eq!(got[r], row(&scaled, &pkt, r));
    }
}
