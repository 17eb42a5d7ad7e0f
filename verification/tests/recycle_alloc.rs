//! Tests of the recycling allocator, over a simulated memory.

use flock::bench_alloc::{do_work, WORK_LEN};
use flock::field::gf2_128::F128;
use flock::recycle_alloc::{
    adjusted, align64_enabled, align_base, align_up, class_slot, in_arena, recyclable, AllocStep, Arena, DeallocStep,
    RecycleAlloc, ALIGN_SLACK, ARENA_ADDR, HUGE,
};
use std::collections::HashMap;

/// A machine with a bump allocator whose blocks start sixteen bytes behind a line.
struct Machine {
    alloc: RecycleAlloc,
    next: u64,
    words: HashMap<u64, u64>,
    bytes: HashMap<u64, Vec<u8>>,
    returned: Vec<(u64, u64, u64)>,
    arena_works: bool,
}

impl Machine {
    fn new(align64: bool, arena_works: bool) -> Machine {
        Machine {
            alloc: RecycleAlloc::new(align64),
            next: 0x7000_0010,
            words: HashMap::new(),
            bytes: HashMap::new(),
            returned: vec![],
            arena_works,
        }
    }

    fn system(&mut self, size: u64) -> u64 {
        let at = self.next;
        self.next += (size + 63) / 64 * 64 + 64;
        at
    }

    fn take(&mut self, size: u64, align: u64, zeroed: bool) -> u64 {
        let p = loop {
            match self.alloc.alloc_step(size, align) {
                AllocStep::Recycle(p) => {
                    let link = self.words[&p];
                    self.alloc.pop(size, link);
                    if zeroed {
                        self.bytes.remove(&p);
                    }
                    break p;
                }
                AllocStep::ReserveArena => self.alloc.arena_reserved(self.arena_works),
                AllocStep::Carved(p) => break p,
                AllocStep::SystemAligned { size, align } => {
                    assert_eq!(align, 16);
                    let base = self.system(size);
                    let (p, off) = align_up(base);
                    self.words.insert(p - 8, off);
                    break p;
                }
                AllocStep::System { size, .. } => break self.system(size),
            }
        };
        self.bytes.entry(p).or_insert_with(|| vec![0; size as usize]);
        p
    }

    fn give(&mut self, p: u64, size: u64, align: u64) {
        match self.alloc.dealloc_step(p, size, align) {
            DeallocStep::Park(link) => {
                self.words.insert(p, link);
            }
            DeallocStep::Leave => {}
            DeallocStep::SystemAligned { size, align } => {
                let base = align_base(p, self.words[&(p - 8)]);
                self.returned.push((base, size, align));
            }
            DeallocStep::System { size, align } => self.returned.push((p, size, align)),
        }
    }
}

#[test]
fn recyclable_class_is_64_aligned_and_roundtrips() {
    let mut m = Machine::new(true, false);
    for i in 0..4u64 {
        let n = 32 * 1024 + 4096 * i + 128;
        let v = m.take(n, 1, false);
        m.bytes.insert(v, vec![7u8; n as usize]);
        assert_eq!(v % 64, 0, "fresh alloc n={n}");
        m.give(v, n, 1);
        let v2 = m.take(n, 1, false);
        assert_eq!(v2 % 64, 0, "recycled alloc n={n}");
        assert_eq!(v2, v);
        m.bytes.insert(v2, vec![9u8; n as usize]);
        assert!(m.bytes[&v2].iter().all(|&b| b == 9), "contents survive recycle n={n}");
        let z = m.take(n + 64, 1, true);
        assert_eq!(z % 64, 0, "alloc_zeroed n={}", n + 64);
        assert!(m.bytes[&z].iter().all(|&b| b == 0), "zeroed contents n={}", n + 64);
    }
    let g = m.take(48 * 1024, 1, false);
    m.bytes.insert(g, vec![0xA5u8; 48 * 1024]);
    let mut grown = m.bytes[&g].clone();
    grown.extend(vec![0x5Au8; 128 * 1024]);
    let h = m.take(176 * 1024, 1, false);
    m.bytes.insert(h, grown);
    m.give(g, 48 * 1024, 1);
    assert_eq!(h % 64, 0, "grown alloc");
    assert!(m.bytes[&h][..48 * 1024].iter().all(|&b| b == 0xA5));
    assert!(m.bytes[&h][48 * 1024..].iter().all(|&b| b == 0x5A));
}

#[test]
fn arena_backs_the_huge_class_and_roundtrips() {
    for engaged in [true, false] {
        let mut m = Machine::new(true, engaged);
        let mut kept = Vec::new();
        for i in 0..6u64 {
            let n = (2 << 20) + 4096 * i + 128;
            let v = m.take(n, 1, true);
            if engaged {
                assert!(in_arena(v), "huge alloc {i} missed the arena");
                assert_eq!(v % (2 << 20), 0, "arena block {i} misaligned");
            }
            assert!(m.bytes[&v].iter().all(|&b| b == 0), "not zeroed");
            kept.push((v, n));
        }
        for w in kept.windows(2) {
            assert!(w[0].0 + w[0].1 <= w[1].0);
        }
        for &(v, n) in &kept {
            m.give(v, n, 1);
        }
        for (i, &(v, n)) in kept.iter().enumerate() {
            assert_eq!(m.take(n, 1, false), v, "recycled huge block {i}");
        }
        let small = m.take((2 << 20) - 64, 1, false);
        assert!(!engaged || !in_arena(small), "small block took the arena");
        let g = m.take(1 << 16, 1, false);
        let h = m.take(4 << 20, 1, false);
        m.give(g, 1 << 16, 1);
        assert_eq!(in_arena(h), engaged);
        assert!(m.returned.is_empty());
    }
}

#[test]
fn lists_are_last_in_first_out_and_apart() {
    let mut m = Machine::new(true, false);
    let a = m.take(40000, 8, false);
    let b = m.take(40000, 8, false);
    let c = m.take(50000, 8, false);
    m.give(a, 40000, 8);
    m.give(c, 50000, 8);
    m.give(b, 40000, 8);
    assert_eq!(m.take(40000, 8, false), b);
    assert_eq!(m.take(40000, 8, false), a);
    assert_eq!(m.take(50000, 8, false), c);
    let d = m.take(40000, 8, false);
    assert!(d != a && d != b && d != c);
}

#[test]
fn other_blocks_go_back_as_they_came() {
    let mut m = Machine::new(true, true);
    let small = m.take(1000, 8, false);
    m.give(small, 1000, 8);
    let wide = m.take(100_000, 64, false);
    m.give(wide, 100_000, 64);
    assert_eq!(m.returned, vec![(small, 1000, 8), (wide, 100_000, 64)]);
    assert!(!recyclable(32767, 8) && recyclable(32768, 16) && !recyclable(32768, 32));
    assert!(align64_enabled(false) && !align64_enabled(true));
}

#[test]
fn a_full_table_sends_blocks_back() {
    let mut m = Machine::new(true, false);
    for i in 0..512u64 {
        let n = 40000 + 16 * i;
        let p = m.take(n, 8, false);
        m.give(p, n, 8);
    }
    assert!(m.returned.is_empty());
    let p = m.take(90000, 8, false);
    m.give(p, 90000, 8);
    assert_eq!(m.returned.len(), 1);
    assert_eq!(m.returned[0].1, adjusted(90000));
    assert_eq!(m.returned[0].0 % 64, 16);
    for i in 0..512u64 {
        assert!(m.alloc.top(40000 + 16 * i) != 0, "class {i} lost its block");
    }
    let mut plain = Machine::new(false, false);
    let q = plain.take(90000, 8, false);
    assert_eq!(q % 64, 16);
}

#[test]
fn the_arena_runs_out() {
    let mut a = RecycleAlloc::new(true);
    assert_eq!(a.arena_carve(HUGE), None);
    a.arena_reserved(true);
    assert_eq!(a.arena, Arena::Ready);
    assert_eq!(a.arena_carve(HUGE - 1), None);
    assert_eq!(a.arena_carve(HUGE + 1), Some(ARENA_ADDR));
    assert_eq!(a.arena_carve(HUGE), Some(ARENA_ADDR + 2 * HUGE));
    assert_eq!(a.arena_carve(24 << 30), None);
    assert_eq!(a.arena_carve((24 << 30) - 3 * HUGE), Some(ARENA_ADDR + 3 * HUGE));
    assert_eq!(a.arena_carve(HUGE), None);
    assert!(in_arena(ARENA_ADDR) && !in_arena(ARENA_ADDR - 1) && !in_arena(ARENA_ADDR + (24 << 30)));
}

#[test]
fn alignment_leaves_room_for_its_word() {
    for base in [0x1000u64, 0x1010, 0x1020, 0x1030] {
        let (p, off) = align_up(base);
        assert_eq!(p % 64, 0);
        assert!(off >= 8 && off <= ALIGN_SLACK);
        assert_eq!(align_base(p, off), base);
    }
    assert_eq!(align_up(0x1010), (0x1040, 0x30));
    assert_eq!(class_slot(32768), (32768u64.wrapping_mul(0x9E37_79B9_7F4A_7C15) >> 55) as usize);
}

#[test]
fn the_benchmark_writes_its_table() {
    let mut v = vec![F128 { lo: 9, hi: 9 }; WORK_LEN + 1];
    do_work(&mut v);
    assert_eq!(v[64 * 100 + 7], F128 { lo: 7, hi: 100 });
    assert_eq!(v[WORK_LEN], F128 { lo: 9, hi: 9 });
}

#[test]
fn parked_blocks_stay_aligned() {
    for engaged in [true, false] {
        let mut m = Machine::new(true, engaged);
        let sizes = [40000u64, 50000, (2 << 20) + 128];
        let mut out: Vec<(u64, u64)> = Vec::new();
        for round in 0..20u64 {
            let n = sizes[(round % 3) as usize];
            for _ in 0..=round % 4 {
                let p = m.take(n, 8, false);
                assert_eq!(p % 64, 0);
                assert!(out.iter().all(|&(q, _)| q != p), "handed out twice");
                out.push((p, n));
            }
            if round % 2 == 1 {
                let (p, n) = out.remove((round % 5) as usize % out.len());
                m.give(p, n, 8);
                let other = sizes.iter().copied().find(|&s| s != n).unwrap();
                let q = m.take(other, 8, false);
                assert_eq!(q % 64, 0);
                out.push((q, other));
                assert_eq!(m.take(n, 16, false), p);
                out.push((p, n));
            }
        }
    }
}
