//! The recycling allocator: which blocks are kept, where they are kept, and where
//! new ones come from.
//!
//! Blocks of at least [`RECYCLE_MIN`] bytes are parked on free lists of their exact
//! size instead of being given back. A free list is a chain through the parked
//! blocks: the first word of a block holds the address of the next. Addresses are
//! numbers here; whoever drives the allocator reads and writes the words.

pub mod heap;
pub mod laws;

use vstd::prelude::*;

verus! {

/// The smallest size that is recycled.
pub const RECYCLE_MIN: u64 = 32768;

/// The largest alignment that is recycled.
pub const MAX_ALIGN: u64 = 16;

/// Size classes of the table.
pub const MAX_CLASSES: usize = 512;

/// What is added to a size so that its block can be aligned.
pub const ALIGN_SLACK: u64 = 64;

/// Where the arena starts.
pub const ARENA_ADDR: u64 = 0x2000_0000_0000;

/// Bytes of the arena.
pub const ARENA_BYTES: u64 = 0x6_0000_0000;

/// The smallest size that the arena serves, and the alignment of its blocks.
pub const HUGE: u64 = 0x20_0000;

/// Whether blocks of a size and an alignment are recycled.
pub open spec fn is_recyclable(size: u64, align: u64) -> bool {
    size >= RECYCLE_MIN && align <= MAX_ALIGN
}

/// Whether blocks of a size and an alignment are recycled.
pub fn recyclable(size: u64, align: u64) -> (r: bool)
    ensures
        r == is_recyclable(size, align),
{
    size >= RECYCLE_MIN && align <= MAX_ALIGN
}

/// Whether recycled blocks are aligned to cache lines: the setting that turns it off is absent.
pub fn align64_enabled(off_is_set: bool) -> (r: bool)
    ensures
        r == !off_is_set,
{
    !off_is_set
}

// ---- alignment ----

/// The first multiple of sixty-four with eight bytes of room before it.
pub open spec fn aligned_address(base: int) -> int {
    ((base + 8 + 63) / 64) * 64
}

/// The size that is asked of the system for a block that will be aligned.
pub fn adjusted(size: u64) -> (r: u64)
    requires
        size <= u64::MAX - ALIGN_SLACK,
    ensures
        r == size + ALIGN_SLACK,
{
    size + ALIGN_SLACK
}

/// The aligned address within a block of the system, and how far it is from the
/// block's start: the word that stands before the aligned address.
pub fn align_up(base: u64) -> (r: (u64, u64))
    requires
        base <= u64::MAX - 71,
    ensures
        r.0 == aligned_address(base as int),
        r.1 == r.0 - base,
{
    let aligned = ((base + 8 + 63) / 64) * 64;
    (aligned, aligned - base)
}

/// The start of the block, from the aligned address and the distance.
pub fn align_base(ptr: u64, off: u64) -> (r: u64)
    requires
        off <= ptr,
    ensures
        r == ptr - off,
{
    ptr - off
}

/// An aligned block lies in the block of the system with its distance word before
/// it, and the distance leads back.
pub proof fn law_aligned_block_fits(base: int, size: int)
    requires
        0 <= base,
        base % 16 == 0,
        0 <= size,
    ensures
        aligned_address(base) % 64 == 0,
        base <= aligned_address(base) - 8,
        aligned_address(base) + size <= base + size + ALIGN_SLACK,
        8 <= aligned_address(base) - base <= ALIGN_SLACK,
{
}

// ---- the arena ----

/// `x` rounded up to a multiple of [`HUGE`].
pub open spec fn huge_up(x: int) -> int {
    ((x + 0x1f_ffff) / 0x20_0000) * 0x20_0000
}

/// Whether an address lies in the arena.
pub open spec fn is_in_arena(a: u64) -> bool {
    ARENA_ADDR <= a < ARENA_ADDR + ARENA_BYTES
}

/// Whether an address lies in the arena.
pub fn in_arena(a: u64) -> (r: bool)
    ensures
        r == is_in_arena(a),
{
    a >= ARENA_ADDR && a < ARENA_ADDR + ARENA_BYTES
}

/// Where a block of `size` bytes is carved when the arena is used up to `cur`, and
/// how far the arena is used then.
pub open spec fn carve_at(cur: int, size: int) -> Option<(int, int)> {
    let base = huge_up(cur);
    let end = base + huge_up(size);
    if end > ARENA_ADDR + ARENA_BYTES {
        None
    } else {
        Some((base, end))
    }
}

/// Blocks that are carved one after another do not overlap, lie in the arena, and
/// start at multiples of [`HUGE`].
pub proof fn law_carves_are_disjoint(c1: int, s1: int, c2: int, s2: int)
    requires
        ARENA_ADDR <= c1,
        0 <= s1,
        0 < s2,
        carve_at(c1, s1) is Some,
        carve_at(c1, s1)->Some_0.1 <= c2,
        carve_at(c2, s2) is Some,
    ensures
        carve_at(c1, s1)->Some_0.0 + s1 <= carve_at(c2, s2)->Some_0.0,
        carve_at(c2, s2)->Some_0.0 % HUGE as int == 0,
        is_in_arena(carve_at(c2, s2)->Some_0.0 as u64),
        carve_at(c2, s2)->Some_0.0 + s2 <= ARENA_ADDR + ARENA_BYTES,
{
}

// ---- the size classes ----

/// The slot where the search for a size starts.
pub open spec fn slot_of(size: u64) -> int {
    ((size.wrapping_mul(0x9E37_79B9_7F4A_7C15) >> 55) % 512) as int
}

/// The slot where the search for a size starts.
pub fn class_slot(size: u64) -> (r: usize)
    ensures
        r == slot_of(size),
        r < MAX_CLASSES,
{
    ((size.wrapping_mul(0x9E37_79B9_7F4A_7C15) >> 55) % 512) as usize
}

/// Slot `p` of a search that starts at `start`.
pub open spec fn probe(start: int, p: int) -> int {
    (start + p) % 512
}

/// At which probe a search from `start` reaches slot `i`.
pub open spec fn reach(start: int, i: int) -> int {
    (i - start) % 512
}

/// Whether some slot holds `size`.
pub open spec fn has_class(sizes: Seq<u64>, size: u64) -> bool {
    exists|i: int| 0 <= i < 512 && #[trigger] sizes[i] == size
}

/// Whether no slot is free.
pub open spec fn is_full(sizes: Seq<u64>) -> bool {
    forall|i: int| 0 <= i < 512 ==> #[trigger] sizes[i] != 0
}

/// Whether slot `i`, if it is taken, is found: no slot on the way to it is free.
pub open spec fn is_reachable(sizes: Seq<u64>, i: int) -> bool {
    sizes[i] != 0 ==> forall|p: int|
        0 <= p <= reach(slot_of(sizes[i]), i) ==> sizes[#[trigger] probe(slot_of(sizes[i]), p)] != 0
}

/// Every taken slot is found, and no two hold the same size.
pub open spec fn is_class_table(sizes: Seq<u64>) -> bool {
    &&& sizes.len() == 512
    &&& forall|i: int| 0 <= i < 512 ==> #[trigger] is_reachable(sizes, i)
    &&& forall|i: int, j: int|
        0 <= i < 512 && 0 <= j < 512 && sizes[i] != 0 && #[trigger] sizes[i] == #[trigger] sizes[j] ==> i == j
}

/// What the search for a size finds.
pub open spec fn class_of(sizes: Seq<u64>, size: u64) -> Option<int> {
    if has_class(sizes, size) {
        Some(choose|i: int| 0 <= i < 512 && #[trigger] sizes[i] == size)
    } else {
        None
    }
}

/// In a class table there is one answer.
pub proof fn lemma_class_of(sizes: Seq<u64>, size: u64, i: int)
    requires
        is_class_table(sizes),
        size != 0,
        0 <= i < 512,
        sizes[i] == size,
    ensures
        class_of(sizes, size) == Some(i),
{
    assert(has_class(sizes, size));
    let j = choose|j: int| 0 <= j < 512 && #[trigger] sizes[j] == size;
    assert(sizes[i] == sizes[j]);
}

/// A search that meets a free slot has passed every slot that could hold the size.
proof fn lemma_absent(sizes: Seq<u64>, size: u64, p: int)
    requires
        is_class_table(sizes),
        size != 0,
        0 <= p < 512,
        sizes[probe(slot_of(size), p)] == 0,
        forall|q: int| 0 <= q < p ==> sizes[#[trigger] probe(slot_of(size), q)] != size,
    ensures
        !has_class(sizes, size),
{
    if has_class(sizes, size) {
        let i = choose|i: int| 0 <= i < 512 && #[trigger] sizes[i] == size;
        let d = reach(slot_of(size), i);
        assert(probe(slot_of(size), d) == i);
        assert(is_reachable(sizes, i));
        if d < p {
            assert(sizes[probe(slot_of(size), d)] != size);
        } else {
            assert(sizes[probe(slot_of(size), p)] != 0);
        }
    }
}

/// A search that comes around has passed every slot.
proof fn lemma_came_around(sizes: Seq<u64>, size: u64)
    requires
        sizes.len() == 512,
        forall|q: int|
            0 <= q < 512 ==> sizes[#[trigger] probe(slot_of(size), q)] != size && sizes[probe(slot_of(size), q)] != 0,
    ensures
        !has_class(sizes, size),
        is_full(sizes),
{
    assert forall|i: int| 0 <= i < 512 implies #[trigger] sizes[i] != 0 && sizes[i] != size by {
        let d = reach(slot_of(size), i);
        assert(probe(slot_of(size), d) == i);
        assert(sizes[probe(slot_of(size), d)] != size);
    }
}

/// A size put into the first free slot of its search leaves a class table.
proof fn lemma_inserted(sizes: Seq<u64>, size: u64, p: int)
    requires
        is_class_table(sizes),
        size != 0,
        0 <= p < 512,
        sizes[probe(slot_of(size), p)] == 0,
        !has_class(sizes, size),
        forall|q: int| 0 <= q < p ==> sizes[#[trigger] probe(slot_of(size), q)] != 0,
    ensures
        is_class_table(sizes.update(probe(slot_of(size), p), size)),
{
    let at = probe(slot_of(size), p);
    let t = sizes.update(at, size);
    assert forall|i: int| 0 <= i < 512 implies #[trigger] is_reachable(t, i) by {
        if i == at {
            assert(reach(slot_of(size), at) == p);
            assert forall|q: int| 0 <= q <= p implies t[#[trigger] probe(slot_of(size), q)] != 0 by {
                if q < p {
                    assert(sizes[probe(slot_of(size), q)] != 0);
                }
            }
        } else if t[i] != 0 {
            assert(is_reachable(sizes, i));
            assert forall|q: int| 0 <= q <= reach(slot_of(t[i]), i) implies t[#[trigger] probe(slot_of(t[i]), q)]
                != 0 by {
                assert(sizes[probe(slot_of(sizes[i]), q)] != 0);
            }
        }
    }
    assert forall|i: int, j: int|
        0 <= i < 512 && 0 <= j < 512 && t[i] != 0 && #[trigger] t[i] == #[trigger] t[j] implies i == j by {
        if i == at && j != at {
            assert(sizes[j] == size);
        }
        if j == at && i != at {
            assert(sizes[i] == size);
        }
        if i != at && j != at {
            assert(sizes[i] == sizes[j]);
        }
    }
}

/// The allocator: the size and the first parked block of every class, how far the
/// arena is used, and its settings.
pub struct RecycleAlloc {
    pub sizes: [u64; 512],
    pub heads: [u64; 512],
    pub arena: Arena,
    pub arena_cur: u64,
    pub align64: bool,
}

/// What is known of the arena.
#[derive(Clone, Copy, Debug, PartialEq, Eq, Structural)]
pub enum Arena {
    /// Nothing was reserved yet.
    Untried,
    /// The arena is reserved.
    Ready,
    /// The arena cannot be had.
    Unavailable,
}

/// Where a block comes from.
#[derive(Clone, Copy, Debug, PartialEq, Eq, Structural)]
pub enum AllocStep {
    /// From the head of its free list; its first word is wanted.
    Recycle(u64),
    /// The arena has to be reserved first.
    ReserveArena,
    /// From the arena, at this address.
    Carved(u64),
    /// From the system, with this size and alignment, to be aligned.
    SystemAligned { size: u64, align: u64 },
    /// From the system as it was asked for.
    System { size: u64, align: u64 },
}

/// Where a block goes.
#[derive(Clone, Copy, Debug, PartialEq, Eq, Structural)]
pub enum DeallocStep {
    /// To its free list; this word goes into the block.
    Park(u64),
    /// Nowhere: it is part of the arena.
    Leave,
    /// To the system, from its own start and with this size and alignment.
    SystemAligned { size: u64, align: u64 },
    /// To the system as it was asked for.
    System { size: u64, align: u64 },
}

/// The head of the free list of a size: zero when there is none.
pub open spec fn head_of(sizes: Seq<u64>, heads: Seq<u64>, size: u64) -> u64 {
    match class_of(sizes, size) {
        Some(i) => heads[i],
        None => 0,
    }
}

/// Whether `t` is `s` with `head` at the head of the free list of `size`.
pub open spec fn list_set(s: RecycleAlloc, t: RecycleAlloc, size: u64, head: u64) -> bool {
    &&& t.wf()
    &&& t.head(size) == head
    &&& forall|other: u64| other != 0 && other != size ==> #[trigger] t.head(other) == s.head(other)
    &&& t.arena == s.arena
    &&& t.arena_cur == s.arena_cur
    &&& t.align64 == s.align64
}

/// Whether `t` is `s` with `size` bytes carved at `base`.
pub open spec fn carved(s: RecycleAlloc, t: RecycleAlloc, size: u64, base: u64) -> bool {
    &&& t.wf()
    &&& carve_at(s.arena_cur as int, size as int) == Some((base as int, t.arena_cur as int))
    &&& t.sizes@ == s.sizes@
    &&& t.heads@ == s.heads@
    &&& t.arena == s.arena
    &&& t.align64 == s.align64
}

impl RecycleAlloc {
    /// The class table is one, the arena is used within its bounds, and a free class
    /// has no blocks.
    pub open spec fn wf(&self) -> bool {
        &&& is_class_table(self.sizes@)
        &&& ARENA_ADDR <= self.arena_cur <= ARENA_ADDR + ARENA_BYTES
        &&& forall|i: int| 0 <= i < 512 && self.sizes@[i] == 0 ==> #[trigger] self.heads@[i] == 0
    }

    /// The head of the free list of a size.
    pub open spec fn head(&self, size: u64) -> u64 {
        head_of(self.sizes@, self.heads@, size)
    }

    /// An allocator that holds nothing.
    pub fn new(align64: bool) -> (r: RecycleAlloc)
        ensures
            r.wf(),
            forall|size: u64| size != 0 ==> #[trigger] r.head(size) == 0,
            r.arena == Arena::Untried,
            r.arena_cur == ARENA_ADDR,
            r.align64 == align64,
    {
        let r = RecycleAlloc {
            sizes: [0u64; 512],
            heads: [0u64; 512],
            arena: Arena::Untried,
            arena_cur: ARENA_ADDR,
            align64,
        };
        proof {
            assert forall|size: u64| size != 0 implies #[trigger] r.head(size) == 0 by {
                if has_class(r.sizes@, size) {
                    let i = choose|i: int| 0 <= i < 512 && #[trigger] r.sizes@[i] == size;
                    assert(r.sizes@[i] == 0);
                }
            }
        }
        r
    }

    /// The class of a size, made in a free slot when it is missing and `insert` is
    /// set.
    pub fn find_class(&mut self, size: u64, insert: bool) -> (r: Option<usize>)
        requires
            old(self).wf(),
            size != 0,
        ensures
            final(self).wf(),
            final(self).heads@ == old(self).heads@,
            final(self).arena == old(self).arena,
            final(self).arena_cur == old(self).arena_cur,
            final(self).align64 == old(self).align64,
            r matches Some(i) ==> i < MAX_CLASSES && final(self).sizes@[i as int] == size,
            has_class(old(self).sizes@, size) ==> r is Some,
            !has_class(old(self).sizes@, size) ==> (r is Some <==> insert && !is_full(old(self).sizes@)),
            !has_class(old(self).sizes@, size) && r is Some ==> old(self).sizes@[r->Some_0 as int] == 0
                && final(self).sizes@ == old(self).sizes@.update(r->Some_0 as int, size),
            r is None || !insert || has_class(old(self).sizes@, size) ==> *final(self) == *old(self),
    {
        let start = class_slot(size);
        for p in 0..MAX_CLASSES
            invariant
                size != 0,
                start == slot_of(size),
                start < 512,
                *self == *old(self),
                self.wf(),
                forall|q: int|
                    0 <= q < p ==> self.sizes@[#[trigger] probe(slot_of(size), q)] != size
                        && self.sizes@[probe(slot_of(size), q)] != 0,
        {
            let i = (start + p) % MAX_CLASSES;
            assert(i == probe(slot_of(size), p as int));
            let s = self.sizes[i];
            if s == size {
                assert(has_class(self.sizes@, size));
                return Some(i);
            }
            if s == 0 {
                proof {
                    lemma_absent(self.sizes@, size, p as int);
                    assert(!is_full(self.sizes@));
                }
                if !insert {
                    return None;
                }
                proof {
                    lemma_inserted(self.sizes@, size, p as int);
                }
                self.sizes[i] = size;
                return Some(i);
            }
        }
        proof {
            lemma_came_around(self.sizes@, size);
        }
        None
    }

    /// The head of the free list of a size.
    pub fn top(&mut self, size: u64) -> (r: u64)
        requires
            old(self).wf(),
            size != 0,
        ensures
            *final(self) == *old(self),
            r == old(self).head(size),
    {
        match self.find_class(size, false) {
            Some(i) => {
                proof {
                    lemma_class_of(self.sizes@, size, i as int);
                }
                self.heads[i]
            },
            None => 0,
        }
    }

    /// Takes the head off the free list of a size; `link` is the word that the block
    /// at the head holds.
    pub fn pop(&mut self, size: u64, link: u64)
        requires
            old(self).wf(),
            size != 0,
            old(self).head(size) != 0,
        ensures
            list_set(*old(self), *final(self), size, link),
            final(self).sizes@ == old(self).sizes@,
    {
        let ghost before = *self;
        match self.find_class(size, false) {
            Some(i) => {
                self.heads[i] = link;
                proof {
                    lemma_head_set(before.sizes@, before.heads@, self.sizes@, self.heads@, size, i as int, link);
                }
            },
            None => {},
        }
    }

    /// Puts a block at the head of the free list of its size. The result is the word
    /// that goes into the block, or nothing when the size has no class and no class
    /// is free.
    pub fn push(&mut self, ptr: u64, size: u64) -> (r: Option<u64>)
        requires
            old(self).wf(),
            size != 0,
        ensures
            final(self).wf(),
            r is None <==> !has_class(old(self).sizes@, size) && is_full(old(self).sizes@),
            r is None ==> *final(self) == *old(self),
            r matches Some(link) ==> link == old(self).head(size) && list_set(*old(self), *final(self), size, ptr)
                && has_class(final(self).sizes@, size),
    {
        let ghost before = *self;
        match self.find_class(size, true) {
            Some(i) => {
                let link = self.heads[i];
                self.heads[i] = ptr;
                proof {
                    assert(has_class(self.sizes@, size));
                    lemma_head_set(before.sizes@, before.heads@, self.sizes@, self.heads@, size, i as int, ptr);
                    if has_class(before.sizes@, size) {
                        lemma_class_of(before.sizes@, size, i as int);
                    }
                }
                Some(link)
            },
            None => None,
        }
    }

    /// Notes whether the arena could be reserved.
    pub fn arena_reserved(&mut self, ok: bool)
        requires
            old(self).wf(),
        ensures
            final(self).wf(),
            final(self).arena == (if ok {
                Arena::Ready
            } else {
                Arena::Unavailable
            }),
            final(self).sizes@ == old(self).sizes@,
            final(self).heads@ == old(self).heads@,
            final(self).arena_cur == old(self).arena_cur,
            final(self).align64 == old(self).align64,
    {
        self.arena = if ok {
            Arena::Ready
        } else {
            Arena::Unavailable
        };
    }

    /// Carves a block of the huge class, when the arena is there and has room.
    pub fn arena_carve(&mut self, size: u64) -> (r: Option<u64>)
        requires
            old(self).wf(),
            size <= i64::MAX,
        ensures
            final(self).wf(),
            match r {
                Some(base) => size >= HUGE && old(self).arena == Arena::Ready && carve_at(
                    old(self).arena_cur as int,
                    size as int,
                ) == Some((base as int, final(self).arena_cur as int)),
                None => (size < HUGE || old(self).arena != Arena::Ready || carve_at(
                    old(self).arena_cur as int,
                    size as int,
                ) is None) && *final(self) == *old(self),
            },
            final(self).sizes@ == old(self).sizes@,
            final(self).heads@ == old(self).heads@,
            final(self).arena == old(self).arena,
            final(self).align64 == old(self).align64,
    {
        if size < HUGE {
            return None;
        }
        match self.arena {
            Arena::Ready => {},
            _ => {
                return None;
            },
        }
        let want = ((size + 0x1f_ffff) / 0x20_0000) * 0x20_0000;
        let base = ((self.arena_cur + 0x1f_ffff) / 0x20_0000) * 0x20_0000;
        let end = base + want;
        if end > ARENA_ADDR + ARENA_BYTES {
            return None;
        }
        self.arena_cur = end;
        Some(base)
    }

    /// Where a block comes from: its free list first, then the arena, then the
    /// system. A recycled block stays on its list until [`RecycleAlloc::pop`].
    pub fn alloc_step(&mut self, size: u64, align: u64) -> (r: AllocStep)
        requires
            old(self).wf(),
            size <= i64::MAX,
        ensures
            final(self).wf(),
            r == alloc_plan(*old(self), size, align),
            r matches AllocStep::Carved(base) ==> carved(*old(self), *final(self), size, base),
            r !is Carved ==> *final(self) == *old(self),
    {
        if recyclable(size, align) {
            let p = self.top(size);
            if p != 0 {
                return AllocStep::Recycle(p);
            }
            if size >= HUGE {
                match self.arena {
                    Arena::Untried => {
                        return AllocStep::ReserveArena;
                    },
                    _ => {},
                }
            }
            match self.arena_carve(size) {
                Some(a) => {
                    return AllocStep::Carved(a);
                },
                None => {},
            }
            if self.align64 {
                return AllocStep::SystemAligned { size: adjusted(size), align: MAX_ALIGN };
            }
        }
        AllocStep::System { size, align }
    }

    /// Where a block goes: to its free list, and where that cannot take it, back to
    /// where it came from.
    pub fn dealloc_step(&mut self, ptr: u64, size: u64, align: u64) -> (r: DeallocStep)
        requires
            old(self).wf(),
            size <= i64::MAX,
        ensures
            final(self).wf(),
            r == dealloc_plan(*old(self), ptr, size, align),
            r !is Park ==> *final(self) == *old(self),
            r is Park ==> list_set(*old(self), *final(self), size, ptr),
    {
        if recyclable(size, align) {
            match self.push(ptr, size) {
                Some(link) => {
                    return DeallocStep::Park(link);
                },
                None => {},
            }
            if in_arena(ptr) {
                return DeallocStep::Leave;
            }
            if self.align64 {
                return DeallocStep::SystemAligned { size: adjusted(size), align: MAX_ALIGN };
            }
        }
        if in_arena(ptr) {
            return DeallocStep::Leave;
        }
        DeallocStep::System { size, align }
    }
}

/// Where a block comes from.
pub open spec fn alloc_plan(s: RecycleAlloc, size: u64, align: u64) -> AllocStep {
    if is_recyclable(size, align) {
        if s.head(size) != 0 {
            AllocStep::Recycle(s.head(size))
        } else if size >= HUGE && s.arena == Arena::Untried {
            AllocStep::ReserveArena
        } else if size >= HUGE && s.arena == Arena::Ready && carve_at(s.arena_cur as int, size as int) is Some {
            AllocStep::Carved(carve_at(s.arena_cur as int, size as int)->Some_0.0 as u64)
        } else if s.align64 {
            AllocStep::SystemAligned { size: (size + ALIGN_SLACK) as u64, align: MAX_ALIGN }
        } else {
            AllocStep::System { size, align }
        }
    } else {
        AllocStep::System { size, align }
    }
}

/// Where a block goes.
pub open spec fn dealloc_plan(s: RecycleAlloc, ptr: u64, size: u64, align: u64) -> DeallocStep {
    if is_recyclable(size, align) && (has_class(s.sizes@, size) || !is_full(s.sizes@)) {
        DeallocStep::Park(s.head(size))
    } else if is_in_arena(ptr) {
        DeallocStep::Leave
    } else if is_recyclable(size, align) && s.align64 {
        DeallocStep::SystemAligned { size: (size + ALIGN_SLACK) as u64, align: MAX_ALIGN }
    } else {
        DeallocStep::System { size, align }
    }
}

/// A block that the system gave goes back to it with the size and the alignment
/// that it was asked with, unless it is parked.
pub proof fn law_system_blocks_go_back_as_they_came(
    s: RecycleAlloc,
    t: RecycleAlloc,
    ptr: u64,
    size: u64,
    align: u64,
)
    requires
        s.align64 == t.align64,
        !is_in_arena(ptr),
    ensures
        alloc_plan(s, size, align) matches AllocStep::SystemAligned { size: n, align: a } ==> (dealloc_plan(
            t,
            ptr,
            size,
            align,
        ) is Park || dealloc_plan(t, ptr, size, align) == (DeallocStep::SystemAligned { size: n, align: a })),
        alloc_plan(s, size, align) matches AllocStep::System { size: n, align: a } ==> (dealloc_plan(
            t,
            ptr,
            size,
            align,
        ) is Park || dealloc_plan(t, ptr, size, align) == (DeallocStep::System { size: n, align: a })),
{
}

/// A block of the arena never goes to the system.
pub proof fn law_arena_blocks_stay(t: RecycleAlloc, ptr: u64, size: u64, align: u64)
    requires
        is_in_arena(ptr),
    ensures
        dealloc_plan(t, ptr, size, align) is Park || dealloc_plan(t, ptr, size, align) is Leave,
{
}

/// Setting one head changes the list of its size alone.
proof fn lemma_head_set(
    sizes0: Seq<u64>,
    heads0: Seq<u64>,
    sizes1: Seq<u64>,
    heads1: Seq<u64>,
    size: u64,
    i: int,
    head: u64,
)
    requires
        is_class_table(sizes0),
        is_class_table(sizes1),
        heads0.len() == 512,
        size != 0,
        0 <= i < 512,
        sizes1[i] == size,
        sizes1 == sizes0 || (sizes0[i] == 0 && sizes1 == sizes0.update(i, size)),
        heads1 == heads0.update(i, head),
    ensures
        head_of(sizes1, heads1, size) == head,
        forall|other: u64|
            other != 0 && other != size ==> #[trigger] head_of(sizes1, heads1, other) == head_of(
                sizes0,
                heads0,
                other,
            ),
{
    lemma_class_of(sizes1, size, i);
    assert forall|other: u64| other != 0 && other != size implies #[trigger] head_of(sizes1, heads1, other)
        == head_of(sizes0, heads0, other) by {
        if has_class(sizes0, other) {
            let j = choose|j: int| 0 <= j < 512 && #[trigger] sizes0[j] == other;
            assert(sizes1[j] == other);
            lemma_class_of(sizes0, other, j);
            lemma_class_of(sizes1, other, j);
        } else if has_class(sizes1, other) {
            let j = choose|j: int| 0 <= j < 512 && #[trigger] sizes1[j] == other;
            assert(sizes0[j] == other);
        }
    }
}

// ---- the chains through the parked blocks ----

/// Whether the chain from `head` runs through the blocks `s` in order: the first
/// word of each holds the address of the next, and the last holds zero.
pub open spec fn is_chain(mem: Map<u64, u64>, head: u64, s: Seq<u64>) -> bool
    decreases s.len(),
{
    if s.len() == 0 {
        head == 0
    } else {
        head != 0 && head == s[0] && is_chain(mem, mem[head], s.subrange(1, s.len() as int))
    }
}

/// A word written elsewhere leaves a chain as it is.
pub proof fn law_chain_keeps(mem: Map<u64, u64>, head: u64, s: Seq<u64>, ptr: u64, word: u64)
    requires
        is_chain(mem, head, s),
        !s.contains(ptr),
    ensures
        is_chain(mem.insert(ptr, word), head, s),
    decreases s.len(),
{
    if s.len() > 0 {
        let rest = s.subrange(1, s.len() as int);
        assert(s.contains(s[0]));
        assert forall|x: u64| rest.contains(x) implies s.contains(x) by {
            let k = choose|k: int| 0 <= k < rest.len() && rest[k] == x;
            assert(s[k + 1] == x);
        }
        law_chain_keeps(mem, mem[head], rest, ptr, word);
    }
}

/// Parking a block puts it before the chain: the block is new to the list, and the
/// word that [`RecycleAlloc::push`] hands out is written into it.
pub proof fn law_parking_extends_chain(mem: Map<u64, u64>, head: u64, s: Seq<u64>, ptr: u64)
    requires
        is_chain(mem, head, s),
        ptr != 0,
        !s.contains(ptr),
    ensures
        is_chain(mem.insert(ptr, head), ptr, seq![ptr] + s),
{
    law_chain_keeps(mem, head, s, ptr, head);
    let t = seq![ptr] + s;
    assert(t.subrange(1, t.len() as int) =~= s);
}

/// Taking the head off leaves the rest of the chain; parking and taking again
/// gives the block back and leaves the list as it was.
pub proof fn law_taking_undoes_parking(mem: Map<u64, u64>, head: u64, s: Seq<u64>, ptr: u64)
    requires
        is_chain(mem, head, s),
        ptr != 0,
        !s.contains(ptr),
    ensures
        ({
            let after = mem.insert(ptr, head);
            &&& is_chain(after, ptr, seq![ptr] + s)
            &&& after[ptr] == head
            &&& is_chain(after, after[ptr], s)
        }),
{
    law_parking_extends_chain(mem, head, s, ptr);
    law_chain_keeps(mem, head, s, ptr, head);
}

} // verus!
