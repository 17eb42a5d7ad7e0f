//! Which blocks are recycled, where they lie, and in what order sources are tried.

use super::{
    aligned_address, alloc_plan, carve_at, dealloc_plan, has_class, huge_up, is_full, is_in_arena, is_recyclable,
    slot_of, AllocStep, Arena, DeallocStep, RecycleAlloc,
};
use vstd::prelude::*;

verus! {

/// Blocks of at least 32 KiB are recycled, if they ask for no more than sixteen bytes of
/// alignment.
pub proof fn law_large_plain_blocks_are_recycled(size: u64, align: u64)
    ensures
        is_recyclable(size, align) <==> size >= 32768 && align <= 16,
{
}

/// The aligned address is the first multiple of sixty-four with eight bytes of room before
/// it.
pub proof fn law_aligned_address_is_the_first(base: int, m: int)
    ensures
        aligned_address(base) % 64 == 0,
        aligned_address(base) >= base + 8,
        m % 64 == 0 && m >= base + 8 ==> aligned_address(base) <= m,
{
}

/// Rounding up gives the first multiple of 2 MiB.
pub proof fn law_huge_up_is_the_first(x: int, m: int)
    ensures
        huge_up(x) % 0x20_0000 == 0,
        huge_up(x) >= x,
        m % 0x20_0000 == 0 && m >= x ==> huge_up(x) <= m,
{
}

/// A block is carved at the first multiple of 2 MiB that is free, and takes whole multiples;
/// it is refused exactly if no such place is left in the arena.
pub proof fn law_carving_takes_the_first_place(cur: int, size: int, base: int)
    ensures
        carve_at(cur, size) matches Some((at, end)) ==> at % 0x20_0000 == 0 && cur <= at && at + size <= end && end
            % 0x20_0000 == 0 && end <= 0x2006_0000_0000,
        base % 0x20_0000 == 0 && cur <= base && base + huge_up(size) <= 0x2006_0000_0000 ==> carve_at(cur, size)
            is Some && carve_at(cur, size)->Some_0.0 <= base,
{
    law_huge_up_is_the_first(cur, base);
    law_huge_up_is_the_first(size, 0);
}

/// The arena is the 24 GiB from `2^45` on.
pub proof fn law_arena_is_a_fixed_range(a: u64)
    ensures
        is_in_arena(a) <==> 0x2000_0000_0000 <= a < 0x2006_0000_0000,
{
}

/// A recyclable block is taken from the list of its size if one is parked there, whatever
/// else could serve; else a block of 2 MiB or more is carved, once the arena stands and as
/// long as it has room; else the system gives it, with sixty-four bytes more where blocks
/// are aligned. What is not recyclable always comes from the system as it is asked for.
pub proof fn law_sources_are_tried_in_order(s: RecycleAlloc, size: u64, align: u64)
    requires
        size <= u64::MAX - 64,
    ensures
        !is_recyclable(size, align) ==> alloc_plan(s, size, align) == (AllocStep::System { size, align }),
        is_recyclable(size, align) && s.head(size) != 0 ==> alloc_plan(s, size, align) == AllocStep::Recycle(
            s.head(size),
        ),
        is_recyclable(size, align) && s.head(size) == 0 && size >= 0x20_0000 && s.arena == Arena::Untried
            ==> alloc_plan(s, size, align) == AllocStep::ReserveArena,
        is_recyclable(size, align) && s.head(size) == 0 && size >= 0x20_0000 && s.arena == Arena::Ready ==> (carve_at(
            s.arena_cur as int,
            size as int,
        ) matches Some((at, _)) ==> alloc_plan(s, size, align) == AllocStep::Carved(at as u64)),
        is_recyclable(size, align) && s.head(size) == 0 && (size < 0x20_0000 || s.arena == Arena::Unavailable || (
        s.arena == Arena::Ready && carve_at(s.arena_cur as int, size as int) is None)) ==> alloc_plan(s, size, align)
            == (if s.align64 {
            AllocStep::SystemAligned { size: (size + 64) as u64, align: 16 }
        } else {
            AllocStep::System { size, align }
        }),
{
}

/// A recyclable block is parked at the head of the list of its size if the table has that
/// size or room for it; nothing of the arena goes to the system; and the rest goes back as
/// it was asked for.
pub proof fn law_freed_blocks_are_parked(s: RecycleAlloc, ptr: u64, size: u64, align: u64)
    requires
        size <= u64::MAX - 64,
    ensures
        is_recyclable(size, align) && (has_class(s.sizes@, size) || !is_full(s.sizes@)) ==> dealloc_plan(
            s,
            ptr,
            size,
            align,
        ) == DeallocStep::Park(s.head(size)),
        is_recyclable(size, align) && !has_class(s.sizes@, size) && is_full(s.sizes@) && !is_in_arena(ptr)
            ==> dealloc_plan(s, ptr, size, align) == (if s.align64 {
            DeallocStep::SystemAligned { size: (size + 64) as u64, align: 16 }
        } else {
            DeallocStep::System { size, align }
        }),
        !is_recyclable(size, align) && !is_in_arena(ptr) ==> dealloc_plan(s, ptr, size, align) == (DeallocStep::System {
            size,
            align,
        }),
{
}

/// The search for a size starts at the top nine bits of the size times the multiplier,
/// modulo `2^64`.
pub proof fn law_search_starts_at_the_top_bits(size: u64)
    ensures
        slot_of(size) == ((size * 0x9E37_79B9_7F4A_7C15) % 0x1_0000_0000_0000_0000) / 0x80_0000_0000_0000,
        0 <= slot_of(size) < 512,
{
    let h = size.wrapping_mul(0x9E37_79B9_7F4A_7C15);
    vstd::bits::lemma_u64_shr_is_div(h, 55);
    vstd::arithmetic::power2::lemma2_to64_rest();
}

/// The table is full without a free slot among its 512, and has a size where some slot
/// holds it.
pub proof fn law_table_is_full_without_a_free_slot(sizes: Seq<u64>, size: u64)
    ensures
        is_full(sizes) <==> !(exists|i: int| 0 <= i < 512 && #[trigger] sizes[i] == 0),
        has_class(sizes, size) <==> !(forall|i: int| 0 <= i < 512 ==> #[trigger] sizes[i] != size),
{
}

} // verus!
