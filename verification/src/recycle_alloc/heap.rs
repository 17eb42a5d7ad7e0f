//! The recycled blocks of a process, over every history of calls.
//!
//! A heap is the allocator with the words that the blocks hold, the blocks that are
//! parked on each free list, and the blocks that are handed out. Its steps are those
//! of the allocator; what the steps take from outside is that the system hands out
//! blocks that are new, that a block is given back once and with its own size, and
//! that nobody writes into a parked block.

use super::{
    aligned_address, alloc_plan, carved, dealloc_plan, has_class, is_chain, is_full, is_in_arena, is_recyclable,
    list_set, AllocStep, Arena, DeallocStep, RecycleAlloc,
};
use vstd::prelude::*;

verus! {

/// The allocator and its blocks.
pub struct Heap {
    /// The allocator.
    pub alloc: RecycleAlloc,
    /// The first word of each block.
    pub words: Map<u64, u64>,
    /// The blocks on the free list of each size, the head first.
    pub parked: Map<u64, Seq<u64>>,
    /// The recyclable blocks that are handed out, with their sizes.
    pub live: Map<u64, u64>,
}

/// What happens to a heap.
pub enum HeapStep {
    /// A block is handed out; `given` is what the system gave, where it was asked.
    Take { size: u64, align: u64, given: u64, block: u64 },
    /// A block is given back.
    Give { block: u64, size: u64, align: u64 },
    /// The arena was reserved, or could not be.
    Reserve(bool),
    /// Whoever holds blocks writes into them.
    Write,
}

/// Whether the blocks on the lists hold the same words in both memories.
pub open spec fn links_kept(parked: Map<u64, Seq<u64>>, w1: Map<u64, u64>, w2: Map<u64, u64>) -> bool {
    forall|n: u64, i: int|
        n != 0 && 0 <= i < parked[n].len() ==> w2[#[trigger] parked[n][i]] == w1[parked[n][i]]
}

/// Whether no list but that of `size` has changed.
pub open spec fn other_lists_same(h: Heap, k: Heap, size: u64) -> bool {
    forall|n: u64| n != size ==> #[trigger] k.parked[n] == h.parked[n]
}

/// Whether no list has changed.
pub open spec fn lists_same(h: Heap, k: Heap) -> bool {
    forall|n: u64| #[trigger] k.parked[n] == h.parked[n]
}

/// Whether a block is neither handed out nor parked.
pub open spec fn is_new(h: Heap, block: u64) -> bool {
    &&& block != 0
    &&& !h.live.contains_key(block)
    &&& forall|n: u64, i: int| n != 0 && 0 <= i < h.parked[n].len() ==> #[trigger] h.parked[n][i] != block
}

/// Whether a recyclable block was handed out as the allocator plans it.
pub open spec fn takes(h: Heap, k: Heap, size: u64, align: u64, given: u64, block: u64) -> bool {
    &&& is_recyclable(size, align)
    &&& k.live == h.live.insert(block, size)
    &&& links_kept(k.parked, h.words, k.words)
    &&& match alloc_plan(h.alloc, size, align) {
        AllocStep::Recycle(head) => {
            &&& block == head
            &&& list_set(h.alloc, k.alloc, size, h.words[head])
            &&& k.parked[size] == h.parked[size].subrange(1, h.parked[size].len() as int)
            &&& other_lists_same(h, k, size)
        },
        AllocStep::Carved(base) => {
            &&& block == base
            &&& carved(h.alloc, k.alloc, size, base)
            &&& lists_same(h, k)
        },
        AllocStep::SystemAligned { .. } => {
            &&& block == aligned_address(given as int)
            &&& is_new(h, block)
            &&& !is_in_arena(block)
            &&& k.alloc == h.alloc
            &&& lists_same(h, k)
        },
        AllocStep::System { .. } => {
            &&& block == given
            &&& is_new(h, block)
            &&& !is_in_arena(block)
            &&& k.alloc == h.alloc
            &&& lists_same(h, k)
        },
        AllocStep::ReserveArena => false,
    }
}

/// Whether a recyclable block was given back as the allocator plans it.
pub open spec fn gives(h: Heap, k: Heap, block: u64, size: u64, align: u64) -> bool {
    &&& is_recyclable(size, align)
    &&& h.live.contains_key(block)
    &&& h.live[block] == size
    &&& k.live == h.live.remove(block)
    &&& links_kept(h.parked, h.words, k.words)
    &&& match dealloc_plan(h.alloc, block, size, align) {
        DeallocStep::Park(link) => {
            &&& list_set(h.alloc, k.alloc, size, block)
            &&& k.words[block] == link
            &&& k.parked[size] == seq![block] + h.parked[size]
            &&& other_lists_same(h, k, size)
        },
        _ => k.alloc == h.alloc && lists_same(h, k),
    }
}

/// Whether the heap `h` becomes `k` by a step.
pub open spec fn steps_to(h: Heap, k: Heap, step: HeapStep) -> bool {
    match step {
        HeapStep::Take { size, align, given, block } => takes(h, k, size, align, given, block),
        HeapStep::Give { block, size, align } => gives(h, k, block, size, align),
        HeapStep::Reserve(ok) => {
            &&& k.alloc.wf()
            &&& k.alloc.arena == (if ok {
                Arena::Ready
            } else {
                Arena::Unavailable
            })
            &&& k.alloc.sizes@ == h.alloc.sizes@
            &&& k.alloc.heads@ == h.alloc.heads@
            &&& k.alloc.arena_cur == h.alloc.arena_cur
            &&& k.alloc.align64 == h.alloc.align64
            &&& k.live == h.live
            &&& links_kept(h.parked, h.words, k.words)
            &&& lists_same(h, k)
        },
        HeapStep::Write => {
            &&& k.alloc == h.alloc
            &&& k.live == h.live
            &&& links_kept(h.parked, h.words, k.words)
            &&& lists_same(h, k)
        },
    }
}

/// Whether nothing has happened yet: the allocator holds nothing, and no block is out.
pub open spec fn is_start(h: Heap) -> bool {
    &&& h.alloc.wf()
    &&& forall|size: u64| size != 0 ==> #[trigger] h.alloc.head(size) == 0
    &&& forall|size: u64| #[trigger] h.parked[size] == Seq::<u64>::empty()
    &&& h.live == Map::<u64, u64>::empty()
}

/// What holds of every recyclable block, out or parked: it is aligned to cache lines
/// where that is on, and a block of the arena lies in its used part.
pub open spec fn is_block(h: Heap, block: u64) -> bool {
    &&& block != 0
    &&& h.alloc.align64 ==> block % 64 == 0
    &&& is_in_arena(block) ==> block < h.alloc.arena_cur
}

/// The lists are the chains from their heads, and no block is at two places.
pub open spec fn is_heap(h: Heap) -> bool {
    &&& h.alloc.wf()
    &&& forall|n: u64| n != 0 ==> is_chain(h.words, h.alloc.head(n), #[trigger] h.parked[n])
    &&& forall|n: u64, i: int|
        n != 0 && 0 <= i < h.parked[n].len() ==> is_block(h, #[trigger] h.parked[n][i]) && !h.live.contains_key(
            h.parked[n][i],
        )
    &&& forall|n: u64, i: int, m: u64, j: int|
        n != 0 && m != 0 && 0 <= i < h.parked[n].len() && 0 <= j < h.parked[m].len() && #[trigger] h.parked[n][i]
            == #[trigger] h.parked[m][j] ==> n == m && i == j
    &&& forall|p: u64| #[trigger] h.live.contains_key(p) ==> is_block(h, p)
}

/// A chain depends on the words of its own blocks alone.
proof fn lemma_chain_agrees(w1: Map<u64, u64>, w2: Map<u64, u64>, head: u64, s: Seq<u64>)
    requires
        is_chain(w1, head, s),
        forall|i: int| 0 <= i < s.len() ==> w2[#[trigger] s[i]] == w1[s[i]],
    ensures
        is_chain(w2, head, s),
    decreases s.len(),
{
    if s.len() > 0 {
        let rest = s.subrange(1, s.len() as int);
        assert forall|i: int| 0 <= i < rest.len() implies w2[#[trigger] rest[i]] == w1[rest[i]] by {
            assert(rest[i] == s[i + 1]);
        }
        assert(w2[s[0]] == w1[s[0]]);
        lemma_chain_agrees(w1, w2, w1[head], rest);
    }
}

/// A heap before anything has happened is one.
pub proof fn law_start_is_heap(h: Heap)
    requires
        is_start(h),
    ensures
        is_heap(h),
{
}

/// Every step keeps the heap: in particular the blocks that are parked stay aligned
/// to cache lines, whether one of them is parked or one is taken.
pub proof fn law_steps_keep_heap(h: Heap, k: Heap, step: HeapStep)
    requires
        is_heap(h),
        steps_to(h, k, step),
    ensures
        is_heap(k),
        k.alloc.align64 == h.alloc.align64,
{
    match step {
        HeapStep::Take { size, align, given, block } => lemma_take(h, k, size, align, given, block),
        HeapStep::Give { block, size, align } => lemma_give(h, k, block, size, align),
        _ => {
            lemma_lists_stay(h, k);
        },
    }
}

/// A heap whose lists stay is one, whatever is written into blocks that are out.
proof fn lemma_lists_stay(h: Heap, k: Heap)
    requires
        is_heap(h),
        k.alloc.wf(),
        k.alloc.sizes@ == h.alloc.sizes@,
        k.alloc.heads@ == h.alloc.heads@,
        k.alloc.align64 == h.alloc.align64,
        k.alloc.arena_cur >= h.alloc.arena_cur,
        lists_same(h, k),
        links_kept(h.parked, h.words, k.words),
        forall|p: u64| #[trigger] k.live.contains_key(p) ==> is_block(k, p),
        forall|n: u64, i: int|
            n != 0 && 0 <= i < h.parked[n].len() ==> !k.live.contains_key(#[trigger] h.parked[n][i]),
    ensures
        is_heap(k),
{
    assert forall|n: u64| n != 0 implies is_chain(k.words, k.alloc.head(n), #[trigger] k.parked[n]) by {
        assert(k.parked[n] == h.parked[n]);
        lemma_chain_agrees(h.words, k.words, h.alloc.head(n), h.parked[n]);
    }
    assert forall|n: u64, i: int| n != 0 && 0 <= i < k.parked[n].len() implies is_block(k, #[trigger] k.parked[n][i])
        && !k.live.contains_key(k.parked[n][i]) by {
        assert(k.parked[n] == h.parked[n]);
        assert(is_block(h, h.parked[n][i]));
    }
    assert forall|n: u64, i: int, m: u64, j: int|
        n != 0 && m != 0 && 0 <= i < k.parked[n].len() && 0 <= j < k.parked[m].len() && #[trigger] k.parked[n][i]
            == #[trigger] k.parked[m][j] implies n == m && i == j by {
        assert(k.parked[n] == h.parked[n]);
        assert(k.parked[m] == h.parked[m]);
        assert(h.parked[n][i] == h.parked[m][j]);
    }
}

/// The head of a list leaves it.
proof fn lemma_recycle(h: Heap, k: Heap, size: u64, block: u64)
    requires
        is_heap(h),
        size != 0,
        block != 0,
        h.alloc.head(size) == block,
        list_set(h.alloc, k.alloc, size, h.words[block]),
        k.parked[size] == h.parked[size].subrange(1, h.parked[size].len() as int),
        other_lists_same(h, k, size),
        k.live == h.live.insert(block, size),
        links_kept(k.parked, h.words, k.words),
    ensures
        is_heap(k),
        is_block(k, block),
        h.parked[size].len() > 0 && h.parked[size][0] == block,
        !h.live.contains_key(block),
{
    let s = h.parked[size];
    let rest = s.subrange(1, s.len() as int);
    assert(is_chain(h.words, h.alloc.head(size), s));
    assert(s.len() > 0 && s[0] == block);
    assert(is_block(h, s[0]));
    assert(k.parked[size] == rest);
    assert forall|n: u64, i: int| n != 0 && 0 <= i < k.parked[n].len() implies ({
        let from = if n == size {
            i + 1
        } else {
            i
        };
        0 <= from < h.parked[n].len() && #[trigger] k.parked[n][i] == h.parked[n][from]
    }) by {
        if n != size {
            assert(k.parked[n] == h.parked[n]);
        }
    }
    assert forall|n: u64| n != 0 implies is_chain(k.words, k.alloc.head(n), #[trigger] k.parked[n]) by {
        if n == size {
            assert(is_chain(h.words, h.words[block], rest));
            assert forall|i: int| 0 <= i < rest.len() implies k.words[#[trigger] rest[i]] == h.words[rest[i]] by {
                assert(k.words[k.parked[size][i]] == h.words[k.parked[size][i]]);
            }
            lemma_chain_agrees(h.words, k.words, h.words[block], rest);
        } else {
            assert(k.parked[n] == h.parked[n]);
            assert(k.alloc.head(n) == h.alloc.head(n));
            assert forall|i: int| 0 <= i < h.parked[n].len() implies k.words[#[trigger] h.parked[n][i]]
                == h.words[h.parked[n][i]] by {
                assert(k.words[k.parked[n][i]] == h.words[k.parked[n][i]]);
            }
            lemma_chain_agrees(h.words, k.words, h.alloc.head(n), h.parked[n]);
        }
    }
    assert forall|n: u64, i: int| n != 0 && 0 <= i < k.parked[n].len() implies is_block(
        k,
        #[trigger] k.parked[n][i],
    ) && !k.live.contains_key(k.parked[n][i]) by {
        let from = if n == size {
            i + 1
        } else {
            i
        };
        assert(k.parked[n][i] == h.parked[n][from]);
        assert(is_block(h, h.parked[n][from]));
        assert(h.parked[n][from] != h.parked[size][0]);
    }
    assert forall|n: u64, i: int, m: u64, j: int|
        n != 0 && m != 0 && 0 <= i < k.parked[n].len() && 0 <= j < k.parked[m].len()
            && #[trigger] k.parked[n][i] == #[trigger] k.parked[m][j] implies n == m && i == j by {
        let fi = if n == size {
            i + 1
        } else {
            i
        };
        let fj = if m == size {
            j + 1
        } else {
            j
        };
        assert(h.parked[n][fi] == h.parked[m][fj]);
    }
    assert forall|p: u64| #[trigger] k.live.contains_key(p) implies is_block(k, p) by {
        if p != block {
            assert(h.live.contains_key(p));
        }
    }
}

proof fn lemma_take(h: Heap, k: Heap, size: u64, align: u64, given: u64, block: u64)
    requires
        is_heap(h),
        takes(h, k, size, align, given, block),
    ensures
        is_heap(k),
        k.alloc.align64 == h.alloc.align64,
        is_block(k, block),
        is_new(h, block) || (h.parked[size].len() > 0 && h.parked[size][0] == block),
        !h.live.contains_key(block),
{
    match alloc_plan(h.alloc, size, align) {
        AllocStep::Recycle(head) => lemma_recycle(h, k, size, head),
        AllocStep::Carved(base) => {
            assert(h.alloc.arena_cur <= base < k.alloc.arena_cur);
            assert(is_in_arena(base) && base % 64 == 0);
            lemma_fresh(h, k, size, block);
        },
        AllocStep::SystemAligned { .. } => {
            lemma_fresh(h, k, size, block);
        },
        AllocStep::System { .. } => {
            lemma_fresh(h, k, size, block);
        },
        AllocStep::ReserveArena => {},
    }
}

/// A new block joins those that are out.
proof fn lemma_fresh(h: Heap, k: Heap, size: u64, block: u64)
    requires
        is_heap(h),
        k.alloc.wf(),
        k.alloc.sizes@ == h.alloc.sizes@,
        k.alloc.heads@ == h.alloc.heads@,
        k.alloc.align64 == h.alloc.align64,
        k.alloc.arena_cur >= h.alloc.arena_cur,
        lists_same(h, k),
        links_kept(k.parked, h.words, k.words),
        k.live == h.live.insert(block, size),
        is_block(k, block),
        is_new(h, block) || (is_in_arena(block) && h.alloc.arena_cur <= block),
    ensures
        is_heap(k),
        is_new(h, block),
{
    assert forall|n: u64, i: int| n != 0 && 0 <= i < h.parked[n].len() implies #[trigger] h.parked[n][i] != block by {
        assert(is_block(h, h.parked[n][i]));
    }
    assert forall|n: u64, i: int| n != 0 && 0 <= i < h.parked[n].len() implies k.words[#[trigger] h.parked[n][i]]
        == h.words[h.parked[n][i]] by {
        assert(k.parked[n] == h.parked[n]);
        assert(k.words[k.parked[n][i]] == h.words[k.parked[n][i]]);
    }
    assert forall|p: u64| #[trigger] k.live.contains_key(p) implies is_block(k, p) by {
        if p != block {
            assert(h.live.contains_key(p));
        }
    }
    lemma_lists_stay(h, k);
}

proof fn lemma_give(h: Heap, k: Heap, block: u64, size: u64, align: u64)
    requires
        is_heap(h),
        gives(h, k, block, size, align),
    ensures
        is_heap(k),
        k.alloc.align64 == h.alloc.align64,
{
    assert(is_block(h, block));
    assert forall|p: u64| #[trigger] k.live.contains_key(p) implies is_block(k, p) by {
        assert(h.live.contains_key(p));
    }
    match dealloc_plan(h.alloc, block, size, align) {
        DeallocStep::Park(link) => {
            let s = h.parked[size];
            let t = seq![block] + s;
            assert(k.parked[size] == t);
            assert(t.subrange(1, t.len() as int) =~= s);
            assert forall|n: u64| n != 0 implies is_chain(k.words, k.alloc.head(n), #[trigger] k.parked[n]) by {
                if n == size {
                    lemma_chain_agrees(h.words, k.words, h.alloc.head(size), s);
                } else {
                    assert(k.parked[n] == h.parked[n]);
                    assert(k.alloc.head(n) == h.alloc.head(n));
                    lemma_chain_agrees(h.words, k.words, h.alloc.head(n), h.parked[n]);
                }
            }
            assert forall|n: u64, i: int| n != 0 && 0 <= i < k.parked[n].len() implies (if n == size && i == 0 {
                #[trigger] k.parked[n][i] == block
            } else {
                let from = if n == size {
                    i - 1
                } else {
                    i
                };
                0 <= from < h.parked[n].len() && k.parked[n][i] == h.parked[n][from]
            }) by {
                if n != size {
                    assert(k.parked[n] == h.parked[n]);
                }
            }
            assert forall|n: u64, i: int| n != 0 && 0 <= i < k.parked[n].len() implies is_block(
                k,
                #[trigger] k.parked[n][i],
            ) && !k.live.contains_key(k.parked[n][i]) by {
                if !(n == size && i == 0) {
                    let from = if n == size {
                        i - 1
                    } else {
                        i
                    };
                    assert(k.parked[n][i] == h.parked[n][from]);
                    assert(is_block(h, h.parked[n][from]));
                }
            }
            assert forall|n: u64, i: int, m: u64, j: int|
                n != 0 && m != 0 && 0 <= i < k.parked[n].len() && 0 <= j < k.parked[m].len()
                    && #[trigger] k.parked[n][i] == #[trigger] k.parked[m][j] implies n == m && i == j by {
                let fi = if n == size {
                    i - 1
                } else {
                    i
                };
                let fj = if m == size {
                    j - 1
                } else {
                    j
                };
                if fi >= 0 && fj >= 0 {
                    assert(h.parked[n][fi] == h.parked[m][fj]);
                } else if fi >= 0 {
                    assert(h.parked[n][fi] == block);
                } else if fj >= 0 {
                    assert(h.parked[m][fj] == block);
                }
            }
        },
        _ => {
            lemma_lists_stay(h, k);
        },
    }
}

// ---- histories ----

/// Whether the heaps `hs` follow each other by the steps `es`.
pub open spec fn is_history(hs: Seq<Heap>, es: Seq<HeapStep>) -> bool {
    &&& hs.len() == es.len() + 1
    &&& forall|i: int| 0 <= i < es.len() ==> steps_to(hs[i], hs[i + 1], #[trigger] es[i])
}

/// Every heap of a history that starts with one is one, and its setting stays.
pub proof fn law_histories_keep_heap(hs: Seq<Heap>, es: Seq<HeapStep>, n: int)
    requires
        is_history(hs, es),
        is_heap(hs[0]),
        0 <= n <= es.len(),
    ensures
        is_heap(hs[n]),
        hs[n].alloc.align64 == hs[0].alloc.align64,
    decreases n,
{
    if n > 0 {
        law_histories_keep_heap(hs, es, n - 1);
        assert(steps_to(hs[n - 1], hs[n - 1 + 1], es[n - 1]));
        law_steps_keep_heap(hs[n - 1], hs[n], es[n - 1]);
    }
}

/// Whatever has happened before, every recyclable block that is handed out starts at
/// a cache line, fresh, carved or off its free list, and is not out already.
pub proof fn law_recyclable_blocks_are_aligned(
    hs: Seq<Heap>,
    es: Seq<HeapStep>,
    n: int,
    size: u64,
    align: u64,
    given: u64,
    block: u64,
)
    requires
        is_history(hs, es),
        is_start(hs[0]),
        hs[0].alloc.align64,
        0 <= n < es.len(),
        es[n] == (HeapStep::Take { size, align, given, block }),
    ensures
        block != 0,
        block % 64 == 0,
        !hs[n].live.contains_key(block),
{
    law_histories_keep_heap(hs, es, n);
    assert(steps_to(hs[n], hs[n + 1], es[n]));
    lemma_take(hs[n], hs[n + 1], size, align, given, block);
}

/// Whether a step takes or gives a block of `size`.
pub open spec fn is_of_size(step: HeapStep, size: u64) -> bool {
    match step {
        HeapStep::Take { size: n, .. } => n == size,
        HeapStep::Give { size: n, .. } => n == size,
        _ => false,
    }
}

proof fn lemma_head_stays(hs: Seq<Heap>, es: Seq<HeapStep>, size: u64, from: int, n: int)
    requires
        is_history(hs, es),
        size != 0,
        0 <= from <= n <= es.len(),
        forall|i: int| from <= i < n ==> !is_of_size(#[trigger] es[i], size),
    ensures
        hs[n].alloc.head(size) == hs[from].alloc.head(size),
    decreases n - from,
{
    if from < n {
        lemma_head_stays(hs, es, size, from, n - 1);
        assert(steps_to(hs[n - 1], hs[n - 1 + 1], es[n - 1]));
        assert(!is_of_size(es[n - 1], size));
    }
}

/// The block that was freed last is handed out again: after a block was given back
/// while its size had a class or a class was free, and after whatever steps on other
/// sizes, the next block of its size is that block.
pub proof fn law_block_freed_last_comes_back(
    hs: Seq<Heap>,
    es: Seq<HeapStep>,
    n: int,
    block: u64,
    size: u64,
    align: u64,
    again: u64,
    given: u64,
    next: u64,
)
    requires
        is_history(hs, es),
        is_heap(hs[0]),
        1 <= n < es.len(),
        es[0] == (HeapStep::Give { block, size, align }),
        has_class(hs[0].alloc.sizes@, size) || !is_full(hs[0].alloc.sizes@),
        forall|i: int| 1 <= i < n ==> !is_of_size(#[trigger] es[i], size),
        es[n] == (HeapStep::Take { size, align: again, given, block: next }),
    ensures
        next == block,
{
    assert(steps_to(hs[0], hs[1], es[0]));
    assert(is_block(hs[0], block));
    lemma_head_stays(hs, es, size, 1, n);
    assert(steps_to(hs[n], hs[n + 1], es[n]));
}

} // verus!
