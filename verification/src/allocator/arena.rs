//! The fallback arena: `linked_list_allocator::Heap`, a first-fit manager of
//! one region of memory, as far as the block allocator relies on it.
//!
//! Nothing in this file is proved. Each item states what the arena's source
//! shows of one of its functions.

use core::mem::MaybeUninit;
use linked_list_allocator::Heap;
use vstd::prelude::*;

verus! {

/// `linked_list_allocator::Heap`, of which nothing is known but what the
/// items below state.
#[verifier::external_type_specification]
#[verifier::external_body]
pub struct ExHeap(linked_list_allocator::Heap);

/// The addresses of the bytes that the arena holds as free: those that lie in
/// one of its holes.
pub uninterp spec fn arena_free(heap: Heap) -> Set<int>;

/// The start of the region that the arena was made with: its bottom address,
/// which is what `Heap::bottom` returns. Zero for an arena that has no region
/// yet.
pub uninterp spec fn arena_bottom(heap: Heap) -> int;

/// The end of the region that the arena was made with: its bottom address
/// plus its size, which is what `Heap::top` returns. Zero for an arena that
/// has no region yet.
pub uninterp spec fn arena_top(heap: Heap) -> int;

/// The block that `Heap::allocate_first_fit` hands out on this arena for a
/// layout of this size and alignment: its address, or `None` where no hole
/// has room for it.
pub uninterp spec fn arena_first_fit(heap: Heap, size: usize, align: usize) -> Option<usize>;

/// `n` is a power of two.
pub open spec fn is_power_of_two(n: usize) -> bool {
    n > 0 && n & ((n - 1) as usize) == 0
}

/// `Heap::empty`: an arena without a region. It holds no free byte.
pub assume_specification[ Heap::empty ]() -> (heap: Heap)
    ensures
        arena_free(heap) == Set::<int>::empty(),
        arena_bottom(heap) == 0,
        arena_top(heap) == 0,
;

/// `Heap::top`: the end of the arena's region.
pub assume_specification[ Heap::top ](heap: &Heap) -> (top: usize)
    ensures
        top == arena_top(*heap),
;

/// `Heap::init_from_slice`: gives an arena that has no region yet the region
/// `mem`. The source panics on an arena that has one, and writes a first hole
/// of two words at the first aligned address of `mem`, which `mem` must have
/// room for.
///
/// Afterwards the region starts at the address of `mem`, which is not zero,
/// and is as long as `mem`. The one hole reaches from the first address of
/// the region that is aligned to a word, at most seven bytes in, to the
/// region's end: every free byte lies in the region, and every byte of the
/// region from the eighth on is free.
pub assume_specification[ Heap::init_from_slice ](heap: &mut Heap, mem: &'static mut [MaybeUninit<u8>])
    requires
        arena_top(*old(heap)) == 0,
        old(mem)@.len() >= 23,
    ensures
        arena_bottom(*final(heap)) > 0,
        arena_top(*final(heap)) == arena_bottom(*final(heap)) + old(mem)@.len(),
        forall|b: int|
            arena_free(*final(heap)).contains(b) ==> arena_bottom(*final(heap)) <= b < arena_top(
                *final(heap),
            ),
        forall|b: int|
            arena_bottom(*final(heap)) + 7 <= b < arena_top(*final(heap)) ==> arena_free(
                *final(heap),
            ).contains(b),
;

/// `Heap::allocate_first_fit`, with the layout given as its size and
/// alignment, and the block as its address.
///
/// On success the block is aligned as asked, its bytes were free before and
/// are not free after, and no byte has become free. On failure the arena is
/// as it was. The region stays the same. The bounds keep the layout valid and the source's address
/// arithmetic (which rounds the size up to whole words and may skip two words
/// and an alignment step past the start of a hole) within `usize`.
#[verifier::external_body]
pub(crate) fn arena_allocate(heap: &mut Heap, size: usize, align: usize) -> (r: Option<usize>)
    requires
        is_power_of_two(align),
        size + align + 64 <= isize::MAX,
        arena_top(*old(heap)) + size + align + 64 <= usize::MAX,
    ensures
        r == arena_first_fit(*old(heap), size, align),
        arena_bottom(*final(heap)) == arena_bottom(*old(heap)),
        arena_top(*final(heap)) == arena_top(*old(heap)),
        arena_free(*final(heap)).subset_of(arena_free(*old(heap))),
        match r {
            Some(addr) => {
                &&& addr != 0
                &&& addr % align == 0
                &&& forall|b: int|
                    addr <= b < addr + size ==> arena_free(*old(heap)).contains(b) && !arena_free(
                        *final(heap),
                    ).contains(b)
            },
            None => arena_free(*final(heap)) == arena_free(*old(heap)),
        },
{
    let layout = core::alloc::Layout::from_size_align(size, align).unwrap();
    heap.allocate_first_fit(layout).ok().map(|block| block.addr().get())
}

} // verus!
