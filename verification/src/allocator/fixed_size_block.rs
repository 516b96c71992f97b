//! The block allocator: one free list per size class, and the fallback arena
//! for what no class holds.

use crate::allocator::arena::{
    arena_allocate, arena_bottom, arena_first_fit, arena_free, arena_top, is_power_of_two,
};
use core::mem::MaybeUninit;
use linked_list_allocator::Heap;
use vstd::prelude::*;

verus! {

/// The block sizes of the size classes, in ascending order.
pub const BLOCK_SIZES: [usize; 9] = [8, 16, 32, 64, 128, 256, 512, 1024, 2048];

/// What a request needs of a block: room for `size` bytes, and `align` bytes
/// where that is more.
pub open spec fn required_size(size: usize, align: usize) -> usize {
    if size >= align {
        size
    } else {
        align
    }
}

/// The first size class from `from` on whose blocks hold `required` bytes.
pub open spec fn smallest_fit(required: usize, from: int) -> Option<usize>
    decreases BLOCK_SIZES.len() - from,
{
    if from < 0 || from >= BLOCK_SIZES.len() {
        None
    } else if BLOCK_SIZES[from] >= required {
        Some(from as usize)
    } else {
        smallest_fit(required, from + 1)
    }
}

/// The size class that serves a request: the smallest whose blocks are large
/// enough, or `None` where even the largest are too small.
pub open spec fn size_class(size: usize, align: usize) -> Option<usize> {
    smallest_fit(required_size(size, align), 0)
}

/// Chooses the size class for a request of `size` bytes aligned to `align`.
pub fn list_index(size: usize, align: usize) -> (r: Option<usize>)
    ensures
        r == size_class(size, align),
{
    let required = if size >= align { size } else { align };
    let mut index: usize = 0;
    while index < BLOCK_SIZES.len()
        invariant
            index <= BLOCK_SIZES.len(),
            required == required_size(size, align),
            size_class(size, align) == smallest_fit(required, index as int),
        decreases BLOCK_SIZES.len() - index,
    {
        if BLOCK_SIZES[index] >= required {
            return Some(index);
        }
        index += 1;
    }
    None
}

/// The room that the block serving a request has: the block size of its size
/// class, or what was asked for where no class holds it.
pub open spec fn capacity(size: usize, align: usize) -> int {
    match size_class(size, align) {
        Some(index) => BLOCK_SIZES[index as int] as int,
        None => size as int,
    }
}

/// The block of `n` bytes at `a` and the block of `m` bytes at `b` share no
/// byte.
pub open spec fn apart(a: int, n: int, b: int, m: int) -> bool {
    a + n <= b || b + m <= a
}

/// The free list `i` has a block at position `j`.
pub open spec fn on_list(lists: Seq<Seq<usize>>, i: int, j: int) -> bool {
    0 <= i < lists.len() && 0 <= j < lists[i].len()
}

/// No byte of the block of `n` bytes at `addr` is free in the arena.
pub open spec fn not_free(free: Set<int>, addr: int, n: int) -> bool {
    forall|b: int| addr <= b < addr + n ==> !free.contains(b)
}

/// Every block on a free list shares no byte with the block of `n` bytes at
/// `addr`.
pub open spec fn lists_apart_from(lists: Seq<Seq<usize>>, addr: int, n: int) -> bool {
    forall|i: int, j: int| #[trigger]
        on_list(lists, i, j) ==> apart(lists[i][j] as int, BLOCK_SIZES[i] as int, addr, n)
}

/// Every live block shares no byte with the block of `n` bytes at `addr`.
pub open spec fn live_apart_from(live: Map<usize, (usize, usize)>, addr: int, n: int) -> bool {
    forall|a: usize| #[trigger]
        live.contains_key(a) ==> apart(a as int, capacity(live[a].0, live[a].1), addr, n)
}

/// No two blocks on the free lists share a byte.
pub open spec fn lists_apart(lists: Seq<Seq<usize>>) -> bool {
    forall|i: int, j: int, k: int, l: int|
        #[trigger] on_list(lists, i, j) && #[trigger] on_list(lists, k, l) && (i != k || j != l)
            ==> apart(
            lists[i][j] as int,
            BLOCK_SIZES[i] as int,
            lists[k][l] as int,
            BLOCK_SIZES[k] as int,
        )
}

/// No two live blocks share a byte, and none is empty.
pub open spec fn live_apart(live: Map<usize, (usize, usize)>) -> bool {
    &&& forall|a: usize| #[trigger] live.contains_key(a) ==> live[a].0 > 0
    &&& forall|a: usize, b: usize|
        #[trigger] live.contains_key(a) && #[trigger] live.contains_key(b) && a != b ==> apart(
            a as int,
            capacity(live[a].0, live[a].1),
            b as int,
            capacity(live[b].0, live[b].1),
        )
}

/// The free lists, the live blocks and the arena's holes share no byte.
pub open spec fn memory_parted(
    lists: Seq<Seq<usize>>,
    live: Map<usize, (usize, usize)>,
    free: Set<int>,
) -> bool {
    &&& lists_apart(lists)
    &&& live_apart(live)
    &&& forall|a: usize| #[trigger]
        live.contains_key(a) ==> lists_apart_from(lists, a as int, capacity(live[a].0, live[a].1))
    &&& forall|i: int, j: int| #[trigger]
        on_list(lists, i, j) ==> not_free(free, lists[i][j] as int, BLOCK_SIZES[i] as int)
    &&& forall|a: usize| #[trigger]
        live.contains_key(a) ==> not_free(free, a as int, capacity(live[a].0, live[a].1))
}

/// The alignment that the arena is asked for on behalf of a request: the
/// block size of the request's size class, or what was asked for where no
/// class holds it.
pub open spec fn block_align(size: usize, align: usize) -> int {
    match size_class(size, align) {
        Some(index) => BLOCK_SIZES[index as int] as int,
        None => align as int,
    }
}

/// Every free byte, every block on a free list and every live block lies in
/// the region from `bottom` to `top`; every block on a free list is aligned
/// to the block size of its class; and every live block is aligned as the
/// arena was asked on behalf of its request.
pub open spec fn memory_kept(
    lists: Seq<Seq<usize>>,
    live: Map<usize, (usize, usize)>,
    free: Set<int>,
    bottom: int,
    top: int,
) -> bool {
    &&& forall|b: int| free.contains(b) ==> bottom <= b < top
    &&& forall|i: int, j: int| #[trigger]
        on_list(lists, i, j) ==> bottom <= lists[i][j] && lists[i][j] + BLOCK_SIZES[i] <= top
    &&& forall|a: usize| #[trigger]
        live.contains_key(a) ==> bottom <= a && a + capacity(live[a].0, live[a].1) <= top
    &&& lists_aligned(lists)
    &&& forall|a: usize| #[trigger]
        live.contains_key(a) ==> a as int % block_align(live[a].0, live[a].1) == 0
}

/// Every block on a free list is aligned to the block size of its class.
pub open spec fn lists_aligned(lists: Seq<Seq<usize>>) -> bool {
    forall|i: int, j: int| #[trigger]
        on_list(lists, i, j) && i < BLOCK_SIZES.len() ==> lists[i][j] as int % (
        BLOCK_SIZES[i] as int) == 0
}

/// Whether the arena may be asked for `size` bytes aligned to `align`: the
/// layout is valid with room to round it up, and the block would end within
/// the address space wherever in the arena's region it began.
pub open spec fn within_reach(top: int, size: usize, align: usize) -> bool {
    &&& size + align + 64 <= isize::MAX
    &&& top + size + align + 64 <= usize::MAX
}

/// What the arena answers to a request: the block it finds, and `None` also
/// for a request that is not within reach, for which it is not asked.
pub open spec fn served(heap: Heap, size: usize, align: usize) -> Option<usize> {
    if within_reach(arena_top(heap), size, align) {
        arena_first_fit(heap, size, align)
    } else {
        None
    }
}

/// The free lists once the block at `addr` that served a request has come
/// back: it heads the list of its size class. A block that no class holds
/// comes on no list.
pub open spec fn recycled(lists: Seq<Seq<usize>>, addr: usize, size: usize, align: usize) -> Seq<
    Seq<usize>,
> {
    match size_class(size, align) {
        Some(index) => lists.update(index as int, lists[index as int].push(addr)),
        None => lists,
    }
}

/// The block that a request takes from the free lists: the head of the list
/// of its size class, if that list holds a block.
pub open spec fn reusable(lists: Seq<Seq<usize>>, size: usize, align: usize) -> Option<usize> {
    match size_class(size, align) {
        Some(index) => if lists[index as int].len() > 0 {
            Some(lists[index as int].last())
        } else {
            None
        },
        None => None,
    }
}

/// The free lists once a request has taken its block from them.
pub open spec fn reused(lists: Seq<Seq<usize>>, size: usize, align: usize) -> Seq<Seq<usize>> {
    match size_class(size, align) {
        Some(index) => if lists[index as int].len() > 0 {
            lists.update(index as int, lists[index as int].drop_last())
        } else {
            lists
        },
        None => lists,
    }
}

/// What the caller of `deallocate` has left to do.
#[derive(Clone, Copy, Debug, PartialEq, Eq, Structural)]
pub enum Release {
    /// The block is on a free list. Nothing is left to do.
    Recycled,
    /// The block belongs to no size class: the caller returns it to the
    /// fallback arena.
    ReturnToArena,
}

/// The allocator's state: for each size class the blocks that wait to be used
/// again, last freed first, and the fallback arena.
pub struct FixedSizeBlockAllocator {
    list_heads: Vec<Vec<usize>>,
    fallback_allocator: Heap,
    live: Ghost<Map<usize, (usize, usize)>>,
}

impl FixedSizeBlockAllocator {
    /// The free lists, one per size class; the head of a list is its last
    /// element.
    pub closed spec fn free_lists(&self) -> Seq<Seq<usize>> {
        Seq::new(self.list_heads.len() as nat, |i: int| self.list_heads[i]@)
    }

    /// The live blocks: for the address of each block that was handed out and
    /// has not come back, the size and alignment it was asked with.
    pub closed spec fn live(&self) -> Map<usize, (usize, usize)> {
        self.live@
    }

    /// The fallback arena.
    pub closed spec fn arena(&self) -> Heap {
        self.fallback_allocator
    }

    /// There is a free list for each size class; free lists, live blocks and
    /// the arena's holes share no byte and lie in the arena's region; blocks
    /// of a size class are aligned to its block size; and an arena without a
    /// region has handed out nothing.
    pub open spec fn wf(&self) -> bool {
        &&& self.free_lists().len() == BLOCK_SIZES.len()
        &&& memory_parted(self.free_lists(), self.live(), arena_free(self.arena()))
        &&& memory_kept(
            self.free_lists(),
            self.live(),
            arena_free(self.arena()),
            arena_bottom(self.arena()),
            arena_top(self.arena()),
        )
        &&& arena_top(self.arena()) == 0 ==> {
            &&& arena_free(self.arena()) == Set::<int>::empty()
            &&& self.live() == Map::<usize, (usize, usize)>::empty()
            &&& forall|i: int| 0 <= i < self.free_lists().len() ==> #[trigger] self.free_lists()[i].len() == 0
        }
    }

    /// What `allocate` returns for a request: the head of the free list of its
    /// size class; where that list is empty, what the arena answers when
    /// asked for a block of the class's size, aligned to that size; and where
    /// no class holds the request, what the arena answers when asked for the
    /// request itself.
    pub open spec fn allocation(&self, size: usize, align: usize) -> Option<usize> {
        match size_class(size, align) {
            Some(index) => if self.free_lists()[index as int].len() > 0 {
                reusable(self.free_lists(), size, align)
            } else {
                served(self.arena(), BLOCK_SIZES[index as int], BLOCK_SIZES[index as int])
            },
            None => served(self.arena(), size, align),
        }
    }

    /// An allocator with empty free lists and an arena without a region:
    /// every request fails until `init` has given it one.
    pub fn new() -> (allocator: FixedSizeBlockAllocator)
        ensures
            allocator.wf(),
            arena_top(allocator.arena()) == 0,
            allocator.live() == Map::<usize, (usize, usize)>::empty(),
            allocator.free_lists() == Seq::new(
                BLOCK_SIZES.len() as nat,
                |i: int| Seq::<usize>::empty(),
            ),
    {
        let mut list_heads: Vec<Vec<usize>> = Vec::new();
        while list_heads.len() < BLOCK_SIZES.len()
            invariant
                list_heads.len() <= BLOCK_SIZES.len(),
                forall|i: int| 0 <= i < list_heads.len() ==> (#[trigger] list_heads[i]).len() == 0,
            decreases BLOCK_SIZES.len() - list_heads.len(),
        {
            list_heads.push(Vec::new());
        }
        let allocator = FixedSizeBlockAllocator {
            list_heads,
            fallback_allocator: Heap::empty(),
            live: Ghost(Map::empty()),
        };
        assert forall|i: int| 0 <= i < allocator.free_lists().len() implies allocator.free_lists()[i]
            == Seq::<usize>::empty() by {
            assert(allocator.free_lists()[i] =~= Seq::<usize>::empty());
        }
        assert(allocator.free_lists() =~= Seq::new(
            BLOCK_SIZES.len() as nat,
            |i: int| Seq::<usize>::empty(),
        ));
        allocator
    }

    /// Gives the arena its region, `mem`. To be called once, before the
    /// first request. Afterwards the arena's region starts at the address of
    /// `mem` and is as long as `mem`, all of it is free but for at most seven
    /// bytes at its start, which alignment may cost, no block is live, and
    /// the free lists are empty.
    pub fn init(&mut self, mem: &'static mut [MaybeUninit<u8>])
        requires
            old(self).wf(),
            arena_top(old(self).arena()) == 0,
            old(mem)@.len() >= 23,
        ensures
            final(self).wf(),
            arena_bottom(final(self).arena()) > 0,
            arena_top(final(self).arena()) == arena_bottom(final(self).arena()) + old(mem)@.len(),
            forall|b: int|
                arena_free(final(self).arena()).contains(b) ==> arena_bottom(final(self).arena())
                    <= b < arena_top(final(self).arena()),
            forall|b: int|
                arena_bottom(final(self).arena()) + 7 <= b < arena_top(final(self).arena())
                    ==> arena_free(final(self).arena()).contains(b),
            final(self).live() == Map::<usize, (usize, usize)>::empty(),
            final(self).free_lists() == Seq::new(
                BLOCK_SIZES.len() as nat,
                |i: int| Seq::<usize>::empty(),
            ),
    {
        self.fallback_allocator.init_from_slice(mem);
        proof {
            assert forall|i: int| 0 <= i < self.free_lists().len() implies self.free_lists()[i]
                == Seq::<usize>::empty() by {
                assert(old(self).free_lists()[i].len() == 0);
                assert(self.free_lists()[i] =~= Seq::<usize>::empty());
            }
            assert(self.free_lists() =~= Seq::new(
                BLOCK_SIZES.len() as nat,
                |i: int| Seq::<usize>::empty(),
            ));
        }
    }
}

/// An address that is aligned to the block size of a size class is aligned
/// to every alignment that the class serves.
pub proof fn lemma_class_alignment(addr: usize, align: usize, index: int)
    requires
        0 <= index < BLOCK_SIZES.len(),
        is_power_of_two(align),
        align <= BLOCK_SIZES[index],
        addr as int % (BLOCK_SIZES[index] as int) == 0,
    ensures
        addr % align == 0,
{
    let a = align;
    let x = addr;
    assert(a > 0 && a & ((a - 1) as usize) == 0 && a <= 2048 ==> a == 1 || a == 2 || a == 4 || a == 8
        || a == 16 || a == 32 || a == 64 || a == 128 || a == 256 || a == 512 || a == 1024 || a
        == 2048) by (bit_vector);
    if x % 2048 == 0 {
        assert(x % 1024 == 0);
    }
    if x % 1024 == 0 {
        assert(x % 512 == 0);
    }
    if x % 512 == 0 {
        assert(x % 256 == 0);
    }
    if x % 256 == 0 {
        assert(x % 128 == 0);
    }
    if x % 128 == 0 {
        assert(x % 64 == 0);
    }
    if x % 64 == 0 {
        assert(x % 32 == 0);
    }
    if x % 32 == 0 {
        assert(x % 16 == 0);
    }
    if x % 16 == 0 {
        assert(x % 8 == 0);
    }
    if x % 8 == 0 {
        assert(x % 4 == 0);
    }
    if x % 4 == 0 {
        assert(x % 2 == 0);
    }
}

/// The block sizes are powers of two, and so are the smaller alignments:
/// a request may ask for any of them.
pub proof fn lemma_block_sizes_are_powers_of_two()
    ensures
        forall|i: int| 0 <= i < BLOCK_SIZES.len() ==> is_power_of_two(#[trigger] BLOCK_SIZES[i]),
        is_power_of_two(1),
        is_power_of_two(2),
        is_power_of_two(4),
{
    assert(1usize & ((1usize - 1) as usize) == 0) by (bit_vector);
    assert(2usize & ((2usize - 1) as usize) == 0) by (bit_vector);
    assert(4usize & ((4usize - 1) as usize) == 0) by (bit_vector);
    assert(8usize & ((8usize - 1) as usize) == 0) by (bit_vector);
    assert(16usize & ((16usize - 1) as usize) == 0) by (bit_vector);
    assert(32usize & ((32usize - 1) as usize) == 0) by (bit_vector);
    assert(64usize & ((64usize - 1) as usize) == 0) by (bit_vector);
    assert(128usize & ((128usize - 1) as usize) == 0) by (bit_vector);
    assert(256usize & ((256usize - 1) as usize) == 0) by (bit_vector);
    assert(512usize & ((512usize - 1) as usize) == 0) by (bit_vector);
    assert(1024usize & ((1024usize - 1) as usize) == 0) by (bit_vector);
    assert(2048usize & ((2048usize - 1) as usize) == 0) by (bit_vector);
}

/// The size class of a request is the smallest whose blocks hold what the
/// request needs, and a request that needs more than the largest block has
/// none: it goes to the arena as it is.
pub proof fn lemma_size_class_is_smallest_fit(size: usize, align: usize)
    ensures
        match size_class(size, align) {
            Some(index) => {
                &&& index < BLOCK_SIZES.len()
                &&& BLOCK_SIZES[index as int] >= required_size(size, align)
                &&& forall|smaller: int|
                    0 <= smaller < index ==> BLOCK_SIZES[smaller] < required_size(size, align)
            },
            None => required_size(size, align) > 2048,
        },
        required_size(size, align) > 2048 ==> size_class(size, align) is None,
{
    reveal_with_fuel(smallest_fit, 10);
}

/// A request is served by a block that holds it; the block of a size class
/// is at least as large as the alignment asked for.
pub proof fn lemma_capacity_holds(size: usize, align: usize)
    ensures
        capacity(size, align) >= size,
        match size_class(size, align) {
            Some(index) => index < BLOCK_SIZES.len() && BLOCK_SIZES[index as int] >= align,
            None => size > 2048 || align > 2048,
        },
{
    reveal_with_fuel(smallest_fit, 10);
}

/// A block whose bytes are all free in the arena shares no byte with a block
/// of which none is.
proof fn lemma_apart_by_bytes(free: Set<int>, a: int, n: int, b: int, m: int)
    requires
        n > 0,
        m > 0,
        forall|x: int| a <= x < a + n ==> free.contains(x),
        not_free(free, b, m),
    ensures
        apart(b, m, a, n),
{
    if !apart(b, m, a, n) {
        let x = if a >= b { a } else { b };
        assert(free.contains(x));
    }
}

/// Memory stays parted when a request takes the head of its free list: the
/// block goes from the list to the live blocks, and shares no byte with
/// those that were live.
pub proof fn lemma_parted_after_reuse(
    lists: Seq<Seq<usize>>,
    live: Map<usize, (usize, usize)>,
    free: Set<int>,
    size: usize,
    align: usize,
)
    requires
        lists.len() == BLOCK_SIZES.len(),
        memory_parted(lists, live, free),
        size > 0,
        reusable(lists, size, align) is Some,
    ensures
        !live.contains_key(reusable(lists, size, align)->0),
        live_apart_from(live, reusable(lists, size, align)->0 as int, capacity(size, align)),
        memory_parted(
            reused(lists, size, align),
            live.insert(reusable(lists, size, align)->0, (size, align)),
            free,
        ),
{
    lemma_capacity_holds(size, align);
    let index = size_class(size, align)->0 as int;
    let head = lists[index].len() - 1;
    let addr = lists[index][head];
    let rest = reused(lists, size, align);
    let lent = live.insert(addr, (size, align));
    assert(on_list(lists, index, head));
    assert forall|i: int, j: int| #[trigger] on_list(rest, i, j) implies on_list(lists, i, j)
        && rest[i][j] == lists[i][j] && (i != index || j != head) by {}
    assert forall|a: usize| #[trigger] live.contains_key(a) implies apart(
        a as int,
        capacity(live[a].0, live[a].1),
        addr as int,
        capacity(size, align),
    ) by {
        assert(lists_apart_from(lists, a as int, capacity(live[a].0, live[a].1)));
    }
    if live.contains_key(addr) {
        lemma_capacity_holds(live[addr].0, live[addr].1);
    }
    assert(lists_apart(rest)) by {
        assert forall|i: int, j: int, k: int, l: int|
            #[trigger] on_list(rest, i, j) && #[trigger] on_list(rest, k, l) && (i != k || j
                != l) implies apart(
            rest[i][j] as int,
            BLOCK_SIZES[i] as int,
            rest[k][l] as int,
            BLOCK_SIZES[k] as int,
        ) by {
            assert(on_list(lists, i, j) && on_list(lists, k, l));
        }
    }
    assert forall|a: usize| #[trigger] lent.contains_key(a) implies lists_apart_from(
        rest,
        a as int,
        capacity(lent[a].0, lent[a].1),
    ) by {
        assert forall|i: int, j: int| #[trigger] on_list(rest, i, j) implies apart(
            rest[i][j] as int,
            BLOCK_SIZES[i] as int,
            a as int,
            capacity(lent[a].0, lent[a].1),
        ) by {
            assert(on_list(lists, i, j));
            if a != addr {
                assert(live.contains_key(a));
                assert(lists_apart_from(lists, a as int, capacity(live[a].0, live[a].1)));
            }
        }
    }
    assert forall|i: int, j: int| #[trigger] on_list(rest, i, j) implies not_free(
        free,
        rest[i][j] as int,
        BLOCK_SIZES[i] as int,
    ) by {
        assert(on_list(lists, i, j));
    }
    assert forall|a: usize| #[trigger] lent.contains_key(a) implies not_free(
        free,
        a as int,
        capacity(lent[a].0, lent[a].1),
    ) by {
        if a != addr {
            assert(live.contains_key(a));
        }
    }
    assert(live_apart(lent));
}

/// Memory stays parted when the arena hands out a block for a request: the
/// block joins the live blocks, and shares no byte with those that were
/// live.
pub proof fn lemma_parted_after_mint(
    lists: Seq<Seq<usize>>,
    live: Map<usize, (usize, usize)>,
    free: Set<int>,
    now: Set<int>,
    addr: usize,
    size: usize,
    align: usize,
)
    requires
        lists.len() == BLOCK_SIZES.len(),
        memory_parted(lists, live, free),
        size > 0,
        now.subset_of(free),
        forall|b: int|
            addr <= b < addr + capacity(size, align) ==> free.contains(b) && !now.contains(b),
    ensures
        !live.contains_key(addr),
        live_apart_from(live, addr as int, capacity(size, align)),
        memory_parted(lists, live.insert(addr, (size, align)), now),
{
    lemma_capacity_holds(size, align);
    let block = capacity(size, align);
    let lent = live.insert(addr, (size, align));
    assert forall|a: usize| #[trigger] live.contains_key(a) implies apart(
        a as int,
        capacity(live[a].0, live[a].1),
        addr as int,
        block,
    ) by {
        lemma_capacity_holds(live[a].0, live[a].1);
        lemma_apart_by_bytes(free, addr as int, block, a as int, capacity(live[a].0, live[a].1));
    }
    assert forall|i: int, j: int| #[trigger] on_list(lists, i, j) implies apart(
        lists[i][j] as int,
        BLOCK_SIZES[i] as int,
        addr as int,
        block,
    ) by {
        lemma_apart_by_bytes(free, addr as int, block, lists[i][j] as int, BLOCK_SIZES[i] as int);
    }
    if live.contains_key(addr) {
        lemma_capacity_holds(live[addr].0, live[addr].1);
    }
    assert(live_apart(lent));
    assert forall|a: usize| #[trigger] lent.contains_key(a) implies lists_apart_from(
        lists,
        a as int,
        capacity(lent[a].0, lent[a].1),
    ) by {
        if a != addr {
            assert(live.contains_key(a));
        }
    }
    assert forall|i: int, j: int| #[trigger] on_list(lists, i, j) implies not_free(
        now,
        lists[i][j] as int,
        BLOCK_SIZES[i] as int,
    ) by {
        assert(not_free(free, lists[i][j] as int, BLOCK_SIZES[i] as int));
    }
    assert forall|a: usize| #[trigger] lent.contains_key(a) implies not_free(
        now,
        a as int,
        capacity(lent[a].0, lent[a].1),
    ) by {
        if a != addr {
            assert(live.contains_key(a));
            assert(not_free(free, a as int, capacity(live[a].0, live[a].1)));
        }
    }
}

/// Memory stays parted when a live block comes back: it leaves the live
/// blocks and, if a size class holds it, heads the free list of that class.
pub proof fn lemma_parted_after_release(
    lists: Seq<Seq<usize>>,
    live: Map<usize, (usize, usize)>,
    free: Set<int>,
    addr: usize,
    size: usize,
    align: usize,
)
    requires
        lists.len() == BLOCK_SIZES.len(),
        memory_parted(lists, live, free),
        live.contains_key(addr),
        live[addr] == (size, align),
    ensures
        memory_parted(recycled(lists, addr, size, align), live.remove(addr), free),
{
    lemma_capacity_holds(size, align);
    let now = recycled(lists, addr, size, align);
    let lent = live.remove(addr);
    assert(live_apart(lent));
    match size_class(size, align) {
        Some(class) => {
            let index = class as int;
            let top = lists[index].len() as int;
            assert forall|i: int, j: int| #[trigger] on_list(now, i, j) implies (i == index && j
                == top && now[i][j] == addr) || (on_list(lists, i, j) && now[i][j]
                == lists[i][j]) by {}
            assert(lists_apart_from(lists, addr as int, BLOCK_SIZES[index] as int));
            assert(lists_apart(now)) by {
                assert forall|i: int, j: int, k: int, l: int|
                    #[trigger] on_list(now, i, j) && #[trigger] on_list(now, k, l) && (i != k || j
                        != l) implies apart(
                    now[i][j] as int,
                    BLOCK_SIZES[i] as int,
                    now[k][l] as int,
                    BLOCK_SIZES[k] as int,
                ) by {
                    if i == index && j == top {
                        assert(on_list(lists, k, l));
                    } else if k == index && l == top {
                        assert(on_list(lists, i, j));
                    } else {
                        assert(on_list(lists, i, j) && on_list(lists, k, l));
                    }
                }
            }
            assert forall|a: usize| #[trigger] lent.contains_key(a) implies lists_apart_from(
                now,
                a as int,
                capacity(lent[a].0, lent[a].1),
            ) by {
                assert(live.contains_key(a));
                assert(lists_apart_from(lists, a as int, capacity(live[a].0, live[a].1)));
                assert forall|i: int, j: int| #[trigger] on_list(now, i, j) implies apart(
                    now[i][j] as int,
                    BLOCK_SIZES[i] as int,
                    a as int,
                    capacity(lent[a].0, lent[a].1),
                ) by {
                    if !(i == index && j == top) {
                        assert(on_list(lists, i, j));
                    }
                }
            }
            assert forall|i: int, j: int| #[trigger] on_list(now, i, j) implies not_free(
                free,
                now[i][j] as int,
                BLOCK_SIZES[i] as int,
            ) by {
                if !(i == index && j == top) {
                    assert(on_list(lists, i, j));
                }
            }
        },
        None => {
            assert forall|a: usize| #[trigger] lent.contains_key(a) implies lists_apart_from(
                lists,
                a as int,
                capacity(lent[a].0, lent[a].1),
            ) by {
                assert(live.contains_key(a));
            }
            assert forall|a: usize| #[trigger] lent.contains_key(a) implies not_free(
                free,
                a as int,
                capacity(lent[a].0, lent[a].1),
            ) by {
                assert(live.contains_key(a));
            }
        },
    }
}

/// Memory stays in the region and aligned when a request takes the head of
/// its free list, and the block is aligned as the request asks.
pub proof fn lemma_kept_after_reuse(
    lists: Seq<Seq<usize>>,
    live: Map<usize, (usize, usize)>,
    free: Set<int>,
    bottom: int,
    top: int,
    size: usize,
    align: usize,
)
    requires
        lists.len() == BLOCK_SIZES.len(),
        memory_kept(lists, live, free, bottom, top),
        is_power_of_two(align),
        reusable(lists, size, align) is Some,
    ensures
        memory_kept(
            reused(lists, size, align),
            live.insert(reusable(lists, size, align)->0, (size, align)),
            free,
            bottom,
            top,
        ),
        reusable(lists, size, align)->0 % align == 0,
        bottom <= reusable(lists, size, align)->0,
        reusable(lists, size, align)->0 + size <= top,
{
    lemma_capacity_holds(size, align);
    let index = size_class(size, align)->0 as int;
    let head = lists[index].len() - 1;
    let addr = lists[index][head];
    let rest = reused(lists, size, align);
    assert(on_list(lists, index, head));
    lemma_class_alignment(addr, align, index);
    assert forall|i: int, j: int| #[trigger] on_list(rest, i, j) implies on_list(lists, i, j)
        && rest[i][j] == lists[i][j] by {}
    assert forall|i: int, j: int| #[trigger]
        on_list(rest, i, j) && i < BLOCK_SIZES.len() implies rest[i][j] as int % (
    BLOCK_SIZES[i] as int) == 0 by {
        assert(on_list(lists, i, j));
    }
    assert forall|i: int, j: int| #[trigger] on_list(rest, i, j) implies bottom <= rest[i][j]
        && rest[i][j] + BLOCK_SIZES[i] <= top by {
        assert(on_list(lists, i, j));
    }
}

/// Memory stays in the region and aligned when the arena hands out a block
/// for a request, and the block is aligned as the request asks.
pub proof fn lemma_kept_after_mint(
    lists: Seq<Seq<usize>>,
    live: Map<usize, (usize, usize)>,
    free: Set<int>,
    now: Set<int>,
    bottom: int,
    top: int,
    addr: usize,
    size: usize,
    align: usize,
)
    requires
        memory_kept(lists, live, free, bottom, top),
        size > 0,
        is_power_of_two(align),
        now.subset_of(free),
        forall|b: int| addr <= b < addr + capacity(size, align) ==> free.contains(b),
        addr as int % block_align(size, align) == 0,
    ensures
        memory_kept(lists, live.insert(addr, (size, align)), now, bottom, top),
        addr % align == 0,
        bottom <= addr,
        addr + size <= top,
{
    lemma_capacity_holds(size, align);
    let block = capacity(size, align);
    assert(free.contains(addr as int));
    assert(free.contains(addr + block - 1));
    if size_class(size, align) is Some {
        lemma_class_alignment(addr, align, size_class(size, align)->0 as int);
    }
}

/// Memory stays in the region and aligned when a live block comes back.
pub proof fn lemma_kept_after_release(
    lists: Seq<Seq<usize>>,
    live: Map<usize, (usize, usize)>,
    free: Set<int>,
    bottom: int,
    top: int,
    addr: usize,
    size: usize,
    align: usize,
)
    requires
        lists.len() == BLOCK_SIZES.len(),
        memory_kept(lists, live, free, bottom, top),
        live.contains_key(addr),
        live[addr] == (size, align),
    ensures
        memory_kept(recycled(lists, addr, size, align), live.remove(addr), free, bottom, top),
{
    lemma_capacity_holds(size, align);
    let now = recycled(lists, addr, size, align);
    if size_class(size, align) is Some {
        let index = size_class(size, align)->0 as int;
        let top_of_list = lists[index].len() as int;
        assert forall|i: int, j: int| #[trigger] on_list(now, i, j) implies (i == index && j
            == top_of_list && now[i][j] == addr) || (on_list(lists, i, j) && now[i][j]
            == lists[i][j]) by {}
        assert forall|i: int, j: int| #[trigger]
            on_list(now, i, j) && i < BLOCK_SIZES.len() implies now[i][j] as int % (
        BLOCK_SIZES[i] as int) == 0 by {
            if !(i == index && j == top_of_list) {
                assert(on_list(lists, i, j));
            }
        }
        assert forall|i: int, j: int| #[trigger] on_list(now, i, j) implies bottom <= now[i][j]
            && now[i][j] + BLOCK_SIZES[i] <= top by {
            if !(i == index && j == top_of_list) {
                assert(on_list(lists, i, j));
            }
        }
    }
}

impl FixedSizeBlockAllocator {
    /// Asks the arena for a block of `block` bytes aligned to `align` to
    /// serve `request`, a size and the alignment asked with it.
    fn from_arena(&mut self, block: usize, align: usize, Ghost(request): Ghost<(usize, usize)>) -> (r:
        Option<usize>)
        requires
            old(self).wf(),
            is_power_of_two(request.1),
            request.0 > 0,
            block == capacity(request.0, request.1),
            align == block_align(request.0, request.1),
        ensures
            final(self).wf(),
            r == served(old(self).arena(), block, align),
            final(self).free_lists() == old(self).free_lists(),
            final(self).live() == match r {
                Some(addr) => old(self).live().insert(addr, request),
                None => old(self).live(),
            },
            arena_bottom(final(self).arena()) == arena_bottom(old(self).arena()),
            arena_top(final(self).arena()) == arena_top(old(self).arena()),
            arena_free(final(self).arena()).subset_of(arena_free(old(self).arena())),
            r is None ==> arena_free(final(self).arena()) == arena_free(old(self).arena()),
            r matches Some(addr) ==> {
                &&& addr % request.1 == 0
                &&& arena_bottom(old(self).arena()) <= addr
                &&& addr + request.0 <= arena_top(old(self).arena())
                &&& !old(self).live().contains_key(addr)
                &&& live_apart_from(old(self).live(), addr as int, block as int)
            },
    {
        proof {
            lemma_capacity_holds(request.0, request.1);
            lemma_block_sizes_are_powers_of_two();
        }
        let top = self.fallback_allocator.top();
        let limit: usize = isize::MAX as usize;
        if align > limit - 64 || block > limit - 64 - align {
            return None;
        }
        if top > usize::MAX - 64 - align - block {
            return None;
        }
        let ghost lists = self.free_lists();
        let r = arena_allocate(&mut self.fallback_allocator, block, align);
        if let Some(addr) = r {
            proof {
                assert(arena_free(old(self).arena()).contains(addr as int));
                lemma_parted_after_mint(
                    lists,
                    self.live(),
                    arena_free(old(self).arena()),
                    arena_free(self.arena()),
                    addr,
                    request.0,
                    request.1,
                );
                lemma_kept_after_mint(
                    lists,
                    self.live(),
                    arena_free(old(self).arena()),
                    arena_free(self.arena()),
                    arena_bottom(self.arena()),
                    arena_top(self.arena()),
                    addr,
                    request.0,
                    request.1,
                );
            }
            self.live = Ghost(self.live@.insert(addr, request));
        }
        proof {
            assert(self.free_lists() =~= lists);
        }
        r
    }

    /// Serves a request of `size` bytes aligned to `align`, and returns the
    /// address of its block, or `None` where the arena has no room.
    ///
    /// A request that a size class holds takes the head of that class's free
    /// list, and only where the list is empty a new block from the arena, of
    /// the class's size and aligned to that size. A request that no class
    /// holds goes to the arena as it is. The block is aligned as asked, lies
    /// in the arena's region and shares no byte with a live block. Where the
    /// request fails, nothing has changed.
    pub fn allocate(&mut self, size: usize, align: usize) -> (r: Option<usize>)
        requires
            old(self).wf(),
            size > 0,
            is_power_of_two(align),
        ensures
            final(self).wf(),
            r == old(self).allocation(size, align),
            final(self).free_lists() == reused(old(self).free_lists(), size, align),
            final(self).live() == match r {
                Some(addr) => old(self).live().insert(addr, (size, align)),
                None => old(self).live(),
            },
            r matches Some(addr) ==> {
                &&& addr % align == 0
                &&& arena_bottom(old(self).arena()) <= addr
                &&& addr + size <= arena_top(old(self).arena())
                &&& !old(self).live().contains_key(addr)
                &&& live_apart_from(old(self).live(), addr as int, size as int)
                &&& lists_apart_from(final(self).free_lists(), addr as int, size as int)
            },
            reusable(old(self).free_lists(), size, align) is Some ==> final(self).arena() == old(
                self,
            ).arena(),
            arena_bottom(final(self).arena()) == arena_bottom(old(self).arena()),
            arena_top(final(self).arena()) == arena_top(old(self).arena()),
            arena_free(final(self).arena()).subset_of(arena_free(old(self).arena())),
            r is None ==> arena_free(final(self).arena()) == arena_free(old(self).arena()),
    {
        proof {
            lemma_capacity_holds(size, align);
        }
        let ghost lists = self.free_lists();
        let ghost live = self.live();
        let r = match list_index(size, align) {
            Some(index) => {
                match self.list_heads[index].pop() {
                    Some(addr) => {
                        proof {
                            lemma_parted_after_reuse(
                                lists,
                                live,
                                arena_free(self.arena()),
                                size,
                                align,
                            );
                            lemma_kept_after_reuse(
                                lists,
                                live,
                                arena_free(self.arena()),
                                arena_bottom(self.arena()),
                                arena_top(self.arena()),
                                size,
                                align,
                            );
                            assert(self.free_lists() =~= reused(lists, size, align));
                        }
                        self.live = Ghost(self.live@.insert(addr, (size, align)));
                        Some(addr)
                    },
                    None => {
                        proof {
                            assert(self.free_lists() =~= lists);
                        }
                        self.from_arena(
                            BLOCK_SIZES[index],
                            BLOCK_SIZES[index],
                            Ghost((size, align)),
                        )
                    },
                }
            },
            None => self.from_arena(size, align, Ghost((size, align))),
        };
        proof {
            if r is Some {
                assert forall|a: usize| #[trigger] live.contains_key(a) implies apart(
                    a as int,
                    capacity(live[a].0, live[a].1),
                    r->0 as int,
                    size as int,
                ) by {}
                assert(self.live().contains_key(r->0));
                assert(lists_apart_from(self.free_lists(), r->0 as int, capacity(size, align)));
            }
        }
        r
    }

    /// Takes back the block at `addr` that served the request `(size,
    /// align)`. A block of a size class becomes the head of that class's free
    /// list. A block that no class holds leaves the allocator's books, and
    /// the caller returns it to the arena.
    pub fn deallocate(&mut self, addr: usize, size: usize, align: usize) -> (r: Release)
        requires
            old(self).wf(),
            old(self).live().contains_key(addr),
            old(self).live()[addr] == (size, align),
        ensures
            final(self).wf(),
            final(self).free_lists() == recycled(old(self).free_lists(), addr, size, align),
            final(self).live() == old(self).live().remove(addr),
            final(self).arena() == old(self).arena(),
            r == if size_class(size, align) is Some {
                Release::Recycled
            } else {
                Release::ReturnToArena
            },
    {
        proof {
            lemma_capacity_holds(size, align);
            lemma_parted_after_release(
                self.free_lists(),
                self.live(),
                arena_free(self.arena()),
                addr,
                size,
                align,
            );
            lemma_kept_after_release(
                self.free_lists(),
                self.live(),
                arena_free(self.arena()),
                arena_bottom(self.arena()),
                arena_top(self.arena()),
                addr,
                size,
                align,
            );
            assert(arena_top(self.arena()) != 0) by {
                if arena_top(self.arena()) == 0 {
                    assert(self.live() =~= Map::<usize, (usize, usize)>::empty());
                }
            }
        }
        self.live = Ghost(self.live@.remove(addr));
        match list_index(size, align) {
            Some(index) => {
                self.list_heads[index].push(addr);
                proof {
                    assert(self.free_lists() =~= recycled(
                        old(self).free_lists(),
                        addr,
                        size,
                        align,
                    ));
                }
                Release::Recycled
            },
            None => {
                proof {
                    assert(self.free_lists() =~= old(self).free_lists());
                }
                Release::ReturnToArena
            },
        }
    }

    /// The fallback arena, for the caller who returns to it a block that
    /// `deallocate` left to them.
    pub fn fallback_allocator_mut(&mut self) -> (heap: &mut Heap)
        ensures
            *heap == old(self).arena(),
            final(self).arena() == *final(heap),
            final(self).free_lists() == old(self).free_lists(),
            final(self).live() == old(self).live(),
    {
        &mut self.fallback_allocator
    }
}

/// A block that comes back is the next to go out: once the block at `addr`
/// has come back, the next request of its size class takes this very block,
/// and leaves the free lists as they were before it came back.
pub proof fn lemma_last_freed_first_reused(
    lists: Seq<Seq<usize>>,
    addr: usize,
    freed: (usize, usize),
    asked: (usize, usize),
)
    requires
        lists.len() == BLOCK_SIZES.len(),
        size_class(freed.0, freed.1) is Some,
        size_class(asked.0, asked.1) == size_class(freed.0, freed.1),
    ensures
        reusable(recycled(lists, addr, freed.0, freed.1), asked.0, asked.1) == Some(addr),
        reused(recycled(lists, addr, freed.0, freed.1), asked.0, asked.1) == lists,
{
    lemma_capacity_holds(freed.0, freed.1);
    let index = size_class(freed.0, freed.1)->0 as int;
    let after = recycled(lists, addr, freed.0, freed.1);
    assert(after[index].drop_last() =~= lists[index]);
    assert(reused(after, asked.0, asked.1) =~= lists);
}

} // verus!
