//! The free-list allocator: a first-fit search over a list of free regions,
//! most recently added first. Regions are never merged with their neighbours.

use crate::align::{
    align_up, align_up_fits, align_up_spec, is_pow2, lemma_align_up_basics, lemma_align_up_least,
    lemma_mod_trans,
    lemma_pow2_divides,
};
use vstd::prelude::*;

verus! {

/// The room a free region needs to describe itself: a length and a link.
pub const NODE_SIZE: usize = 16;

/// The alignment of a free region's start.
pub const NODE_ALIGN: usize = 8;

/// The address `x` lies in the range `(start, end)`.
pub open spec fn in_range(x: int, b: (int, int)) -> bool {
    b.0 <= x < b.1
}

/// The address `x` lies in a free region, an outstanding block or a gap.
pub open spec fn in_any(
    free: Seq<(int, int)>,
    live: Set<(int, int)>,
    lost: Set<(int, int)>,
    x: int,
) -> bool {
    ||| exists|i: int| 0 <= i < free.len() && in_range(x, #[trigger] free[i])
    ||| exists|b: (int, int)| #[trigger] live.contains(b) && in_range(x, b)
    ||| exists|g: (int, int)| #[trigger] lost.contains(g) && in_range(x, g)
}

/// Two ranges `(start, end)` share no address.
pub open spec fn disjoint(a: (int, int), b: (int, int)) -> bool {
    a.1 <= b.0 || b.1 <= a.0
}

/// A block `(start, end)` that can hold a free-region record and lies in the heap.
pub open spec fn block_ok(b: (int, int), heap_start: int, heap_end: int) -> bool {
    &&& b.0 % NODE_ALIGN as int == 0
    &&& b.1 - b.0 >= NODE_SIZE
    &&& heap_start <= b.0
    &&& b.1 <= heap_end
}

/// The alignment a request is served with: at least that of a free region.
pub open spec fn adjusted_align(align: int) -> int {
    if align > NODE_ALIGN {
        align
    } else {
        NODE_ALIGN as int
    }
}

/// The requested size padded to the adjusted alignment.
pub open spec fn padded_size(size: int, align: int) -> int {
    align_up_spec(size, adjusted_align(align))
}

/// The request is small enough to be described at all.
pub open spec fn layout_fits(size: int, align: int) -> bool {
    padded_size(size, align) <= isize::MAX
}

/// The size a request is served with: padded, and at least a free region's record.
pub open spec fn adjusted_size(size: int, align: int) -> int {
    if padded_size(size, align) > NODE_SIZE {
        padded_size(size, align)
    } else {
        NODE_SIZE as int
    }
}

/// A block of `size` bytes aligned to `align` can be cut from the region
/// `(start, end)`, leaving at its end either nothing or room for a free region.
pub open spec fn region_fits(region: (int, int), size: int, align: int) -> bool {
    let alloc_end = align_up_spec(region.0, align) + size;
    alloc_end <= region.1 && (alloc_end == region.1 || region.1 - alloc_end >= NODE_SIZE)
}

/// Region `i` is the first one of `free` that fits the request.
pub open spec fn is_first_fit(free: Seq<(int, int)>, i: int, size: int, align: int) -> bool {
    &&& 0 <= i < free.len()
    &&& region_fits(free[i], size, align)
    &&& forall|j: int| 0 <= j < i ==> !region_fits(#[trigger] free[j], size, align)
}

/// Some free region can serve a request of `size` bytes aligned to `align`.
pub open spec fn can_allocate(free: Seq<(int, int)>, size: int, align: int) -> bool {
    &&& layout_fits(size, align)
    &&& exists|i: int|
        0 <= i < free.len() && region_fits(
            #[trigger] free[i],
            adjusted_size(size, align),
            adjusted_align(align),
        )
}

/// The free list after region `i` was taken for a block ending at `alloc_end`:
/// the region leaves the list, and what is left after the block comes first.
pub open spec fn after_alloc(free: Seq<(int, int)>, i: int, alloc_end: int) -> Seq<(int, int)> {
    if alloc_end < free[i].1 {
        seq![(alloc_end, free[i].1)] + free.remove(i)
    } else {
        free.remove(i)
    }
}

/// The free list after the block at `ptr` of the given layout came back: it
/// comes first, as it is, merged with nothing.
pub open spec fn released(free: Seq<(int, int)>, ptr: int, size: int, align: int) -> Seq<
    (int, int),
> {
    seq![(ptr, ptr + adjusted_size(size, align))] + free
}

pub(crate) proof fn lemma_node_align_pow2()
    ensures
        is_pow2(NODE_ALIGN as int),
{
    assert(is_pow2(1));
    assert(is_pow2(2));
    assert(is_pow2(4));
    assert(is_pow2(8));
}

/// The adjusted alignment is a power of two that the requested one divides,
/// and the adjusted size is a multiple of a free region's alignment and can
/// hold its record.
pub(crate) proof fn lemma_adjusted(size: int, align: int)
    requires
        size >= 0,
        is_pow2(align),
    ensures
        is_pow2(adjusted_align(align)),
        adjusted_align(align) % align == 0,
        adjusted_align(align) % NODE_ALIGN as int == 0,
        adjusted_size(size, align) % NODE_ALIGN as int == 0,
        adjusted_size(size, align) >= NODE_SIZE,
        adjusted_size(size, align) >= padded_size(size, align) >= size,
{
    let a = adjusted_align(align);
    lemma_node_align_pow2();
    if align > NODE_ALIGN {
        lemma_pow2_divides(NODE_ALIGN as int, align);
        assert(align % align == 0) by (nonlinear_arith)
            requires
                align > 0,
        ;
    } else {
        lemma_pow2_divides(align, NODE_ALIGN as int);
    }
    lemma_align_up_basics(size, a);
    lemma_mod_trans(padded_size(size, align), a, NODE_ALIGN as int);
}

proof fn lemma_in_free(free: Seq<(int, int)>, live: Set<(int, int)>, lost: Set<(int, int)>, x: int, i: int)
    requires
        0 <= i < free.len(),
        in_range(x, free[i]),
    ensures
        in_any(free, live, lost, x),
{
}

proof fn lemma_in_live(free: Seq<(int, int)>, live: Set<(int, int)>, lost: Set<(int, int)>, x: int, b: (int, int))
    requires
        live.contains(b),
        in_range(x, b),
    ensures
        in_any(free, live, lost, x),
{
}

proof fn lemma_in_lost(free: Seq<(int, int)>, live: Set<(int, int)>, lost: Set<(int, int)>, x: int, g: (int, int))
    requires
        lost.contains(g),
        in_range(x, g),
    ensures
        in_any(free, live, lost, x),
{
}

/// A free region of the heap.
pub struct ListNode {
    start: usize,
    size: usize,
}

impl ListNode {
    pub closed spec fn range(&self) -> (int, int) {
        (self.start as int, self.start + self.size)
    }

    fn new(start: usize, size: usize) -> (r: ListNode)
        ensures
            r.range() == (start as int, start + size),
    {
        ListNode { start, size }
    }

    fn start_addr(&self) -> (r: usize)
        ensures
            r == self.range().0,
    {
        self.start
    }

    fn end_addr(&self) -> (r: usize)
        requires
            self.start + self.size <= usize::MAX,
        ensures
            r == self.range().1,
    {
        self.start + self.size
    }
}

/// A first-fit allocator over a list of free regions of the heap.
pub struct LinkedListAllocator {
    /// The free regions, most recently added first.
    regions: Vec<ListNode>,
    heap_start: usize,
    heap_end: usize,
    initialized: bool,
    /// The blocks `(start, end)` handed out and not yet released.
    live: Ghost<Set<(int, int)>>,
    /// The gaps `(start, end)` left in front of blocks by their alignment.
    lost: Ghost<Set<(int, int)>>,
}

impl LinkedListAllocator {
    /// The free regions `(start, end)`, most recently added first.
    pub closed spec fn free_regions(&self) -> Seq<(int, int)> {
        self.regions@.map_values(|n: ListNode| n.range())
    }

    /// The blocks `(start, end)` handed out and not yet released.
    pub closed spec fn live(&self) -> Set<(int, int)> {
        self.live@
    }

    /// The gaps `(start, end)` left in front of blocks by their alignment.
    pub closed spec fn lost(&self) -> Set<(int, int)> {
        self.lost@
    }

    pub closed spec fn heap_start(&self) -> int {
        self.heap_start as int
    }

    pub closed spec fn heap_end(&self) -> int {
        self.heap_end as int
    }

    pub closed spec fn initialized(&self) -> bool {
        self.initialized
    }

    /// Every address of the heap is in a free region, an outstanding block
    /// or an alignment gap.
    pub open spec fn covers(&self) -> bool {
        forall|x: int|
            self.heap_start() <= x < self.heap_end() ==> #[trigger] in_any(
                self.free_regions(),
                self.live(),
                self.lost(),
                x,
            )
    }

    pub open spec fn wf(&self) -> bool {
        self.inv() && self.covers()
    }

    /// The free regions, outstanding blocks and gaps lie in the heap and do
    /// not overlap.
    pub open spec fn inv(&self) -> bool {
        let free = self.free_regions();
        let live = self.live();
        let lost = self.lost();
        let hs = self.heap_start();
        let he = self.heap_end();
        &&& hs <= he
        &&& !self.initialized() ==> free.len() == 0 && live == Set::<(int, int)>::empty()
        &&& forall|i: int| 0 <= i < free.len() ==> block_ok(#[trigger] free[i], hs, he)
        &&& forall|i: int, j: int|
            0 <= i < free.len() && 0 <= j < free.len() && i != j ==> disjoint(
                #[trigger] free[i],
                #[trigger] free[j],
            )
        &&& forall|b: (int, int)| #[trigger] live.contains(b) ==> block_ok(b, hs, he)
        &&& forall|b: (int, int), i: int|
            #[trigger] live.contains(b) && 0 <= i < free.len() ==> disjoint(b, #[trigger] free[i])
        &&& forall|b1: (int, int), b2: (int, int)|
            #[trigger] live.contains(b1) && #[trigger] live.contains(b2) && b1 != b2 ==> disjoint(
                b1,
                b2,
            )
        &&& !self.initialized() ==> lost == Set::<(int, int)>::empty()
        &&& forall|g: (int, int)| #[trigger] lost.contains(g) ==> hs <= g.0 < g.1 <= he
        &&& forall|g: (int, int), i: int|
            #[trigger] lost.contains(g) && 0 <= i < free.len() ==> disjoint(g, #[trigger] free[i])
        &&& forall|g: (int, int), b: (int, int)|
            #[trigger] lost.contains(g) && #[trigger] live.contains(b) ==> disjoint(g, b)
        &&& forall|g1: (int, int), g2: (int, int)|
            #[trigger] lost.contains(g1) && #[trigger] lost.contains(g2) && g1 != g2 ==> disjoint(
                g1,
                g2,
            )
    }

    proof fn lemma_node(&self, i: int)
        requires
            self.inv(),
            0 <= i < self.regions@.len(),
        ensures
            self.regions@[i].range() == self.free_regions()[i],
            self.regions@[i].start + self.regions@[i].size <= usize::MAX,
    {
        assert(block_ok(self.free_regions()[i], self.heap_start(), self.heap_end()));
    }

    /// An allocator with no heap yet.
    pub fn new() -> (r: Self)
        ensures
            r.wf(),
            !r.initialized(),
            r.free_regions().len() == 0,
            r.live().is_empty(),
            r.lost().is_empty(),
    {
        let r = LinkedListAllocator {
            regions: Vec::new(),
            heap_start: 0,
            heap_end: 0,
            initialized: false,
            live: Ghost(Set::empty()),
            lost: Ghost(Set::empty()),
        };
        assert(r.free_regions() =~= Seq::empty());
        r
    }

    pub fn is_initialized(&self) -> (r: bool)
        ensures
            r == self.initialized(),
    {
        self.initialized
    }

    /// Puts the region `[addr, addr + size)` at the head of the free list.
    fn add_free_region(&mut self, addr: usize, size: usize)
        requires
            old(self).inv(),
            old(self).initialized(),
            block_ok((addr as int, addr + size), old(self).heap_start(), old(self).heap_end()),
            forall|i: int|
                0 <= i < old(self).free_regions().len() ==> disjoint(
                    (addr as int, addr + size),
                    #[trigger] old(self).free_regions()[i],
                ),
            forall|b: (int, int)|
                #[trigger] old(self).live().contains(b) ==> disjoint((addr as int, addr + size), b),
            forall|g: (int, int)|
                #[trigger] old(self).lost().contains(g) ==> disjoint((addr as int, addr + size), g),
        ensures
            final(self).inv(),
            final(self).initialized(),
            final(self).free_regions() == seq![(addr as int, addr + size)] + old(self).free_regions(),
            final(self).live() == old(self).live(),
            final(self).lost() == old(self).lost(),
            final(self).heap_start() == old(self).heap_start(),
            final(self).heap_end() == old(self).heap_end(),
    {
        let ghost old_free = self.free_regions();
        let node = ListNode::new(addr, size);
        self.regions.insert(0, node);
        assert(self.free_regions() =~= seq![(addr as int, addr + size)] + old_free);
        let ghost free = self.free_regions();
        assert(self.live() == old(self).live());
        assert(self.lost() == old(self).lost());
        assert forall|g: (int, int), i: int|
            #[trigger] self.lost().contains(g) && 0 <= i < free.len() implies disjoint(
            g,
            #[trigger] free[i],
        ) by {
            assert(old(self).lost().contains(g));
            if i > 0 {
                assert(free[i] == old_free[i - 1]);
            } else {
                assert(free[0] == (addr as int, addr + size));
            }
        }
        assert forall|g: (int, int)| #[trigger] self.lost().contains(g) implies self.heap_start()
            <= g.0 < g.1 <= self.heap_end() by {
            assert(old(self).lost().contains(g));
        }
        assert forall|g: (int, int), b: (int, int)|
            #[trigger] self.lost().contains(g) && #[trigger] self.live().contains(b) implies disjoint(
            g,
            b,
        ) by {
            assert(old(self).lost().contains(g) && old(self).live().contains(b));
        }
        assert forall|g1: (int, int), g2: (int, int)|
            #[trigger] self.lost().contains(g1) && #[trigger] self.lost().contains(g2) && g1
                != g2 implies disjoint(g1, g2) by {
            assert(old(self).lost().contains(g1) && old(self).lost().contains(g2));
        }
        assert forall|b: (int, int)| #[trigger] self.live().contains(b) implies block_ok(
            b,
            self.heap_start(),
            self.heap_end(),
        ) by {
            assert(old(self).live().contains(b));
        }
        assert forall|i: int, j: int|
            0 <= i < free.len() && 0 <= j < free.len() && i != j implies disjoint(
            #[trigger] free[i],
            #[trigger] free[j],
        ) by {
            if i > 0 && j > 0 {
                assert(free[i] == old_free[i - 1] && free[j] == old_free[j - 1]);
            } else if i > 0 {
                assert(free[i] == old_free[i - 1]);
            } else {
                assert(free[j] == old_free[j - 1]);
            }
        }
        assert forall|b: (int, int), i: int|
            #[trigger] self.live().contains(b) && 0 <= i < free.len() implies disjoint(
            b,
            #[trigger] free[i],
        ) by {
            if i > 0 {
                assert(free[i] == old_free[i - 1]);
            } else {
                assert(free[0] == (addr as int, addr + size));
                assert(old(self).live().contains(b));
            }
        }
        assert forall|i: int| 0 <= i < free.len() implies block_ok(
            #[trigger] free[i],
            self.heap_start(),
            self.heap_end(),
        ) by {
            if i > 0 {
                assert(free[i] == old_free[i - 1]);
            }
        }
    }

    /// Hands the range `[heap_start, heap_start + heap_size)` to the allocator
    /// as one free region. It may be called once.
    pub fn init(&mut self, heap_start: usize, heap_size: usize)
        requires
            old(self).wf(),
            !old(self).initialized(),
            heap_start % NODE_ALIGN == 0,
            heap_size >= NODE_SIZE,
            heap_start + heap_size <= usize::MAX,
        ensures
            final(self).wf(),
            final(self).initialized(),
            final(self).heap_start() == heap_start,
            final(self).heap_end() == heap_start + heap_size,
            final(self).free_regions() == seq![(heap_start as int, heap_start + heap_size)],
            final(self).live().is_empty(),
            final(self).lost().is_empty(),
    {
        self.heap_start = heap_start;
        self.heap_end = heap_start + heap_size;
        self.initialized = true;
        self.add_free_region(heap_start, heap_size);
        assert(self.free_regions() =~= seq![(heap_start as int, heap_start + heap_size)]);
        assert forall|x: int| self.heap_start() <= x < self.heap_end() implies #[trigger] in_any(
            self.free_regions(),
            self.live(),
            self.lost(),
            x,
        ) by {
            lemma_in_free(self.free_regions(), self.live(), self.lost(), x, 0);
        }
    }

    /// The address at which a block of `size` bytes aligned to `align` would
    /// start in `region`, or `Err` when the region cannot serve it.
    fn alloc_from_region(region: &ListNode, size: usize, align: usize) -> (r: Result<usize, ()>)
        requires
            is_pow2(align as int),
            region.range().1 <= usize::MAX,
        ensures
            r is Ok <==> region_fits(region.range(), size as int, align as int),
            r matches Ok(p) ==> p == align_up_spec(region.range().0, align as int),
    {
        proof {
            lemma_align_up_basics(region.range().0, align as int);
        }
        if !align_up_fits(region.start_addr(), align) {
            return Err(());
        }
        let alloc_start = align_up(region.start_addr(), align);
        let alloc_end = match alloc_start.checked_add(size) {
            Some(e) => e,
            None => return Err(()),
        };
        if alloc_end > region.end_addr() {
            return Err(());
        }
        let excess_size = region.end_addr() - alloc_end;
        if excess_size > 0 && excess_size < NODE_SIZE {
            return Err(());
        }
        Ok(alloc_start)
    }

    /// The size and alignment a request is served with, so that the block can
    /// hold a free region once it comes back; `None` when the padded size
    /// passes the largest size a layout may have.
    fn size_align(size: usize, align: usize) -> (r: Option<(usize, usize)>)
        requires
            is_pow2(align as int),
        ensures
            r is Some <==> layout_fits(size as int, align as int),
            r matches Some((s, a)) ==> s == adjusted_size(size as int, align as int) && a
                == adjusted_align(align as int),
    {
        let align = if align > NODE_ALIGN {
            align
        } else {
            NODE_ALIGN
        };
        proof {
            lemma_node_align_pow2();
        }
        let limit = isize::MAX as usize;
        let rem = size % align;
        if rem != 0 && (align - rem > limit || size > limit - (align - rem)) {
            return None;
        }
        if rem == 0 && size > limit {
            return None;
        }
        let padded = align_up(size, align);
        let size = if padded > NODE_SIZE {
            padded
        } else {
            NODE_SIZE
        };
        Some((size, align))
    }

    /// Takes from the free list the first region that can serve a block of
    /// `size` bytes aligned to `align`, with the address the block starts at.
    fn find_region(&mut self, size: usize, align: usize) -> (r: Option<(ListNode, usize)>)
        requires
            old(self).inv(),
            is_pow2(align as int),
        ensures
            final(self).inv(),
            final(self).initialized() == old(self).initialized(),
            final(self).live() == old(self).live(),
            final(self).lost() == old(self).lost(),
            final(self).heap_start() == old(self).heap_start(),
            final(self).heap_end() == old(self).heap_end(),
            r is None <==> forall|i: int|
                0 <= i < old(self).free_regions().len() ==> !region_fits(
                    #[trigger] old(self).free_regions()[i],
                    size as int,
                    align as int,
                ),
            r is None ==> final(self).free_regions() == old(self).free_regions(),
            r matches Some((node, p)) ==> exists|i: int|
                #[trigger] is_first_fit(old(self).free_regions(), i, size as int, align as int)
                    && node.range() == old(self).free_regions()[i] && p == align_up_spec(
                    node.range().0,
                    align as int,
                ) && final(self).free_regions() == old(self).free_regions().remove(i),
    {
        let mut i: usize = 0;
        while i < self.regions.len()
            invariant
                *self == *old(self),
                self.inv(),
                is_pow2(align as int),
                i <= self.regions@.len(),
                self.regions@.len() == self.free_regions().len(),
                forall|j: int| 0 <= j < i ==> !region_fits(#[trigger] self.free_regions()[j], size as int, align as int),
            decreases self.regions@.len() - i,
        {
            proof {
                self.lemma_node(i as int);
            }
            match Self::alloc_from_region(&self.regions[i], size, align) {
                Ok(alloc_start) => {
                    let ghost old_free = self.free_regions();
                    assert(old_free == old(self).free_regions());
                    let ghost k = i as int;
                    let node = self.regions.remove(i);
                    proof {
                        assert(self.free_regions() =~= old_free.remove(k));
                        let free = self.free_regions();
                        assert(self.live() == old(self).live());
                        assert forall|b: (int, int)| #[trigger] self.live().contains(b) implies block_ok(
                            b,
                            self.heap_start(),
                            self.heap_end(),
                        ) by {
                            assert(old(self).live().contains(b));
                        }
                        assert forall|b1: (int, int), b2: (int, int)|
                            #[trigger] self.live().contains(b1) && #[trigger] self.live().contains(b2)
                                && b1 != b2 implies disjoint(b1, b2) by {
                            assert(old(self).live().contains(b1) && old(self).live().contains(b2));
                        }
                        assert(self.lost() == old(self).lost());
                        assert forall|g: (int, int)| #[trigger] self.lost().contains(g) implies self.heap_start()
                            <= g.0 < g.1 <= self.heap_end() by {
                            assert(old(self).lost().contains(g));
                        }
                        assert forall|g: (int, int), b: (int, int)|
                            #[trigger] self.lost().contains(g) && #[trigger] self.live().contains(b) implies disjoint(
                            g,
                            b,
                        ) by {
                            assert(old(self).lost().contains(g) && old(self).live().contains(b));
                        }
                        assert forall|g1: (int, int), g2: (int, int)|
                            #[trigger] self.lost().contains(g1) && #[trigger] self.lost().contains(g2) && g1
                                != g2 implies disjoint(g1, g2) by {
                            assert(old(self).lost().contains(g1) && old(self).lost().contains(g2));
                        }
                        assert forall|g: (int, int), m: int|
                            #[trigger] self.lost().contains(g) && 0 <= m < free.len() implies disjoint(
                            g,
                            #[trigger] free[m],
                        ) by {
                            let n = if m < k {
                                m
                            } else {
                                m + 1
                            };
                            assert(free[m] == old_free[n]);
                            assert(old(self).lost().contains(g));
                            assert(disjoint(g, old(self).free_regions()[n]));
                        }
                        assert forall|m: int| 0 <= m < free.len() implies #[trigger] free[m]
                            == old_free[if m < k {
                            m
                        } else {
                            m + 1
                        }] by {}
                        assert forall|m: int| 0 <= m < free.len() implies block_ok(
                            #[trigger] free[m],
                            self.heap_start(),
                            self.heap_end(),
                        ) by {
                            assert(free[m] == old_free[if m < k { m } else { m + 1 }]);
                        }
                        assert forall|m: int, n: int|
                            0 <= m < free.len() && 0 <= n < free.len() && m != n implies disjoint(
                            #[trigger] free[m],
                            #[trigger] free[n],
                        ) by {
                            assert(free[m] == old_free[if m < k { m } else { m + 1 }]);
                            assert(free[n] == old_free[if n < k { n } else { n + 1 }]);
                        }
                        assert forall|b: (int, int), m: int|
                            #[trigger] self.live().contains(b) && 0 <= m < free.len() implies disjoint(
                            b,
                            #[trigger] free[m],
                        ) by {
                            let n = if m < k {
                                m
                            } else {
                                m + 1
                            };
                            assert(free[m] == old_free[n]);
                            assert(old(self).live().contains(b));
                            assert(disjoint(b, old(self).free_regions()[n]));
                        }
                        assert(is_first_fit(old_free, k, size as int, align as int));
                    }
                    return Some((node, alloc_start));
                },
                Err(()) => {},
            }
            i += 1;
        }
        None
    }

    /// Allocates a block for `size` bytes aligned to `align` from the first
    /// free region that can serve it, or returns `None` when none can. What
    /// is left after the block, if anything, goes back to the head of the list.
    pub fn allocate(&mut self, size: usize, align: usize) -> (r: Option<usize>)
        requires
            old(self).wf(),
            is_pow2(align as int),
        ensures
            final(self).wf(),
            final(self).initialized() == old(self).initialized(),
            final(self).heap_start() == old(self).heap_start(),
            final(self).heap_end() == old(self).heap_end(),
            r is Some <==> can_allocate(old(self).free_regions(), size as int, align as int),
            r is None ==> final(self).free_regions() == old(self).free_regions() && final(self).live()
                == old(self).live() && final(self).lost() == old(self).lost(),
            r matches Some(p) ==> ({
                let s = adjusted_size(size as int, align as int);
                let a = adjusted_align(align as int);
                &&& p as int % align as int == 0
                &&& p as int % a == 0
                &&& final(self).live() == old(self).live().insert((p as int, p + s))
                &&& exists|i: int|
                    #[trigger] is_first_fit(old(self).free_regions(), i, s, a) && ({
                        let reg = old(self).free_regions()[i];
                        &&& p == align_up_spec(reg.0, a)
                        &&& final(self).free_regions() == after_alloc(
                            old(self).free_regions(),
                            i,
                            p + s,
                        )
                        &&& final(self).lost() == if reg.0 < p {
                            old(self).lost().insert((reg.0, p as int))
                        } else {
                            old(self).lost()
                        }
                    })
            }),
    {
        let (s, a) = match Self::size_align(size, align) {
            Some(p) => p,
            None => return None,
        };
        proof {
            lemma_adjusted(size as int, align as int);
        }
        let ghost old_free = self.free_regions();
        let ghost old_live = self.live();
        let ghost old_lost = self.lost();
        match self.find_region(s, a) {
            Some((region, alloc_start)) => {
                let ghost i = choose|i: int|
                    #[trigger] is_first_fit(old_free, i, s as int, a as int) && region.range()
                        == old_free[i] && alloc_start == align_up_spec(region.range().0, a as int)
                        && self.free_regions() == old_free.remove(i);
                let ghost reg = old_free[i];
                let ghost mid_free = self.free_regions();
                proof {
                    assert(block_ok(reg, self.heap_start(), self.heap_end()));
                    lemma_align_up_basics(reg.0, a as int);
                    lemma_mod_trans(alloc_start as int, a as int, NODE_ALIGN as int);
                    lemma_mod_trans(alloc_start as int, a as int, align as int);
                    assert forall|m: int| 0 <= m < mid_free.len() implies disjoint(
                        reg,
                        #[trigger] mid_free[m],
                    ) by {
                        let n = if m < i {
                            m
                        } else {
                            m + 1
                        };
                        assert(mid_free[m] == old_free[n]);
                        assert(disjoint(old_free[i], old_free[n]));
                    }
                    assert forall|b: (int, int)| #[trigger] old_live.contains(b) implies disjoint(
                        reg,
                        b,
                    ) by {
                        assert(disjoint(b, old_free[i]));
                    }
                    assert forall|g: (int, int)| #[trigger] old_lost.contains(g) implies disjoint(
                        reg,
                        g,
                    ) by {
                        assert(disjoint(g, old_free[i]));
                    }
                }
                let alloc_end = alloc_start + s;
                let excess_size = region.end_addr() - alloc_end;
                if excess_size > 0 {
                    self.add_free_region(alloc_end, excess_size);
                }
                let ghost blk = (alloc_start as int, alloc_end as int);
                self.live = Ghost(self.live@.insert(blk));
                proof {
                    let free = self.free_regions();
                    assert(free == after_alloc(old_free, i, alloc_end as int));
                    assert forall|m: int| 0 <= m < free.len() implies disjoint(
                        blk,
                        #[trigger] free[m],
                    ) by {
                        if excess_size > 0 && m == 0 {
                        } else {
                            let n = if excess_size > 0 {
                                m - 1
                            } else {
                                m
                            };
                            assert(free[m] == mid_free[n]);
                            assert(disjoint(reg, mid_free[n]));
                        }
                    }
                    assert forall|b: (int, int), m: int|
                        #[trigger] self.live().contains(b) && 0 <= m < free.len() implies disjoint(
                        b,
                        #[trigger] free[m],
                    ) by {
                        if b != blk {
                            assert(old_live.contains(b));
                            if excess_size > 0 && m == 0 {
                                assert(disjoint(reg, b));
                            } else {
                                let n = if excess_size > 0 {
                                    m - 1
                                } else {
                                    m
                                };
                                assert(free[m] == mid_free[n]);
                            }
                        }
                    }
                    assert forall|b1: (int, int), b2: (int, int)|
                        #[trigger] self.live().contains(b1) && #[trigger] self.live().contains(b2)
                            && b1 != b2 implies disjoint(b1, b2) by {
                        if b1 == blk {
                            assert(disjoint(reg, b2));
                        } else if b2 == blk {
                            assert(disjoint(reg, b1));
                        } else {
                            assert(old_live.contains(b1) && old_live.contains(b2));
                        }
                    }
                    assert forall|b: (int, int)| #[trigger] self.live().contains(b) implies block_ok(
                        b,
                        self.heap_start(),
                        self.heap_end(),
                    ) by {
                        if b != blk {
                            assert(old_live.contains(b));
                        }
                    }
                    assert(is_first_fit(old_free, i, s as int, a as int));
                }
                let ghost gap = (reg.0, alloc_start as int);
                self.lost = Ghost(
                    if reg.0 < alloc_start {
                        self.lost@.insert(gap)
                    } else {
                        self.lost@
                    },
                );
                proof {
                    let free = self.free_regions();
                    let live = self.live();
                    let lost = self.lost();
                    assert forall|g: (int, int)| #[trigger] lost.contains(g) implies self.heap_start()
                        <= g.0 < g.1 <= self.heap_end() by {
                        if g != gap {
                            assert(old_lost.contains(g));
                        }
                    }
                    assert forall|g: (int, int), b: (int, int)|
                        #[trigger] lost.contains(g) && #[trigger] live.contains(b) implies disjoint(
                        g,
                        b,
                    ) by {
                        if g == gap {
                            if b != blk {
                                assert(disjoint(reg, b));
                            }
                        } else {
                            assert(old_lost.contains(g));
                            if b == blk {
                                assert(disjoint(reg, g));
                            } else {
                                assert(old_live.contains(b));
                            }
                        }
                    }
                    assert forall|g1: (int, int), g2: (int, int)|
                        #[trigger] lost.contains(g1) && #[trigger] lost.contains(g2) && g1
                            != g2 implies disjoint(g1, g2) by {
                        if g1 == gap {
                            assert(disjoint(reg, g2));
                        } else if g2 == gap {
                            assert(disjoint(reg, g1));
                        } else {
                            assert(old_lost.contains(g1) && old_lost.contains(g2));
                        }
                    }
                    assert forall|g: (int, int), m: int|
                        #[trigger] lost.contains(g) && 0 <= m < free.len() implies disjoint(
                        g,
                        #[trigger] free[m],
                    ) by {
                        if excess_size > 0 && m == 0 {
                            if g != gap {
                                assert(old_lost.contains(g));
                                assert(disjoint(reg, g));
                            }
                        } else {
                            let n = if excess_size > 0 {
                                m - 1
                            } else {
                                m
                            };
                            assert(free[m] == mid_free[n]);
                            assert(disjoint(reg, mid_free[n]));
                            if g != gap {
                                assert(old_lost.contains(g));
                            }
                        }
                    }
                    assert forall|x: int| self.heap_start() <= x < self.heap_end() implies #[trigger] in_any(
                        free,
                        live,
                        lost,
                        x,
                    ) by {
                        assert(in_any(old_free, old_live, old_lost, x));
                        if exists|k: int| 0 <= k < old_free.len() && in_range(x, #[trigger] old_free[k]) {
                            let k = choose|k: int| 0 <= k < old_free.len() && in_range(x, #[trigger] old_free[k]);
                            if k == i {
                                if x < alloc_start {
                                    lemma_in_lost(free, live, lost, x, gap);
                                } else if x < alloc_end {
                                    lemma_in_live(free, live, lost, x, blk);
                                } else {
                                    assert(free[0] == (alloc_end as int, reg.1));
                                    lemma_in_free(free, live, lost, x, 0);
                                }
                            } else {
                                let n = if k < i {
                                    k
                                } else {
                                    k - 1
                                };
                                assert(mid_free[n] == old_free[k]);
                                let m = if excess_size > 0 {
                                    n + 1
                                } else {
                                    n
                                };
                                assert(free[m] == mid_free[n]);
                                lemma_in_free(free, live, lost, x, m);
                            }
                        } else if exists|b: (int, int)| #[trigger] old_live.contains(b) && in_range(x, b) {
                            let b = choose|b: (int, int)| #[trigger] old_live.contains(b) && in_range(x, b);
                            lemma_in_live(free, live, lost, x, b);
                        } else {
                            let g = choose|g: (int, int)| #[trigger] old_lost.contains(g) && in_range(x, g);
                            lemma_in_lost(free, live, lost, x, g);
                        }
                    }
                }
                Some(alloc_start)
            },
            None => {
                proof {
                    assert forall|i: int| 0 <= i < old_free.len() implies !region_fits(
                        #[trigger] old_free[i],
                        s as int,
                        a as int,
                    ) by {}
                }
                None
            },
        }
    }

    /// Gives back the block at `ptr` that was allocated with this layout: it
    /// becomes a free region at the head of the list, merged with nothing.
    pub fn release(&mut self, ptr: usize, size: usize, align: usize)
        requires
            old(self).wf(),
            is_pow2(align as int),
            layout_fits(size as int, align as int),
            old(self).live().contains((ptr as int, ptr + adjusted_size(size as int, align as int))),
        ensures
            final(self).wf(),
            final(self).initialized() == old(self).initialized(),
            final(self).heap_start() == old(self).heap_start(),
            final(self).heap_end() == old(self).heap_end(),
            final(self).free_regions() == released(
                old(self).free_regions(),
                ptr as int,
                size as int,
                align as int,
            ),
            final(self).live() == old(self).live().remove(
                (ptr as int, ptr + adjusted_size(size as int, align as int)),
            ),
            final(self).lost() == old(self).lost(),
    {
        let (s, _a) = match Self::size_align(size, align) {
            Some(p) => p,
            None => return ,
        };
        let ghost blk = (ptr as int, ptr + s);
        let ghost old_live = self.live();
        proof {
            assert(old_live.contains(blk));
        }
        self.live = Ghost(self.live@.remove(blk));
        proof {
            assert forall|b: (int, int)| #[trigger] self.live().contains(b) implies disjoint(
                (ptr as int, ptr + s),
                b,
            ) by {
                assert(old_live.contains(b));
            }
            assert forall|b: (int, int)| #[trigger] self.live().contains(b) implies block_ok(
                b,
                self.heap_start(),
                self.heap_end(),
            ) by {
                assert(old_live.contains(b));
            }
            assert forall|i: int|
                0 <= i < self.free_regions().len() implies disjoint(
                (ptr as int, ptr + s),
                #[trigger] self.free_regions()[i],
            ) by {
                assert(old_live.contains(blk));
            }
            assert forall|g: (int, int), b: (int, int)|
                #[trigger] self.lost().contains(g) && #[trigger] self.live().contains(b) implies disjoint(
                g,
                b,
            ) by {
                assert(old_live.contains(b));
                assert(old(self).lost().contains(g));
            }
            assert forall|g: (int, int)| #[trigger] self.lost().contains(g) implies disjoint(
                (ptr as int, ptr + s),
                g,
            ) by {
                assert(old_live.contains(blk));
                assert(old(self).lost().contains(g));
            }
            assert forall|g: (int, int)| #[trigger] self.lost().contains(g) implies self.heap_start()
                <= g.0 < g.1 <= self.heap_end() by {
                assert(old(self).lost().contains(g));
            }
            assert forall|g: (int, int), i: int|
                #[trigger] self.lost().contains(g) && 0 <= i < self.free_regions().len() implies disjoint(
                g,
                #[trigger] self.free_regions()[i],
            ) by {
                assert(old(self).lost().contains(g));
                assert(old(self).free_regions()[i] == self.free_regions()[i]);
            }
            assert forall|g1: (int, int), g2: (int, int)|
                #[trigger] self.lost().contains(g1) && #[trigger] self.lost().contains(g2) && g1
                    != g2 implies disjoint(g1, g2) by {
                assert(old(self).lost().contains(g1) && old(self).lost().contains(g2));
            }
        }
        let ghost old_free = self.free_regions();
        self.add_free_region(ptr, s);
        proof {
            let free = self.free_regions();
            let live = self.live();
            let lost = self.lost();
            assert forall|x: int| self.heap_start() <= x < self.heap_end() implies #[trigger] in_any(
                free,
                live,
                lost,
                x,
            ) by {
                assert(in_any(old(self).free_regions(), old(self).live(), old(self).lost(), x));
                assert(old_free == old(self).free_regions());
                assert(lost == old(self).lost());
                if exists|k: int| 0 <= k < old_free.len() && in_range(x, #[trigger] old_free[k]) {
                    let k = choose|k: int| 0 <= k < old_free.len() && in_range(x, #[trigger] old_free[k]);
                    assert(free[k + 1] == old_free[k]);
                    lemma_in_free(free, live, lost, x, k + 1);
                } else if exists|b: (int, int)| #[trigger] old_live.contains(b) && in_range(x, b) {
                    let b = choose|b: (int, int)| #[trigger] old_live.contains(b) && in_range(x, b);
                    if b == blk {
                        assert(free[0] == blk);
                        lemma_in_free(free, live, lost, x, 0);
                    } else {
                        lemma_in_live(free, live, lost, x, b);
                    }
                } else {
                    let g = choose|g: (int, int)| #[trigger] lost.contains(g) && in_range(x, g);
                    lemma_in_lost(free, live, lost, x, g);
                }
            }
        }
    }

} // impl

} // verus!

verus! {

/// At every point, the free regions, the outstanding blocks and the gaps
/// that alignment left in front of blocks partition the heap: each lies in the
/// heap, no two of them share an address, and every address of the heap is in
/// one of them.
pub proof fn lemma_free_list_partition(a: &LinkedListAllocator)
    requires
        a.wf(),
    ensures
        forall|i: int|
            0 <= i < a.free_regions().len() ==> a.heap_start() <= (#[trigger] a.free_regions()[i]).0
                < a.free_regions()[i].1 <= a.heap_end(),
        forall|b: (int, int)|
            #[trigger] a.live().contains(b) ==> a.heap_start() <= b.0 < b.1 <= a.heap_end(),
        forall|g: (int, int)|
            #[trigger] a.lost().contains(g) ==> a.heap_start() <= g.0 < g.1 <= a.heap_end(),
        forall|i: int, j: int|
            0 <= i < a.free_regions().len() && 0 <= j < a.free_regions().len() && i != j
                ==> disjoint(#[trigger] a.free_regions()[i], #[trigger] a.free_regions()[j]),
        forall|b: (int, int), i: int|
            #[trigger] a.live().contains(b) && 0 <= i < a.free_regions().len() ==> disjoint(
                b,
                #[trigger] a.free_regions()[i],
            ),
        forall|b1: (int, int), b2: (int, int)|
            #[trigger] a.live().contains(b1) && #[trigger] a.live().contains(b2) && b1 != b2
                ==> disjoint(b1, b2),
        forall|g: (int, int), i: int|
            #[trigger] a.lost().contains(g) && 0 <= i < a.free_regions().len() ==> disjoint(
                g,
                #[trigger] a.free_regions()[i],
            ),
        forall|g: (int, int), b: (int, int)|
            #[trigger] a.lost().contains(g) && #[trigger] a.live().contains(b) ==> disjoint(g, b),
        forall|g1: (int, int), g2: (int, int)|
            #[trigger] a.lost().contains(g1) && #[trigger] a.lost().contains(g2) && g1 != g2
                ==> disjoint(g1, g2),
        forall|x: int|
            a.heap_start() <= x < a.heap_end() ==> #[trigger] in_any(
                a.free_regions(),
                a.live(),
                a.lost(),
                x,
            ),
{
    assert forall|i: int| 0 <= i < a.free_regions().len() implies a.heap_start() <= (
    #[trigger] a.free_regions()[i]).0 < a.free_regions()[i].1 <= a.heap_end() by {
        assert(block_ok(a.free_regions()[i], a.heap_start(), a.heap_end()));
    }
}

/// Rounding up is monotone in the address and in the alignment, for
/// alignments that divide one another.
proof fn lemma_align_up_mono(x: int, y: int, a1: int, a2: int)
    requires
        0 <= x <= y,
        a1 > 0,
        a2 > 0,
        a2 % a1 == 0,
    ensures
        align_up_spec(x, a1) <= align_up_spec(y, a2),
{
    lemma_align_up_basics(y, a2);
    lemma_mod_trans(align_up_spec(y, a2), a2, a1);
    lemma_align_up_least(x, a1, align_up_spec(y, a2));
}

/// A block that was allocated and then released serves a new request of the
/// same or a smaller size, with an alignment no larger than the first, as long
/// as what it would leave over is nothing or can be a free region itself.
pub proof fn lemma_round_trip(
    free: Seq<(int, int)>,
    ptr: int,
    size: int,
    align: int,
    size2: int,
    align2: int,
)
    requires
        size >= 0,
        is_pow2(align),
        layout_fits(size, align),
        ptr % adjusted_align(align) == 0,
        0 <= size2 <= size,
        is_pow2(align2),
        align2 <= align,
        adjusted_size(size2, align2) == adjusted_size(size, align) || adjusted_size(size, align)
            - adjusted_size(size2, align2) >= NODE_SIZE,
    ensures
        can_allocate(released(free, ptr, size, align), size2, align2),
{
    let a = adjusted_align(align);
    let a2 = adjusted_align(align2);
    lemma_adjusted(size, align);
    lemma_adjusted(size2, align2);
    lemma_pow2_divides(a2, a);
    lemma_mod_trans(ptr, a, a2);
    lemma_align_up_mono(size2, size, a2, a);
    let list = released(free, ptr, size, align);
    assert(list[0] == (ptr, ptr + adjusted_size(size, align)));
    assert(align_up_spec(ptr, a2) == ptr);
    assert(region_fits(list[0], adjusted_size(size2, align2), a2));
}

/// Two neighbouring blocks released one after the other stay two free
/// regions: a request for their combined size is served by neither, and fails
/// when no region that was free before could serve it.
pub proof fn lemma_no_coalescing(
    free: Seq<(int, int)>,
    p: int,
    size1: int,
    align1: int,
    size2: int,
    align2: int,
    size: int,
    align: int,
)
    requires
        p >= 0,
        size1 >= 0,
        is_pow2(align1),
        size2 >= 0,
        is_pow2(align2),
        size >= 0,
        is_pow2(align),
        adjusted_size(size, align) == adjusted_size(size1, align1) + adjusted_size(size2, align2),
        forall|i: int|
            0 <= i < free.len() ==> !region_fits(
                #[trigger] free[i],
                adjusted_size(size, align),
                adjusted_align(align),
            ),
    ensures
        !can_allocate(
            released(
                released(free, p, size1, align1),
                p + adjusted_size(size1, align1),
                size2,
                align2,
            ),
            size,
            align,
        ),
{
    let n1 = adjusted_size(size1, align1);
    let n2 = adjusted_size(size2, align2);
    let n = adjusted_size(size, align);
    let a = adjusted_align(align);
    lemma_adjusted(size1, align1);
    lemma_adjusted(size2, align2);
    lemma_adjusted(size, align);
    let list = released(released(free, p, size1, align1), p + n1, size2, align2);
    lemma_align_up_basics(p, a);
    lemma_align_up_basics(p + n1, a);
    assert forall|i: int| 0 <= i < list.len() implies !region_fits(#[trigger] list[i], n, a) by {
        if i >= 2 {
            assert(list[i] == free[i - 2]);
        } else if i == 1 {
            assert(list[i] == (p, p + n1));
        } else {
            assert(list[i] == (p + n1, p + n1 + n2));
        }
    }
}

} // verus!
