//! The bump allocator: a pointer that only moves forward, reset to the start
//! of the heap when the last outstanding allocation is released.

use crate::align::{align_up, align_up_fits, align_up_spec, is_pow2, lemma_align_up_basics};
use vstd::prelude::*;

verus! {

/// The abstract state of a bump allocator.
pub struct BumpState {
    pub heap_start: int,
    pub heap_end: int,
    pub next: int,
    pub live: int,
}

/// One allocation of `size` bytes aligned to `align`: the new state and the
/// address handed out, or the state unchanged and no address when the block
/// would pass the end of the heap.
pub open spec fn bump_alloc_spec(s: BumpState, size: int, align: int) -> (BumpState, Option<int>) {
    let start = align_up_spec(s.next, align);
    if start + size <= s.heap_end {
        (BumpState { next: start + size, live: s.live + 1, ..s }, Some(start))
    } else {
        (s, None)
    }
}

/// One release: the count goes down, and the whole heap is free again when it
/// reaches zero.
pub open spec fn bump_release_spec(s: BumpState) -> BumpState {
    BumpState {
        live: s.live - 1,
        next: if s.live - 1 == 0 {
            s.heap_start
        } else {
            s.next
        },
        ..s
    }
}

/// An optional address as a mathematical integer.
pub open spec fn as_addr(r: Option<usize>) -> Option<int> {
    match r {
        Some(p) => Some(p as int),
        None => None,
    }
}

/// Each request `(size, align)` has a size of at least zero and a power-of-two alignment.
pub open spec fn valid_requests(reqs: Seq<(int, int)>) -> bool {
    forall|i: int| 0 <= i < reqs.len() ==> #[trigger] reqs[i].0 >= 0 && is_pow2(reqs[i].1)
}

/// The state after a sequence of allocation requests `(size, align)`, each
/// applied in turn (failed ones leave the state as it was).
pub open spec fn bump_alloc_all(s: BumpState, reqs: Seq<(int, int)>) -> BumpState
    decreases reqs.len(),
{
    if reqs.len() == 0 {
        s
    } else {
        bump_alloc_all(bump_alloc_spec(s, reqs[0].0, reqs[0].1).0, reqs.drop_first())
    }
}

/// The state after `n` releases.
pub open spec fn bump_release_n(s: BumpState, n: nat) -> BumpState
    decreases n,
{
    if n == 0 {
        s
    } else {
        bump_release_n(bump_release_spec(s), (n - 1) as nat)
    }
}

/// An allocator that hands out the heap from a pointer that only moves
/// forward until every allocation has been released.
pub struct BumpAllocator {
    heap_start: usize,
    heap_end: usize,
    next: usize,
    allocation: usize,
    initialized: bool,
    /// The blocks `(start, end)` handed out since the heap was last reset.
    epoch: Ghost<Seq<(int, int)>>,
}

impl BumpAllocator {
    pub closed spec fn state(&self) -> BumpState {
        BumpState {
            heap_start: self.heap_start as int,
            heap_end: self.heap_end as int,
            next: self.next as int,
            live: self.allocation as int,
        }
    }

    pub closed spec fn initialized(&self) -> bool {
        self.initialized
    }

    /// The blocks `(start, end)` handed out since the heap was last reset.
    pub closed spec fn epoch(&self) -> Seq<(int, int)> {
        self.epoch@
    }

    /// The pointer stays in the heap and is at its start whenever nothing is
    /// outstanding; the blocks of the current epoch come one after another
    /// below the pointer.
    pub closed spec fn wf(&self) -> bool {
        &&& self.heap_start <= self.next <= self.heap_end
        &&& self.allocation == 0 ==> self.next == self.heap_start && self.epoch@.len() == 0
        &&& !self.initialized ==> self.heap_start == 0 && self.heap_end == 0
        &&& forall|i: int|
            0 <= i < self.epoch@.len() ==> self.heap_start <= #[trigger] self.epoch@[i].0
                <= self.epoch@[i].1 <= self.next
        &&& forall|i: int, j: int|
            0 <= i < j < self.epoch@.len() ==> #[trigger] self.epoch@[i].1
                <= #[trigger] self.epoch@[j].0
    }

    /// An allocator with an empty heap.
    pub fn new() -> (r: Self)
        ensures
            r.wf(),
            !r.initialized(),
            r.state() == (BumpState { heap_start: 0, heap_end: 0, next: 0, live: 0 }),
            r.epoch().len() == 0,
    {
        BumpAllocator {
            heap_start: 0,
            heap_end: 0,
            next: 0,
            allocation: 0,
            initialized: false,
            epoch: Ghost(Seq::empty()),
        }
    }

    pub fn is_initialized(&self) -> (r: bool)
        ensures
            r == self.initialized(),
    {
        self.initialized
    }

    pub fn live_count(&self) -> (r: usize)
        ensures
            r == self.state().live,
    {
        self.allocation
    }

    /// Hands the range `[heap_start, heap_start + heap_size)` to the allocator.
    /// It may be called once, before anything was allocated.
    pub fn init(&mut self, heap_start: usize, heap_size: usize)
        requires
            old(self).wf(),
            !old(self).initialized(),
            old(self).state().live == 0,
            heap_start + heap_size <= usize::MAX,
        ensures
            final(self).wf(),
            final(self).initialized(),
            final(self).state() == (BumpState {
                heap_start: heap_start as int,
                heap_end: heap_start + heap_size,
                next: heap_start as int,
                live: 0,
            }),
            final(self).epoch().len() == 0,
    {
        self.heap_start = heap_start;
        self.heap_end = heap_start + heap_size;
        self.next = heap_start;
        self.initialized = true;
    }

    /// Allocates `size` bytes aligned to `align` at the next free address,
    /// or returns `None` when the block would pass the end of the heap.
    pub fn allocate(&mut self, size: usize, align: usize) -> (r: Option<usize>)
        requires
            old(self).wf(),
            is_pow2(align as int),
            old(self).state().live < usize::MAX,
        ensures
            final(self).wf(),
            final(self).initialized() == old(self).initialized(),
            (final(self).state(), as_addr(r)) == bump_alloc_spec(
                old(self).state(),
                size as int,
                align as int,
            ),
            r matches Some(p) ==> p as int % align as int == 0 && final(self).epoch() == old(
                self,
            ).epoch().push((p as int, p + size)),
            r is None ==> final(self).epoch() == old(self).epoch(),
    {
        proof {
            lemma_align_up_basics(self.next as int, align as int);
        }
        if !align_up_fits(self.next, align) {
            return None;
        }
        let alloc_start = align_up(self.next, align);
        if alloc_start > usize::MAX - size {
            return None;
        }
        let alloc_end = alloc_start + size;
        if alloc_end > self.heap_end {
            None
        } else {
            let ghost old_epoch = self.epoch@;
            let ghost old_next = self.next as int;
            assert forall|i: int| 0 <= i < old_epoch.len() implies #[trigger] old_epoch[i].1
                <= old_next by {
                assert(self.heap_start <= old_epoch[i].0);
            }
            self.next = alloc_end;
            self.allocation = self.allocation + 1;
            self.epoch = Ghost(self.epoch@.push((alloc_start as int, alloc_end as int)));
            assert forall|i: int| 0 <= i < old_epoch.len() implies #[trigger] self.epoch@[i]
                == old_epoch[i] by {}
            Some(alloc_start)
        }
    }

    /// Releases one allocation. The block itself is not reused until every
    /// allocation has been released; then the whole heap is free again.
    pub fn release(&mut self, _ptr: usize, _size: usize, _align: usize)
        requires
            old(self).wf(),
            old(self).state().live > 0,
        ensures
            final(self).wf(),
            final(self).initialized() == old(self).initialized(),
            final(self).state() == bump_release_spec(old(self).state()),
            final(self).epoch() == if final(self).state().live == 0 {
                Seq::empty()
            } else {
                old(self).epoch()
            },
    {
        self.allocation = self.allocation - 1;
        if self.allocation == 0 {
            self.next = self.heap_start;
            self.epoch = Ghost(Seq::empty());
        }
    }
}

/// The blocks handed out since the last reset do not overlap one another and
/// lie within the heap.
pub proof fn lemma_bump_no_overlap(b: &BumpAllocator)
    requires
        b.wf(),
    ensures
        forall|i: int|
            0 <= i < b.epoch().len() ==> b.state().heap_start <= #[trigger] b.epoch()[i].0
                <= b.epoch()[i].1 <= b.state().heap_end,
        forall|i: int, j: int|
            0 <= i < b.epoch().len() && 0 <= j < b.epoch().len() && i != j ==> #[trigger] b.epoch()[i].1
                <= #[trigger] b.epoch()[j].0 || b.epoch()[j].1 <= b.epoch()[i].0,
{
    assert forall|i: int, j: int|
        0 <= i < b.epoch().len() && 0 <= j < b.epoch().len() && i != j implies #[trigger] b.epoch()[i].1
        <= #[trigger] b.epoch()[j].0 || b.epoch()[j].1 <= b.epoch()[i].0 by {
        if i < j {
            assert(b.epoch@[i].1 <= b.epoch@[j].0);
        } else {
            assert(b.epoch@[j].1 <= b.epoch@[i].0);
        }
    }
}

proof fn lemma_alloc_all_grows(s: BumpState, reqs: Seq<(int, int)>)
    requires
        0 <= s.heap_start <= s.next <= s.heap_end,
        valid_requests(reqs),
    ensures
        bump_alloc_all(s, reqs).heap_start == s.heap_start,
        bump_alloc_all(s, reqs).heap_end == s.heap_end,
        bump_alloc_all(s, reqs).heap_start <= bump_alloc_all(s, reqs).next <= s.heap_end,
        bump_alloc_all(s, reqs).live >= s.live,
        bump_alloc_all(s, reqs).live == s.live ==> bump_alloc_all(s, reqs) == s,
    decreases reqs.len(),
{
    if reqs.len() > 0 {
        assert(reqs[0].0 >= 0 && is_pow2(reqs[0].1));
        lemma_align_up_basics(s.next, reqs[0].1);
        let t = bump_alloc_spec(s, reqs[0].0, reqs[0].1).0;
        let rest = reqs.drop_first();
        assert forall|i: int| 0 <= i < rest.len() implies #[trigger] rest[i].0 >= 0 && is_pow2(
            rest[i].1,
        ) by {
            assert(rest[i] == reqs[i + 1]);
        }
        lemma_alloc_all_grows(t, rest);
    }
}

proof fn lemma_release_all(t: BumpState, n: nat)
    requires
        n > 0,
        t.live == n,
    ensures
        bump_release_n(t, n) == (BumpState { next: t.heap_start, live: 0, ..t }),
    decreases n,
{
    let t1 = bump_release_spec(t);
    if n > 1 {
        lemma_release_all(t1, (n - 1) as nat);
    } else {
        assert(bump_release_n(t1, 0) == t1);
    }
}

/// Starting from an empty heap, after any sequence of allocation requests and
/// as many releases as allocations succeeded, the allocator is back where it
/// started, and the next allocation is placed at the start of the heap rounded
/// up to its alignment.
pub proof fn lemma_bump_epoch_reset(s: BumpState, reqs: Seq<(int, int)>, size: int, align: int)
    requires
        s.live == 0,
        s.next == s.heap_start,
        0 <= s.heap_start <= s.heap_end,
        valid_requests(reqs),
        size >= 0,
        is_pow2(align),
    ensures
        ({
            let after = bump_alloc_all(s, reqs);
            let back = bump_release_n(after, (after.live - s.live) as nat);
            &&& back == s
            &&& bump_alloc_spec(back, size, align).1 == if align_up_spec(s.heap_start, align) + size
                <= s.heap_end {
                Some(align_up_spec(s.heap_start, align))
            } else {
                None
            }
        }),
{
    lemma_alloc_all_grows(s, reqs);
    let after = bump_alloc_all(s, reqs);
    if after.live > 0 {
        lemma_release_all(after, after.live as nat);
    }
}

} // verus!
