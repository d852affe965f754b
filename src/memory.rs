//! Physical frame allocators over the bootloader's memory map, held as plain
//! address ranges.

use vstd::arithmetic::div_mod::lemma_fundamental_div_mod;
use vstd::prelude::*;

verus! {

/// The size of a physical frame.
pub const FRAME_SIZE: u64 = 4096;

/// One entry of the memory map: the addresses `[start, end)` and whether the
/// bootloader marked them usable.
#[derive(Clone, Copy)]
pub struct MemoryRegion {
    pub start: u64,
    pub end: u64,
    pub usable: bool,
}

/// The frame start addresses stepped out of one region: `start`,
/// `start + FRAME_SIZE`, ... below `end`; none when it is not usable.
pub open spec fn region_frames(r: MemoryRegion) -> Seq<int> {
    if r.usable && r.start < r.end {
        Seq::new(
            ((r.end - r.start - 1) / FRAME_SIZE as int + 1) as nat,
            |k: int| r.start + k * FRAME_SIZE,
        )
    } else {
        Seq::empty()
    }
}

/// The frames of the usable regions of `map`, region after region.
pub open spec fn usable_frames(map: Seq<MemoryRegion>) -> Seq<int>
    decreases map.len(),
{
    if map.len() == 0 {
        Seq::empty()
    } else {
        region_frames(map[0]) + usable_frames(map.drop_first())
    }
}

proof fn lemma_frames_step(map: Seq<MemoryRegion>, i: int)
    requires
        0 <= i < map.len(),
    ensures
        usable_frames(map.subrange(i, map.len() as int)) == region_frames(map[i]) + usable_frames(
            map.subrange(i + 1, map.len() as int),
        ),
{
    let s = map.subrange(i, map.len() as int);
    assert(s.drop_first() =~= map.subrange(i + 1, map.len() as int));
    assert(s[0] == map[i]);
}

/// The `n`-th usable frame of the memory map (counting from zero), if there
/// are that many: the frame allocator hands them out in this order.
pub fn usable_frame(memory_map: &[MemoryRegion], n: usize) -> (r: Option<u64>)
    ensures
        r == if n < usable_frames(memory_map@).len() {
            Some(usable_frames(memory_map@)[n as int] as u64)
        } else {
            None
        },
        r matches Some(a) ==> a == usable_frames(memory_map@)[n as int],
{
    let ghost map = memory_map@;
    let ghost len = map.len() as int;
    let ghost all = usable_frames(map);
    proof {
        assert(map.subrange(0, len) =~= map);
    }
    let mut i: usize = 0;
    let mut rest: usize = n;
    while i < memory_map.len()
        invariant
            map == memory_map@,
            len == map.len(),
            all == usable_frames(map),
            0 <= i <= len,
            rest <= n,
            all.len() == (n - rest) + usable_frames(map.subrange(i as int, len)).len(),
            forall|k: int|
                0 <= k < usable_frames(map.subrange(i as int, len)).len() ==> all[(n - rest)
                    + k] == #[trigger] usable_frames(map.subrange(i as int, len))[k],
        decreases len - i,
    {
        proof {
            lemma_frames_step(map, i as int);
        }
        let ghost here = usable_frames(map.subrange(i as int, len));
        let ghost later = usable_frames(map.subrange(i + 1, len));
        let region = &memory_map[i];
        if region.usable && region.start < region.end {
            let count: u64 = (region.end - region.start - 1) / FRAME_SIZE + 1;
            if (rest as u64) < count {
                let ghost d = region.end - region.start;
                let ghost q = (d - 1) / 4096;
                proof {
                    lemma_fundamental_div_mod(d - 1, 4096);
                    assert(rest * 4096 <= d - 1) by (nonlinear_arith)
                        requires
                            rest <= q,
                            d - 1 == 4096 * q + (d - 1) % 4096,
                            0 <= (d - 1) % 4096,
                    ;
                    assert(here[rest as int] == region_frames(map[i as int])[rest as int]);
                    assert(all[(n - rest) + rest] == here[rest as int]);
                }
                return Some(region.start + (rest as u64) * FRAME_SIZE);
            }
            proof {
                let c = region_frames(map[i as int]).len() as int;
                assert forall|k: int| 0 <= k < later.len() implies all[(n - (rest - c)) + k]
                    == #[trigger] later[k] by {
                    assert(here[c + k] == later[k]);
                }
            }
            rest = rest - count as usize;
        } else {
            proof {
                assert(here =~= later);
            }
        }
        i += 1;
    }
    proof {
        assert(map.subrange(len, len) =~= Seq::<MemoryRegion>::empty());
    }
    None
}


/// A frame allocator that never has a frame to give.
pub struct EmptyFrameAllocator;

impl EmptyFrameAllocator {
    /// Always `None`: there is no frame to hand out.
    pub fn allocate_frame(&mut self) -> (r: Option<u64>)
        ensures
            r is None,
    {
        None
    }
}

} // verus!
