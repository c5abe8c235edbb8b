//! The physical frame allocator: a three-level bitmap over the first usable
//! region of the boot loader's memory map.
//!
//! A set bit in level 1 marks a free frame; a level-2 bit summarises one
//! level-1 word and a level-3 bit summarises one level-2 word.
use vstd::prelude::*;
use crate::bits::{
    bit, lemma_bit_clear, lemma_bit_of_zero, lemma_bit_set, lemma_lowest_bit, lemma_range_mask,
    make_range_mask,
};

verus! {

/// Number of frames the bitmap can describe (64 * 64 * 64, 1 GiB).
pub const BITMAP_CAPACITY: u64 = 262144;

/// Frames at the start of the region that hold the bitmap itself
/// (8 + 64 * 8 + 4096 * 8 bytes, rounded up to frames).
pub const BITMAP_FRAMES: u64 = 9;

/// What the boot loader says a region of physical memory holds.
#[derive(Clone, Copy, Debug, PartialEq, Eq, Structural)]
pub enum SnMemoryRegionKind {
    Usable,
    Reserved,
    AcpiReclaimable,
    AcpiNvs,
    BadMemory,
    BootloaderReclaimable,
    ExecutableAndModules,
    Framebuffer,
}

/// One entry of the boot loader's memory map.
#[derive(Clone, Copy, Debug, PartialEq, Eq, Structural)]
pub struct SnMemoryRegion {
    pub base: u64,
    pub length: u64,
    pub kind: SnMemoryRegionKind,
}

/// Every region of the map ends within the physical address space.
pub open spec fn map_fits(map: Seq<SnMemoryRegion>) -> bool {
    forall|i: int| 0 <= i < map.len() ==> #[trigger] map[i].base + map[i].length <= u64::MAX
}

pub open spec fn has_usable(map: Seq<SnMemoryRegion>) -> bool {
    exists|i: int| 0 <= i < map.len() && #[trigger] map[i].kind == SnMemoryRegionKind::Usable
}

/// `i` is the first usable region of the map.
pub open spec fn is_first_usable(map: Seq<SnMemoryRegion>, i: int) -> bool {
    &&& 0 <= i < map.len()
    &&& map[i].kind == SnMemoryRegionKind::Usable
    &&& forall|j: int| 0 <= j < i ==> #[trigger] map[j].kind != SnMemoryRegionKind::Usable
}

/// First whole frame of a region.
pub open spec fn region_start(r: SnMemoryRegion) -> int {
    if r.base % 4096 == 0 {
        r.base as int
    } else if r.base - r.base % 4096 <= u64::MAX - 4096 {
        r.base - r.base % 4096 + 4096
    } else {
        r.base - r.base % 4096
    }
}

/// End of the last whole frame of a region.
pub open spec fn region_end(r: SnMemoryRegion) -> int {
    (r.base + r.length) - (r.base + r.length) % 4096
}

/// Number of whole frames of a region that the bitmap describes.
pub open spec fn region_frames(r: SnMemoryRegion) -> int {
    if region_end(r) <= region_start(r) {
        0
    } else if (region_end(r) - region_start(r)) / 4096 > BITMAP_CAPACITY {
        BITMAP_CAPACITY as int
    } else {
        (region_end(r) - region_start(r)) / 4096
    }
}

/// There is one first usable region.
pub proof fn lemma_first_usable_unique(map: Seq<SnMemoryRegion>, i: int, j: int)
    requires
        is_first_usable(map, i),
        is_first_usable(map, j),
    ensures
        i == j,
{
    if i < j {
        assert(map[i].kind != SnMemoryRegionKind::Usable);
    } else if j < i {
        assert(map[j].kind != SnMemoryRegionKind::Usable);
    }
}

/// The frame at `addr` lies wholly inside a usable region of the map.
pub open spec fn in_usable_region(map: Seq<SnMemoryRegion>, addr: int) -> bool {
    exists|i: int|
        0 <= i < map.len() && #[trigger] map[i].kind == SnMemoryRegionKind::Usable && map[i].base
            <= addr && addr + 4096 <= map[i].base + map[i].length
}

/// Finds the first usable region of the map.
pub fn first_usable_region(map: &Vec<SnMemoryRegion>) -> (r: Option<usize>)
    ensures
        r matches Some(i) ==> is_first_usable(map@, i as int),
        r is None <==> !has_usable(map@),
{
    let mut i: usize = 0;
    while i < map.len()
        invariant
            i <= map@.len(),
            forall|j: int| 0 <= j < i ==> #[trigger] map@[j].kind != SnMemoryRegionKind::Usable,
        decreases map@.len() - i,
    {
        if map[i].kind == SnMemoryRegionKind::Usable {
            return Some(i);
        }
        i = i + 1;
    }
    None
}

proof fn lemma_split64(n: int)
    requires
        0 <= n,
    ensures
        n == 64 * (n / 64) + n % 64,
        0 <= n % 64 < 64,
        0 <= n / 64,
{
    vstd::arithmetic::div_mod::lemma_fundamental_div_mod(n, 64);
}

/// `f` is what `allocate_frame` handed out going from `before` to `after`.
pub open spec fn handed_out(before: SnLimineFrameAllocator, after: SnLimineFrameAllocator, f: u64) -> bool {
    &&& before.manages(f as int)
    &&& before.free_frames().contains(before.frame_index(f as int))
    &&& after.free_frames() == before.free_frames().remove(before.frame_index(f as int))
    &&& after.base() == before.base()
    &&& after.frame_count() == before.frame_count()
}

/// A frame is handed out only while it is free: a frame the allocator holds
/// as taken (handed out and not given back since, as only `deallocate_frame`
/// makes a frame free again) is not what the next allocation returns.
pub proof fn lemma_allocated_not_reissued(
    a: SnLimineFrameAllocator,
    a2: SnLimineFrameAllocator,
    f: u64,
    g: u64,
)
    requires
        a.manages(f as int),
        !a.free_frames().contains(a.frame_index(f as int)),
        handed_out(a, a2, g),
    ensures
        g != f,
{
}

/// A frame is not handed out again before it is given back: once `f1` is
/// handed out, any later state reached without giving frames back (its free
/// frames among those left) hands out another frame `f2`.
pub proof fn lemma_not_reissued(
    a0: SnLimineFrameAllocator,
    a1: SnLimineFrameAllocator,
    a2: SnLimineFrameAllocator,
    a3: SnLimineFrameAllocator,
    f1: u64,
    f2: u64,
)
    requires
        handed_out(a0, a1, f1),
        a2.free_frames().subset_of(a1.free_frames()),
        a2.base() == a1.base(),
        a2.frame_count() == a1.frame_count(),
        handed_out(a2, a3, f2),
    ensures
        f1 != f2,
{
    if f1 == f2 {
        assert(!a1.free_frames().contains(a0.frame_index(f1 as int)));
        assert(a2.frame_index(f2 as int) == a0.frame_index(f1 as int));
    }
}

/// The allocator for 4 KiB physical frames.
pub struct SnLimineFrameAllocator {
    memory_map: Vec<SnMemoryRegion>,
    physical_memory_offset: u64,
    level_3: u64,
    level_2: Vec<u64>,
    level_1: Vec<u64>,
    frame_phys_addr: u64,
    frame_count: u64,
}

impl SnLimineFrameAllocator {
    pub closed spec fn memory_map(self) -> Seq<SnMemoryRegion> {
        self.memory_map@
    }

    /// Physical address of frame number 0 of the bitmap.
    pub closed spec fn base(self) -> u64 {
        self.frame_phys_addr
    }

    /// Number of frames of the region that the bitmap describes.
    pub closed spec fn frame_count(self) -> u64 {
        self.frame_count
    }

    pub closed spec fn hhdm(self) -> u64 {
        self.physical_memory_offset
    }

    pub closed spec fn summary(self) -> u64 {
        self.level_3
    }

    /// Frame number `n` is free.
    pub closed spec fn frame_free(self, n: int) -> bool {
        bit(self.level_1@[n / 64], (n % 64) as u64)
    }

    /// The frame numbers that are free.
    pub open spec fn free_frames(self) -> Set<int> {
        Set::new(|n: int| 0 <= n < BITMAP_CAPACITY && self.frame_free(n))
    }

    /// Physical address of frame number `n`.
    pub open spec fn frame_address(self, n: int) -> int {
        self.base() + n * 4096
    }

    /// Frame number of the frame at physical address `addr`.
    pub open spec fn frame_index(self, addr: int) -> int {
        (addr - self.base()) / 4096
    }

    /// `addr` is the address of a frame that the bitmap describes, past the bitmap itself.
    pub open spec fn manages(self, addr: int) -> bool {
        &&& self.base() <= addr
        &&& (addr - self.base()) % 4096 == 0
        &&& BITMAP_FRAMES <= self.frame_index(addr) < self.frame_count()
    }

    pub closed spec fn wf(self) -> bool {
        &&& self.level_2@.len() == 64
        &&& self.level_1@.len() == 4096
        &&& forall|j: int|
            0 <= j < 64 ==> (bit(self.level_3, j as u64) <==> #[trigger] self.level_2@[j] != 0)
        &&& forall|i: int|
            0 <= i < 4096 ==> (bit(self.level_2@[i / 64], (i % 64) as u64) <==> #[trigger] self.level_1@[i]
                != 0)
        &&& forall|n: int|
            0 <= n < BITMAP_CAPACITY && #[trigger] self.frame_free(n) ==> BITMAP_FRAMES <= n
                < self.frame_count
        &&& self.frame_phys_addr % 4096 == 0
        &&& self.frame_count <= BITMAP_CAPACITY
        &&& self.frame_phys_addr + self.frame_count * 4096 <= u64::MAX
        &&& forall|n: int|
            0 <= n < self.frame_count ==> in_usable_region(
                self.memory_map@,
                #[trigger] self.frame_address(n),
            )
    }

    /// Builds the allocator over the first usable region of `memory_map`. The
    /// bitmap is placed at the start of that region, whose first frames are
    /// therefore never handed out.
    pub fn init(memory_map: Vec<SnMemoryRegion>, physical_memory_offset: u64) -> (r: Self)
        requires
            has_usable(memory_map@),
            map_fits(memory_map@),
        ensures
            r.wf(),
            r.memory_map() == memory_map@,
            r.hhdm() == physical_memory_offset,
            exists|i: int|
                is_first_usable(memory_map@, i) && r.frame_count() == region_frames(memory_map@[i])
                    && r.base() == region_start(memory_map@[i]),
            r.free_frames() == Set::new(
                |n: int| BITMAP_FRAMES <= n < r.frame_count(),
            ),
    {
        let idx = first_usable_region(&memory_map).unwrap();
        let region = memory_map[idx];
        let end_addr = region.base + region.length;
        let down = region.base - region.base % 4096;
        let start = if region.base % 4096 == 0 {
            region.base
        } else if down <= u64::MAX - 4096 {
            down + 4096
        } else {
            down
        };
        let end = end_addr - end_addr % 4096;
        let count: u64 = if end <= start {
            0
        } else if (end - start) / 4096 > BITMAP_CAPACITY {
            BITMAP_CAPACITY
        } else {
            (end - start) / 4096
        };
        assert(count == region_frames(region));
        assert(start + count * 4096 <= end || count == 0) by (nonlinear_arith)
            requires
                count == 0 || count <= (end - start) / 4096,
                end > start || count == 0,
        ;
        let mut level_1: Vec<u64> = Vec::new();
        let mut level_2: Vec<u64> = Vec::new();
        let mut level_3: u64 = 0;
        let mut j: u64 = 0;
        assert forall|jj: u64| jj < 64 implies !#[trigger] bit(level_3, jj) by {
            lemma_bit_of_zero(level_3, jj);
        }
        while j < 64
            invariant
                j <= 64,
                count <= BITMAP_CAPACITY,
                level_2@.len() == j,
                level_1@.len() == 64 * j,
                forall|i: int|
                    0 <= i < 64 * j ==> forall|k: u64|
                        k < 64 ==> (bit(#[trigger] level_1@[i], k) <==> BITMAP_FRAMES <= 64 * i + k
                            < count),
                forall|jj: int, k: u64|
                    0 <= jj < j && k < 64 ==> (#[trigger] bit(level_2@[jj], k) <==> level_1@[64 * jj
                        + k] != 0),
                forall|jj: u64| jj < 64 ==> (#[trigger] bit(level_3, jj) <==> (jj < j && level_2@[jj as int] != 0)),
            decreases 64 - j,
        {
            let mut w2: u64 = 0;
            let mut k: u64 = 0;
            assert forall|kk: u64| kk < 64 implies !#[trigger] bit(w2, kk) by {
                lemma_bit_of_zero(w2, kk);
            }
            while k < 64
                invariant
                    j < 64,
                    k <= 64,
                    count <= BITMAP_CAPACITY,
                    level_2@.len() == j,
                    level_1@.len() == 64 * j + k,
                    forall|i: int|
                        0 <= i < 64 * j + k ==> forall|kk: u64|
                            kk < 64 ==> (bit(#[trigger] level_1@[i], kk) <==> BITMAP_FRAMES <= 64 * i
                                + kk < count),
                    forall|jj: int, kk: u64|
                        0 <= jj < j && kk < 64 ==> (#[trigger] bit(level_2@[jj], kk) <==> level_1@[64
                            * jj + kk] != 0),
                    forall|kk: u64| kk < 64 ==> (#[trigger] bit(w2, kk) <==> (kk < k && level_1@[64 * j + kk] != 0)),
                decreases 64 - k,
            {
                let i = 64 * j + k;
                let first = 64 * i;
                let lo: u64 = if BITMAP_FRAMES > first {
                    if BITMAP_FRAMES - first > 64 {
                        64
                    } else {
                        BITMAP_FRAMES - first
                    }
                } else {
                    0
                };
                let hi: u64 = if count > first {
                    if count - first > 64 {
                        64
                    } else {
                        count - first
                    }
                } else {
                    0
                };
                let w1 = make_range_mask(lo, hi);
                assert forall|kk: u64| kk < 64 implies (bit(w1, kk) <==> BITMAP_FRAMES <= 64 * i + kk
                    < count) by {
                    lemma_range_mask(lo, hi, kk);
                }
                level_1.push(w1);
                if w1 != 0 {
                    assert forall|kk: u64| kk < 64 implies (#[trigger] bit(w2 | (1u64 << k), kk) <==> (kk
                        < k + 1 && level_1@[64 * j + kk] != 0)) by {
                        lemma_bit_set(w2, k, kk);
                    }
                    w2 = w2 | (1u64 << k);
                } else {
                    assert forall|kk: u64| kk < 64 implies (#[trigger] bit(w2, kk) <==> (kk < k + 1
                        && level_1@[64 * j + kk] != 0)) by {
                        if kk == k {
                            lemma_bit_of_zero(w2, kk);
                        }
                    }
                }
                k = k + 1;
            }
            level_2.push(w2);
            if w2 != 0 {
                assert forall|jj: u64| jj < 64 implies (#[trigger] bit(level_3 | (1u64 << j), jj) <==> (jj
                    < j + 1 && level_2@[jj as int] != 0)) by {
                    lemma_bit_set(level_3, j, jj);
                }
                level_3 = level_3 | (1u64 << j);
            } else {
                assert forall|jj: u64| jj < 64 implies (#[trigger] bit(level_3, jj) <==> (jj < j + 1
                    && level_2@[jj as int] != 0)) by {}
            }
            assert forall|jj: int, kk: u64|
                0 <= jj < j + 1 && kk < 64 implies (#[trigger] bit(level_2@[jj], kk) <==> level_1@[64
                * jj + kk] != 0) by {}
            j = j + 1;
        }
        let r = SnLimineFrameAllocator {
            memory_map,
            physical_memory_offset,
            level_3,
            level_2,
            level_1,
            frame_phys_addr: start,
            frame_count: count,
        };
        proof {
            assert forall|jj: int| 0 <= jj < 64 implies (bit(r.level_3, jj as u64) <==> #[trigger] r.level_2@[jj]
                != 0) by {
                assert(bit(level_3, jj as u64) <==> (jj < 64 && level_2@[jj] != 0));
            }
            assert forall|i: int| 0 <= i < 4096 implies (bit(r.level_2@[i / 64], (i % 64) as u64)
                <==> #[trigger] r.level_1@[i] != 0) by {
                lemma_split64(i);
            }
            assert forall|n: int| 0 <= n < BITMAP_CAPACITY implies (#[trigger] r.frame_free(n) <==> BITMAP_FRAMES
                <= n < count) by {
                lemma_split64(n);
                assert(bit(level_1@[n / 64], (n % 64) as u64) <==> BITMAP_FRAMES <= 64 * (n / 64) + (n
                    % 64) < count);
            }
            assert(r.free_frames() =~= Set::new(|n: int| BITMAP_FRAMES <= n < r.frame_count()));
            assert forall|n: int| 0 <= n < r.frame_count implies in_usable_region(
                r.memory_map@,
                #[trigger] r.frame_address(n),
            ) by {
                assert(r.memory_map@[idx as int].kind == SnMemoryRegionKind::Usable);
                assert(start + n * 4096 + 4096 <= start + count * 4096) by (nonlinear_arith)
                    requires
                        n < count,
                ;
            }
        }
        r
    }

    /// The level-3 summary word: zero exactly when no frame is free.
    pub fn level_3_summary(&self) -> (r: u64)
        requires
            self.wf(),
        ensures
            r == self.summary(),
            r == 0 <==> self.free_frames().is_empty(),
    {
        proof {
            self.lemma_empty_iff_summary_zero();
        }
        self.level_3
    }

    proof fn lemma_empty_iff_summary_zero(self)
        requires
            self.wf(),
        ensures
            self.level_3 == 0 <==> self.free_frames().is_empty(),
    {
        if self.level_3 == 0 {
            assert forall|n: int| !self.free_frames().contains(n) by {
                if 0 <= n < BITMAP_CAPACITY && self.frame_free(n) {
                    lemma_split64(n);
                    let i = n / 64;
                    lemma_split64(i);
                    lemma_bit_of_zero(self.level_1@[i], (n % 64) as u64);
                    assert(self.level_1@[i] != 0);
                    lemma_bit_of_zero(self.level_2@[i / 64], (i % 64) as u64);
                    lemma_bit_of_zero(self.level_3, (i / 64) as u64);
                }
            }
            assert(self.free_frames() =~= Set::empty());
        } else {
            lemma_lowest_bit(self.level_3);
            let j = self.level_3.trailing_zeros() as int;
            let w2 = self.level_2@[j];
            lemma_lowest_bit(w2);
            let k = w2.trailing_zeros() as int;
            let i = 64 * j + k;
            lemma_split64(i);
            assert(i / 64 == j && i % 64 == k);
            let w1 = self.level_1@[i];
            lemma_lowest_bit(w1);
            let b = w1.trailing_zeros() as int;
            let n = 64 * i + b;
            lemma_split64(n);
            assert(n / 64 == i && n % 64 == b);
            assert(self.free_frames().contains(n));
        }
    }

    /// Takes the lowest free frame out of the bitmap and returns its number.
    fn fetch_frame(&mut self) -> (r: Option<u64>)
        requires
            old(self).wf(),
        ensures
            final(self).wf(),
            final(self).memory_map() == old(self).memory_map(),
            final(self).base() == old(self).base(),
            final(self).frame_count() == old(self).frame_count(),
            final(self).hhdm() == old(self).hhdm(),
            r is None <==> old(self).free_frames().is_empty(),
            r is None ==> final(self).free_frames() == old(self).free_frames(),
            r matches Some(n) ==> {
                &&& old(self).free_frames().contains(n as int)
                &&& forall|m: int| old(self).free_frames().contains(m) ==> n <= m
                &&& final(self).free_frames() == old(self).free_frames().remove(n as int)
            },
    {
        proof {
            self.lemma_empty_iff_summary_zero();
        }
        let l3_bitmap = self.level_3;
        if l3_bitmap == 0 {
            return None;
        }
        let ghost old_self = *self;
        proof {
            lemma_lowest_bit(l3_bitmap);
        }
        let l3_index = l3_bitmap.trailing_zeros() as u64;
        let l2_bitmap = self.level_2[l3_index as usize];
        proof {
            lemma_lowest_bit(l2_bitmap);
            assert(bit(self.level_3, l3_index));
        }
        let l2_index = l2_bitmap.trailing_zeros() as u64;
        let word = l3_index * 64 + l2_index;
        proof {
            lemma_split64(word as int);
            assert(word / 64 == l3_index && word % 64 == l2_index);
            assert(bit(self.level_2@[(word / 64) as int], (word % 64) as u64));
        }
        let l1_bitmap = self.level_1[word as usize];
        proof {
            lemma_lowest_bit(l1_bitmap);
        }
        let l1_index = l1_bitmap.trailing_zeros() as u64;
        let frame_number = word * 64 + l1_index;
        proof {
            lemma_split64(frame_number as int);
            assert(frame_number / 64 == word && frame_number % 64 == l1_index);
            assert(old_self.frame_free(frame_number as int));
            // every free frame lies at or above the one found
            assert forall|m: int| old_self.free_frames().contains(m) implies frame_number <= m by {
                lemma_split64(m);
                let mi = m / 64;
                lemma_split64(mi);
                lemma_bit_of_zero(old_self.level_1@[mi], (m % 64) as u64);
                assert(bit(old_self.level_2@[mi / 64], (mi % 64) as u64));
                lemma_bit_of_zero(old_self.level_2@[mi / 64], (mi % 64) as u64);
                assert(bit(old_self.level_3, (mi / 64) as u64));
                if mi / 64 == l3_index {
                    if mi % 64 == l2_index {
                        assert(mi == word);
                    }
                }
            }
        }
        let new_l1 = l1_bitmap & !(1u64 << l1_index);
        self.level_1.set(word as usize, new_l1);
        let mut new_l2 = l2_bitmap;
        if new_l1 == 0 {
            new_l2 = l2_bitmap & !(1u64 << l2_index);
            self.level_2.set(l3_index as usize, new_l2);
            if new_l2 == 0 {
                self.level_3 = l3_bitmap & !(1u64 << l3_index);
            }
        }
        proof {
            assert forall|kk: u64| kk < 64 implies bit(new_l1, kk) == (kk != l1_index && bit(
                l1_bitmap,
                kk,
            )) by {
                lemma_bit_clear(l1_bitmap, l1_index, kk);
            }
            assert forall|kk: u64| kk < 64 implies bit(new_l2, kk) == ((new_l1 != 0 || kk
                != l2_index) && bit(l2_bitmap, kk)) by {
                lemma_bit_clear(l2_bitmap, l2_index, kk);
            }
            assert forall|kk: u64| kk < 64 implies bit(self.level_3, kk) == ((new_l2 != 0 || kk
                != l3_index) && bit(l3_bitmap, kk)) by {
                lemma_bit_clear(l3_bitmap, l3_index, kk);
            }
            assert forall|jj: int| 0 <= jj < 64 implies (bit(self.level_3, jj as u64)
                <==> #[trigger] self.level_2@[jj] != 0) by {
                if jj == l3_index {
                    if new_l1 != 0 {
                        assert(self.level_2@[jj] == l2_bitmap);
                    }
                }
            }
            assert forall|i: int| 0 <= i < 4096 implies (bit(self.level_2@[i / 64], (i % 64) as u64)
                <==> #[trigger] self.level_1@[i] != 0) by {
                lemma_split64(i);
                if i / 64 == l3_index && i != word {
                    assert(i % 64 != l2_index);
                }
                if i == word {
                    assert(i / 64 == l3_index && i % 64 == l2_index);
                }
            }
            assert forall|n: int| 0 <= n < BITMAP_CAPACITY implies #[trigger] self.frame_free(n)
                == (old_self.frame_free(n) && n != frame_number) by {
                lemma_split64(n);
                if n / 64 == word {
                    assert(n % 64 == l1_index <==> n == frame_number);
                }
            }
            assert(self.free_frames() =~= old_self.free_frames().remove(frame_number as int));
            assert forall|n: int| 0 <= n < self.frame_count implies in_usable_region(
                self.memory_map@,
                #[trigger] self.frame_address(n),
            ) by {
                assert(old_self.frame_address(n) == self.frame_address(n));
                assert(in_usable_region(old_self.memory_map@, old_self.frame_address(n)));
            }
        }
        Some(frame_number)
    }

    /// Puts frame number `frame_number` back into the bitmap.
    fn return_frame(&mut self, frame_number: u64)
        requires
            old(self).wf(),
            BITMAP_FRAMES <= frame_number < old(self).frame_count(),
        ensures
            final(self).wf(),
            final(self).memory_map() == old(self).memory_map(),
            final(self).base() == old(self).base(),
            final(self).frame_count() == old(self).frame_count(),
            final(self).hhdm() == old(self).hhdm(),
            final(self).free_frames() == old(self).free_frames().insert(frame_number as int),
    {
        let ghost old_self = *self;
        let word = frame_number / 64;
        let l1_index = frame_number % 64;
        let l3_index = word / 64;
        let l2_index = word % 64;
        proof {
            lemma_split64(frame_number as int);
            lemma_split64(word as int);
        }
        let l1_bitmap = self.level_1[word as usize];
        let new_l1 = l1_bitmap | (1u64 << l1_index);
        self.level_1.set(word as usize, new_l1);
        let l2_bitmap = self.level_2[l3_index as usize];
        let new_l2 = l2_bitmap | (1u64 << l2_index);
        self.level_2.set(l3_index as usize, new_l2);
        let l3_bitmap = self.level_3;
        self.level_3 = l3_bitmap | (1u64 << l3_index);
        proof {
            assert forall|kk: u64| kk < 64 implies bit(new_l1, kk) == (kk == l1_index || bit(
                l1_bitmap,
                kk,
            )) by {
                lemma_bit_set(l1_bitmap, l1_index, kk);
            }
            assert forall|kk: u64| kk < 64 implies bit(new_l2, kk) == (kk == l2_index || bit(
                l2_bitmap,
                kk,
            )) by {
                lemma_bit_set(l2_bitmap, l2_index, kk);
            }
            assert forall|kk: u64| kk < 64 implies bit(self.level_3, kk) == (kk == l3_index || bit(
                l3_bitmap,
                kk,
            )) by {
                lemma_bit_set(l3_bitmap, l3_index, kk);
            }
            lemma_bit_of_zero(new_l1, l1_index);
            lemma_bit_of_zero(new_l2, l2_index);
            assert forall|jj: int| 0 <= jj < 64 implies (bit(self.level_3, jj as u64)
                <==> #[trigger] self.level_2@[jj] != 0) by {}
            assert forall|i: int| 0 <= i < 4096 implies (bit(self.level_2@[i / 64], (i % 64) as u64)
                <==> #[trigger] self.level_1@[i] != 0) by {
                lemma_split64(i);
                if i / 64 == l3_index && i != word {
                    assert(i % 64 != l2_index);
                }
            }
            assert forall|n: int| 0 <= n < BITMAP_CAPACITY implies #[trigger] self.frame_free(n)
                == (old_self.frame_free(n) || n == frame_number) by {
                lemma_split64(n);
                if n / 64 == word {
                    assert(n % 64 == l1_index <==> n == frame_number);
                }
            }
            assert(self.free_frames() =~= old_self.free_frames().insert(frame_number as int));
            assert forall|n: int| 0 <= n < self.frame_count implies in_usable_region(
                self.memory_map@,
                #[trigger] self.frame_address(n),
            ) by {
                assert(old_self.frame_address(n) == self.frame_address(n));
                assert(in_usable_region(old_self.memory_map@, old_self.frame_address(n)));
            }
        }
    }

    /// Hands out the lowest free frame, or `None` when every frame is taken.
    pub fn allocate_frame(&mut self) -> (r: Option<u64>)
        requires
            old(self).wf(),
        ensures
            final(self).wf(),
            final(self).memory_map() == old(self).memory_map(),
            final(self).base() == old(self).base(),
            final(self).frame_count() == old(self).frame_count(),
            final(self).hhdm() == old(self).hhdm(),
            r is None <==> old(self).free_frames().is_empty(),
            r is None ==> final(self).free_frames() == old(self).free_frames(),
            r matches Some(f) ==> {
                &&& f % 4096 == 0
                &&& old(self).manages(f as int)
                &&& in_usable_region(old(self).memory_map(), f as int)
                &&& f == old(self).frame_address(old(self).frame_index(f as int))
                &&& old(self).free_frames().contains(old(self).frame_index(f as int))
                &&& forall|m: int|
                    old(self).free_frames().contains(m) ==> old(self).frame_index(f as int) <= m
                &&& final(self).free_frames() == old(self).free_frames().remove(
                    old(self).frame_index(f as int),
                )
            },
    {
        let n = self.fetch_frame();
        match n {
            None => None,
            Some(n) => {
                proof {
                    assert(BITMAP_FRAMES <= n < self.frame_count);
                    assert(self.frame_phys_addr + n * 4096 + 4096 <= self.frame_phys_addr
                        + self.frame_count * 4096) by (nonlinear_arith)
                        requires
                            n < self.frame_count,
                    ;
                    assert(in_usable_region(self.memory_map@, self.frame_address(n as int)));
                }
                let f = self.frame_phys_addr + n * 4096;
                proof {
                    assert((f - self.frame_phys_addr) / 4096 == n) by (nonlinear_arith)
                        requires
                            f == self.frame_phys_addr + n * 4096,
                    ;
                    assert(f % 4096 == 0) by (nonlinear_arith)
                        requires
                            f == self.frame_phys_addr + n * 4096,
                            self.frame_phys_addr % 4096 == 0,
                    ;
                    assert((f - self.frame_phys_addr) % 4096 == 0) by (nonlinear_arith)
                        requires
                            f == self.frame_phys_addr + n * 4096,
                    ;
                }
                Some(f)
            },
        }
    }

    /// Gives back the frame at physical address `frame`.
    pub fn deallocate_frame(&mut self, frame: u64)
        requires
            old(self).wf(),
            old(self).manages(frame as int),
        ensures
            final(self).wf(),
            final(self).memory_map() == old(self).memory_map(),
            final(self).base() == old(self).base(),
            final(self).frame_count() == old(self).frame_count(),
            final(self).hhdm() == old(self).hhdm(),
            final(self).free_frames() == old(self).free_frames().insert(
                old(self).frame_index(frame as int),
            ),
    {
        let frame_number = (frame - self.frame_phys_addr) / 4096;
        self.return_frame(frame_number);
    }

    /// Two frames the allocator hands out with the same number are the same frame.
    pub proof fn lemma_index_injective(self, f: int, g: int)
        requires
            self.manages(f),
            self.manages(g),
            self.frame_index(f) == self.frame_index(g),
        ensures
            f == g,
    {
        vstd::arithmetic::div_mod::lemma_fundamental_div_mod(f - self.base(), 4096);
        vstd::arithmetic::div_mod::lemma_fundamental_div_mod(g - self.base(), 4096);
    }

    /// A free frame is one the allocator hands out, at the address of its number.
    pub proof fn lemma_free_frame_managed(self, n: int)
        requires
            self.wf(),
            self.free_frames().contains(n),
        ensures
            self.manages(self.frame_address(n)),
            self.frame_index(self.frame_address(n)) == n,
            0 <= self.frame_address(n) <= u64::MAX,
    {
        assert(BITMAP_FRAMES <= n < self.frame_count);
        assert((n * 4096) / 4096 == n) by (nonlinear_arith);
        assert((n * 4096) % 4096 == 0) by (nonlinear_arith);
        assert(self.frame_phys_addr + n * 4096 <= self.frame_phys_addr + self.frame_count * 4096)
            by (nonlinear_arith)
            requires
                n < self.frame_count,
        ;
    }

    /// Number of frames of the region that the bitmap describes.
    pub fn frame_count_of(&self) -> (r: u64)
        ensures
            r == self.frame_count(),
    {
        self.frame_count
    }

    /// Frame number of the frame at `addr`.
    pub fn frame_number(&self, addr: u64) -> (r: u64)
        requires
            self.wf(),
            self.manages(addr as int),
        ensures
            r == self.frame_index(addr as int),
            r < self.frame_count(),
    {
        (addr - self.frame_phys_addr) / 4096
    }

    /// End of the frames the bitmap describes.
    pub fn managed_end(&self) -> (r: u64)
        requires
            self.wf(),
        ensures
            r == self.base() + self.frame_count() * 4096,
    {
        self.frame_phys_addr + self.frame_count * 4096
    }

    /// Tells whether the frame at `addr` is one this allocator hands out and is free now.
    pub fn is_free_frame(&self, addr: u64) -> (r: bool)
        requires
            self.wf(),
        ensures
            r == (self.manages(addr as int) && self.free_frames().contains(self.frame_index(addr as int))),
    {
        if !self.manages_frame(addr) {
            return false;
        }
        let n = (addr - self.frame_phys_addr) / 4096;
        let w = self.level_1[(n / 64) as usize];
        (w >> (n % 64)) & 1 == 1
    }

    /// Tells whether `addr` is a frame this allocator hands out.
    pub fn manages_frame(&self, addr: u64) -> (r: bool)
        requires
            self.wf(),
        ensures
            r == self.manages(addr as int),
    {
        if addr < self.frame_phys_addr {
            return false;
        }
        let off = addr - self.frame_phys_addr;
        off % 4096 == 0 && BITMAP_FRAMES <= off / 4096 && off / 4096 < self.frame_count
    }

    /// The offset at which all physical memory is mapped in the kernel's address space.
    pub fn physical_memory_offset(&self) -> (r: u64)
        ensures
            r == self.hhdm(),
    {
        self.physical_memory_offset
    }
}

} // verus!
