//! One four-level page-table tree: its level-4 table, the intermediate tables
//! created on demand (each named by its level and the part of the virtual
//! address that selects it), and the 4 KiB pages it maps.
use vstd::prelude::*;
use crate::frame_alloc::SnLimineFrameAllocator;

verus! {

/// The flags an entry of a page table carries.
#[derive(Clone, Copy, Debug, PartialEq, Eq, Structural)]
pub struct SnPageFlags {
    pub present: bool,
    pub writable: bool,
    pub user_accessible: bool,
    pub no_cache: bool,
}

/// A 4 KiB page mapped to a frame.
#[derive(Clone, Copy, Debug, PartialEq, Eq, Structural)]
pub struct SnMapping {
    pub page: u64,
    pub frame: u64,
    pub flags: SnPageFlags,
}

/// An intermediate table (level 3, 2 or 1) and the frame that holds it.
#[derive(Clone, Copy, Debug, PartialEq, Eq, Structural)]
pub struct SnTableRef {
    pub level: u8,
    pub prefix: u64,
    pub frame: u64,
}

/// Why a mapping operation failed.
#[derive(Clone, Copy, Debug, PartialEq, Eq, Structural)]
pub enum SnMapError {
    FrameAllocationFailed,
    PageAlreadyMapped,
    PageNotMapped,
    NoFreeSlot,
}

/// The part of `va` that selects the table of `level` that maps it.
pub open spec fn table_prefix(level: u8, va: u64) -> u64 {
    if level == 3 {
        va >> 39
    } else if level == 2 {
        va >> 30
    } else {
        va >> 21
    }
}

pub fn prefix_of(level: u8, va: u64) -> (r: u64)
    ensures
        r == table_prefix(level, va),
{
    if level == 3 {
        va >> 39
    } else if level == 2 {
        va >> 30
    } else {
        va >> 21
    }
}

/// Frames that `new` took from the allocator since `old`.
pub open spec fn taken(old: SnLimineFrameAllocator, new: SnLimineFrameAllocator) -> Set<int> {
    old.free_frames().difference(new.free_frames())
}

pub struct SnAddressSpace {
    l4_phys: u64,
    tables: Vec<SnTableRef>,
    leaves: Vec<SnMapping>,
}

impl SnAddressSpace {
    /// Physical address of the level-4 table.
    pub closed spec fn l4(self) -> u64 {
        self.l4_phys
    }

    pub closed spec fn leaf_seq(self) -> Seq<SnMapping> {
        self.leaves@
    }

    pub closed spec fn table_seq(self) -> Seq<SnTableRef> {
        self.tables@
    }

    pub closed spec fn wf(self) -> bool {
        &&& forall|i: int, j: int|
            0 <= i < j < self.leaves@.len() ==> #[trigger] self.leaves@[i].page
                != #[trigger] self.leaves@[j].page
        &&& forall|i: int, j: int|
            0 <= i < j < self.tables@.len() ==> !(#[trigger] self.tables@[i].level
                == #[trigger] self.tables@[j].level && self.tables@[i].prefix
                == self.tables@[j].prefix)
        &&& forall|i: int|
            0 <= i < self.leaves@.len() ==> self.has_table(1, table_prefix(1, (#[trigger] self.leaves@[i]).page))
        &&& forall|i: int, j: int|
            0 <= i < self.leaves@.len() && 0 <= j < self.leaves@.len() && i != j
                && self.leaves@[i].flags.user_accessible && self.leaves@[j].flags.user_accessible
                ==> #[trigger] self.leaves@[i].frame != #[trigger] self.leaves@[j].frame
    }

    /// Two user-accessible pages of a tree map different frames.
    pub proof fn lemma_user_frames_distinct(self, page_a: u64, page_b: u64)
        requires
            self.wf(),
            page_a != page_b,
            self.mapping(page_a) matches Some(m1) && m1.flags.user_accessible,
            self.mapping(page_b) matches Some(m2) && m2.flags.user_accessible,
        ensures
            self.mapping(page_a)->0.frame != self.mapping(page_b)->0.frame,
    {
        let i = choose|i: int| 0 <= i < self.leaf_seq().len() && (#[trigger] self.leaf_seq()[i]).page == page_a;
        let j = choose|j: int| 0 <= j < self.leaf_seq().len() && (#[trigger] self.leaf_seq()[j]).page == page_b;
        self.lemma_mapping_at(i);
        self.lemma_mapping_at(j);
        assert(self.leaves@[i].frame != self.leaves@[j].frame);
    }

    pub proof fn lemma_same_tables(self, other: Self)
        requires
            self.table_seq() == other.table_seq(),
        ensures
            forall|l: u8, p: u64| #[trigger] self.has_table(l, p) == other.has_table(l, p),
    {
        assert forall|l: u8, p: u64| #[trigger] self.has_table(l, p) == other.has_table(l, p) by {
            if self.has_table(l, p) {
                let i = choose|i: int|
                    0 <= i < self.table_seq().len() && (#[trigger] self.table_seq()[i]).level == l
                        && self.table_seq()[i].prefix == p;
                assert(other.table_seq()[i] == self.table_seq()[i]);
            }
            if other.has_table(l, p) {
                let i = choose|i: int|
                    0 <= i < other.table_seq().len() && (#[trigger] other.table_seq()[i]).level == l
                        && other.table_seq()[i].prefix == p;
                assert(other.table_seq()[i] == self.table_seq()[i]);
            }
        }
    }

    pub proof fn lemma_leaf_has_table(self, i: int)
        requires
            self.wf(),
            0 <= i < self.leaf_seq().len(),
        ensures
            self.has_table(1, table_prefix(1, self.leaf_seq()[i].page)),
    {
        assert(self.leaves@[i] == self.leaf_seq()[i]);
    }

    /// What `page` is mapped to, if anything.
    pub open spec fn mapping(self, page: u64) -> Option<SnMapping> {
        if exists|i: int|
            0 <= i < self.leaf_seq().len() && (#[trigger] self.leaf_seq()[i]).page == page {
            Some(
                self.leaf_seq()[choose|i: int|
                    0 <= i < self.leaf_seq().len() && (#[trigger] self.leaf_seq()[i]).page == page],
            )
        } else {
            None
        }
    }

    /// The table of `level` selected by `prefix` exists.
    pub open spec fn has_table(self, level: u8, prefix: u64) -> bool {
        exists|i: int|
            0 <= i < self.table_seq().len() && (#[trigger] self.table_seq()[i]).level == level
                && self.table_seq()[i].prefix == prefix
    }

    /// The frames that hold the tables of this tree, the level-4 table included.
    pub open spec fn table_frames(self) -> Set<u64> {
        Set::new(
            |f: u64|
                f == self.l4() || exists|i: int|
                    0 <= i < self.table_seq().len() && (#[trigger] self.table_seq()[i]).frame == f,
        )
    }

    /// The frames that user-accessible pages of this tree map.
    pub open spec fn user_frames(self) -> Set<u64> {
        Set::new(
            |f: u64|
                exists|i: int|
                    0 <= i < self.leaf_seq().len() && (#[trigger] self.leaf_seq()[i]).frame == f
                        && self.leaf_seq()[i].flags.user_accessible,
        )
    }

    pub proof fn lemma_mapping_at(self, i: int)
        requires
            self.wf(),
            0 <= i < self.leaf_seq().len(),
        ensures
            self.mapping(self.leaf_seq()[i].page) == Some(self.leaf_seq()[i]),
    {
        let page = self.leaf_seq()[i].page;
        assert(0 <= i < self.leaf_seq().len() && self.leaf_seq()[i].page == page);
        let j = choose|j: int| 0 <= j < self.leaf_seq().len() && (#[trigger] self.leaf_seq()[j]).page == page;
        if j != i {
            if j < i {
                assert(self.leaves@[j].page != self.leaves@[i].page);
            } else {
                assert(self.leaves@[i].page != self.leaves@[j].page);
            }
        }
    }

    /// An empty tree whose level-4 table is at `l4_phys`.
    pub fn new(l4_phys: u64) -> (r: Self)
        ensures
            r.wf(),
            r.l4() == l4_phys,
            forall|p: u64| r.mapping(p) is None,
            r.table_frames() == set![l4_phys],
            r.user_frames() == Set::<u64>::empty(),
    {
        let r = SnAddressSpace { l4_phys, tables: Vec::new(), leaves: Vec::new() };
        assert(r.table_frames() =~= set![l4_phys]);
        assert(r.user_frames() =~= Set::<u64>::empty());
        r
    }

    pub fn l4_phys(&self) -> (r: u64)
        ensures
            r == self.l4(),
    {
        self.l4_phys
    }

    fn find_leaf(&self, page: u64) -> (r: Option<usize>)
        requires
            self.wf(),
        ensures
            r matches Some(i) ==> i < self.leaf_seq().len() && self.leaf_seq()[i as int].page == page
                && self.mapping(page) == Some(self.leaf_seq()[i as int]),
            r is None ==> self.mapping(page) is None,
    {
        let mut i: usize = 0;
        while i < self.leaves.len()
            invariant
                i <= self.leaves@.len(),
                self.wf(),
                forall|j: int| 0 <= j < i ==> (#[trigger] self.leaves@[j]).page != page,
            decreases self.leaves@.len() - i,
        {
            if self.leaves[i].page == page {
                proof {
                    self.lemma_mapping_at(i as int);
                }
                return Some(i);
            }
            i = i + 1;
        }
        None
    }

    /// What `page` is mapped to.
    pub fn translate(&self, page: u64) -> (r: Option<SnMapping>)
        requires
            self.wf(),
        ensures
            r == self.mapping(page),
    {
        match self.find_leaf(page) {
            Some(i) => Some(self.leaves[i]),
            None => None,
        }
    }

    pub fn find_table(&self, level: u8, prefix: u64) -> (r: bool)
        ensures
            r == self.has_table(level, prefix),
    {
        let mut i: usize = 0;
        while i < self.tables.len()
            invariant
                i <= self.tables@.len(),
                forall|j: int|
                    0 <= j < i ==> !((#[trigger] self.tables@[j]).level == level
                        && self.tables@[j].prefix == prefix),
            decreases self.tables@.len() - i,
        {
            if self.tables[i].level == level && self.tables[i].prefix == prefix {
                assert(self.table_seq()[i as int] == self.tables@[i as int]);
                return true;
            }
            i = i + 1;
        }
        false
    }

    /// Creates the table of `level` selected by `prefix` when it is missing,
    /// taking an empty frame for it.
    fn ensure_table(&mut self, alloc: &mut SnLimineFrameAllocator, level: u8, prefix: u64) -> (r:
        Result<(), SnMapError>)
        requires
            old(self).wf(),
            old(alloc).wf(),
        ensures
            final(self).wf(),
            final(alloc).wf(),
            final(alloc).memory_map() == old(alloc).memory_map(),
            final(alloc).base() == old(alloc).base(),
            final(alloc).frame_count() == old(alloc).frame_count(),
            final(alloc).hhdm() == old(alloc).hhdm(),
            final(self).l4() == old(self).l4(),
            final(self).leaf_seq() == old(self).leaf_seq(),
            final(alloc).free_frames().subset_of(old(alloc).free_frames()),
            forall|n: int|
                #[trigger] taken(*old(alloc), *final(alloc)).contains(n) ==> final(self).table_frames().contains(
                    old(alloc).frame_address(n) as u64,
                ),
            forall|f: u64|
                #[trigger] final(self).table_frames().contains(f) ==> old(self).table_frames().contains(f)
                    || exists|n: int|
                    #[trigger] taken(*old(alloc), *final(alloc)).contains(n) && old(alloc).frame_address(n) == f,
            forall|l: u8, p: u64|
                #[trigger] old(self).has_table(l, p) ==> final(self).has_table(l, p),
            forall|f: u64|
                #[trigger] old(self).table_frames().contains(f) ==> final(self).table_frames().contains(f),
            r is Ok ==> final(self).has_table(level, prefix),
            r is Err ==> r == Err::<(), SnMapError>(SnMapError::FrameAllocationFailed)
                && final(alloc).free_frames().is_empty(),
    {
        if self.find_table(level, prefix) {
            assert(taken(*old(alloc), *alloc) =~= Set::empty());
            return Ok(());
        }
        assert(!self.has_table(level, prefix));
        let ghost old_self = *self;
        match alloc.allocate_frame() {
            None => {
                assert(taken(*old(alloc), *alloc) =~= Set::empty());
                Err(SnMapError::FrameAllocationFailed)
            },
            Some(frame) => {
                let t = SnTableRef { level, prefix, frame };
                self.tables.push(t);
                proof {
                    let n = old(alloc).frame_index(frame as int);
                    assert(taken(*old(alloc), *alloc) =~= set![n]);
                    let last = self.tables@.len() - 1;
                    assert(self.table_seq()[last] == t);
                    assert(self.table_frames().contains(frame));
                    assert forall|i: int, j: int|
                        0 <= i < j < self.tables@.len() implies !(#[trigger] self.tables@[i].level
                        == #[trigger] self.tables@[j].level && self.tables@[i].prefix
                        == self.tables@[j].prefix) by {
                        if j == last {
                            assert(!old_self.has_table(level, prefix));
                            assert(old_self.table_seq()[i] == self.tables@[i]);
                        } else {
                            assert(old_self.tables@[i] == self.tables@[i]);
                            assert(old_self.tables@[j] == self.tables@[j]);
                        }
                    }
                    assert forall|f: u64| #[trigger] self.table_frames().contains(f) implies old_self.table_frames().contains(
                        f,
                    ) || exists|m: int|
                        #[trigger] taken(*old(alloc), *alloc).contains(m) && old(alloc).frame_address(m) == f by {
                        if f != self.l4_phys {
                            let i = choose|i: int|
                                0 <= i < self.table_seq().len() && (#[trigger] self.table_seq()[i]).frame == f;
                            if i < last {
                                assert(old_self.table_seq()[i].frame == f);
                            } else {
                                assert(taken(*old(alloc), *alloc).contains(n));
                            }
                        }
                    }
                    assert forall|l: u8, p: u64| #[trigger] old_self.has_table(l, p) implies self.has_table(
                        l,
                        p,
                    ) by {
                        let i = choose|i: int|
                            0 <= i < old_self.table_seq().len() && (#[trigger] old_self.table_seq()[i]).level
                                == l && old_self.table_seq()[i].prefix == p;
                        assert(self.table_seq()[i] == old_self.table_seq()[i]);
                    }
                    assert(self.table_seq()[last].level == level && self.table_seq()[last].prefix == prefix);
                    assert forall|f: u64| #[trigger] old_self.table_frames().contains(f) implies self.table_frames().contains(f) by {
                        if f != self.l4_phys {
                            let i = choose|i: int|
                                0 <= i < old_self.table_seq().len() && (#[trigger] old_self.table_seq()[i]).frame == f;
                            assert(self.table_seq()[i] == old_self.table_seq()[i]);
                        }
                    }
                }
                Ok(())
            },
        }
    }

    /// Maps `page` to `frame` with `flags`, creating the tables on its path.
    pub fn map_page(
        &mut self,
        alloc: &mut SnLimineFrameAllocator,
        page: u64,
        frame: u64,
        flags: SnPageFlags,
    ) -> (r: Result<(), SnMapError>)
        requires
            old(self).wf(),
            old(alloc).wf(),
            flags.user_accessible ==> !old(self).user_frames().contains(frame),
        ensures
            final(self).wf(),
            final(alloc).wf(),
            final(alloc).memory_map() == old(alloc).memory_map(),
            final(alloc).base() == old(alloc).base(),
            final(alloc).frame_count() == old(alloc).frame_count(),
            final(alloc).hhdm() == old(alloc).hhdm(),
            final(self).l4() == old(self).l4(),
            final(alloc).free_frames().subset_of(old(alloc).free_frames()),
            forall|n: int|
                #[trigger] taken(*old(alloc), *final(alloc)).contains(n) ==> final(self).table_frames().contains(
                    old(alloc).frame_address(n) as u64,
                ),
            forall|f: u64|
                #[trigger] final(self).table_frames().contains(f) ==> old(self).table_frames().contains(f)
                    || exists|n: int|
                    #[trigger] taken(*old(alloc), *final(alloc)).contains(n) && old(alloc).frame_address(n) == f,
            old(self).mapping(page) is Some ==> r == Err::<(), SnMapError>(
                SnMapError::PageAlreadyMapped,
            ),
            r is Ok ==> final(self).mapping(page) == Some(SnMapping { page, frame, flags }),
            r is Ok ==> forall|p: u64| p != page ==> #[trigger] final(self).mapping(p) == old(self).mapping(p),
            r is Err ==> forall|p: u64| #[trigger] final(self).mapping(p) == old(self).mapping(p),
            r == Err::<(), SnMapError>(SnMapError::FrameAllocationFailed)
                ==> final(alloc).free_frames().is_empty(),
            r != Err::<(), SnMapError>(SnMapError::FrameAllocationFailed) ==> (r is Ok
                <==> old(self).mapping(page) is None),
            forall|f: u64|
                #[trigger] final(self).user_frames().contains(f) ==> old(self).user_frames().contains(f)
                    || (r is Ok && flags.user_accessible && f == frame),
            forall|f: u64|
                #[trigger] old(self).user_frames().contains(f) ==> final(self).user_frames().contains(f),
            forall|l: u8, p: u64| #[trigger] old(self).has_table(l, p) ==> final(self).has_table(l, p),
            r is Ok ==> final(self).has_table(1, table_prefix(1, page)),
    {
        if self.find_leaf(page).is_some() {
            assert(taken(*old(alloc), *alloc) =~= Set::empty());
            return Err(SnMapError::PageAlreadyMapped);
        }
        let ghost s0 = *self;
        let ghost a0 = *alloc;
        let top_prefix = prefix_of(3, page);
        let top = self.ensure_table(alloc, 3, top_prefix);
        let ghost s1 = *self;
        let ghost a1 = *alloc;
        if top.is_err() {
            proof {
                assert(self.leaf_seq() == s0.leaf_seq());
            }
            return Err(SnMapError::FrameAllocationFailed);
        }
        let mid_prefix = prefix_of(2, page);
        let mid = self.ensure_table(alloc, 2, mid_prefix);
        let ghost s2 = *self;
        let ghost a2 = *alloc;
        proof {
            assert forall|n: int| #[trigger] taken(a0, a2).contains(n) implies s2.table_frames().contains(
                a0.frame_address(n) as u64,
            ) by {
                if taken(a0, a1).contains(n) {
                    assert(s1.table_frames().contains(a0.frame_address(n) as u64));
                } else {
                    assert(taken(a1, a2).contains(n));
                }
            }
            assert forall|f: u64| #[trigger] s2.table_frames().contains(f) implies s0.table_frames().contains(f)
                || exists|n: int| #[trigger] taken(a0, a2).contains(n) && a0.frame_address(n) == f by {
                if !s1.table_frames().contains(f) {
                    let n = choose|n: int| #[trigger] taken(a1, a2).contains(n) && a1.frame_address(n) == f;
                    assert(taken(a0, a2).contains(n));
                } else if !s0.table_frames().contains(f) {
                    let n = choose|n: int| #[trigger] taken(a0, a1).contains(n) && a0.frame_address(n) == f;
                    assert(taken(a0, a2).contains(n));
                }
            }
        }
        if mid.is_err() {
            assert forall|l: u8, p: u64| #[trigger] s0.has_table(l, p) implies self.has_table(l, p) by {
                assert(s1.has_table(l, p));
            }
            return Err(SnMapError::FrameAllocationFailed);
        }
        let low_prefix = prefix_of(1, page);
        let low = self.ensure_table(alloc, 1, low_prefix);
        let ghost s3 = *self;
        let ghost a3 = *alloc;
        proof {
            assert forall|n: int| #[trigger] taken(a0, a3).contains(n) implies s3.table_frames().contains(
                a0.frame_address(n) as u64,
            ) by {
                if taken(a0, a2).contains(n) {
                    assert(s2.table_frames().contains(a0.frame_address(n) as u64));
                } else {
                    assert(taken(a2, a3).contains(n));
                }
            }
            assert forall|f: u64| #[trigger] s3.table_frames().contains(f) implies s0.table_frames().contains(f)
                || exists|n: int| #[trigger] taken(a0, a3).contains(n) && a0.frame_address(n) == f by {
                if !s2.table_frames().contains(f) {
                    let n = choose|n: int| #[trigger] taken(a2, a3).contains(n) && a2.frame_address(n) == f;
                    assert(taken(a0, a3).contains(n));
                } else if !s0.table_frames().contains(f) {
                    let n = choose|n: int| #[trigger] taken(a0, a2).contains(n) && a0.frame_address(n) == f;
                    assert(taken(a0, a3).contains(n));
                }
            }
        }
        if low.is_err() {
            assert forall|l: u8, p: u64| #[trigger] s0.has_table(l, p) implies self.has_table(l, p) by {
                assert(s1.has_table(l, p));
                assert(s2.has_table(l, p));
            }
            return Err(SnMapError::FrameAllocationFailed);
        }
        let m = SnMapping { page, frame, flags };
        self.leaves.push(m);
        proof {
            let last = self.leaves@.len() - 1;
            self.lemma_same_tables(s3);
            assert forall|l: u8, p: u64| #[trigger] s0.has_table(l, p) implies self.has_table(l, p) by {
                assert(s1.has_table(l, p));
                assert(s2.has_table(l, p));
                assert(s3.has_table(l, p));
            }
            assert(self.has_table(1, low_prefix));
            assert forall|i: int| 0 <= i < self.leaves@.len() implies self.has_table(
                1,
                table_prefix(1, (#[trigger] self.leaves@[i]).page),
            ) by {
                if i < last {
                    assert(self.leaves@[i] == s0.leaves@[i]);
                }
            }
            assert forall|i: int, j: int|
                0 <= i < self.leaves@.len() && 0 <= j < self.leaves@.len() && i != j
                    && self.leaves@[i].flags.user_accessible && self.leaves@[j].flags.user_accessible implies #[trigger] self.leaves@[i].frame
                != #[trigger] self.leaves@[j].frame by {
                if i == last {
                    assert(self.leaves@[j] == s0.leaves@[j]);
                    assert(s0.leaf_seq()[j].frame == self.leaves@[j].frame);
                    assert(s0.user_frames().contains(self.leaves@[j].frame));
                } else if j == last {
                    assert(self.leaves@[i] == s0.leaves@[i]);
                    assert(s0.leaf_seq()[i].frame == self.leaves@[i].frame);
                    assert(s0.user_frames().contains(self.leaves@[i].frame));
                } else {
                    assert(self.leaves@[i] == s0.leaves@[i]);
                    assert(self.leaves@[j] == s0.leaves@[j]);
                }
            }
            assert forall|i: int, j: int|
                0 <= i < j < self.leaves@.len() implies #[trigger] self.leaves@[i].page
                != #[trigger] self.leaves@[j].page by {
                assert(self.leaves@[i] == s0.leaves@[i]);
                if j < last {
                    assert(self.leaves@[j] == s0.leaves@[j]);
                } else {
                    assert(s0.leaf_seq()[i].page != page);
                }
            }
            self.lemma_mapping_at(last);
            assert forall|p: u64| p != page implies #[trigger] self.mapping(p) == s0.mapping(p) by {
                if s0.mapping(p) is Some {
                    let i = choose|i: int|
                        0 <= i < s0.leaf_seq().len() && (#[trigger] s0.leaf_seq()[i]).page == p;
                    s0.lemma_mapping_at(i);
                    self.lemma_mapping_at(i);
                } else {
                    if self.mapping(p) is Some {
                        let i = choose|i: int|
                            0 <= i < self.leaf_seq().len() && (#[trigger] self.leaf_seq()[i]).page == p;
                        assert(s0.leaf_seq()[i].page == p);
                    }
                }
            }
            assert forall|f: u64| #[trigger] self.user_frames().contains(f) implies s0.user_frames().contains(f)
                || (flags.user_accessible && f == frame) by {
                let i = choose|i: int|
                    0 <= i < self.leaf_seq().len() && (#[trigger] self.leaf_seq()[i]).frame == f
                        && self.leaf_seq()[i].flags.user_accessible;
                if i < last {
                    assert(s0.leaf_seq()[i] == self.leaf_seq()[i]);
                }
            }
            assert forall|f: u64| #[trigger] s0.user_frames().contains(f) implies self.user_frames().contains(f) by {
                let i = choose|i: int|
                    0 <= i < s0.leaf_seq().len() && (#[trigger] s0.leaf_seq()[i]).frame == f
                        && s0.leaf_seq()[i].flags.user_accessible;
                assert(self.leaf_seq()[i] == s0.leaf_seq()[i]);
            }
            assert(self.table_frames() == s3.table_frames());
            assert forall|l: u8, p: u64| #[trigger] s0.has_table(l, p) implies self.has_table(l, p) by {
                assert(s1.has_table(l, p));
                assert(s2.has_table(l, p));
                assert(s3.has_table(l, p));
            }
            assert(s3.has_table(1, low_prefix));
        }
        Ok(())
    }

    /// Removes the mapping of `page` and returns what it was.
    pub fn unmap_page(&mut self, page: u64) -> (r: Result<SnMapping, SnMapError>)
        requires
            old(self).wf(),
        ensures
            final(self).wf(),
            final(self).l4() == old(self).l4(),
            final(self).table_seq() == old(self).table_seq(),
            r matches Ok(m) ==> old(self).mapping(page) == Some(m),
            r is Err <==> old(self).mapping(page) is None,
            r is Err ==> r == Err::<SnMapping, SnMapError>(SnMapError::PageNotMapped),
            final(self).mapping(page) is None,
            forall|p: u64| p != page ==> #[trigger] final(self).mapping(p) == old(self).mapping(p),
            forall|f: u64|
                #[trigger] final(self).user_frames().contains(f) ==> old(self).user_frames().contains(f),
            r matches Ok(m) && !m.flags.user_accessible ==> final(self).user_frames() == old(self).user_frames(),
            r is Err ==> *final(self) == *old(self),
    {
        let ghost s0 = *self;
        match self.find_leaf(page) {
            None => Err(SnMapError::PageNotMapped),
            Some(i) => {
                let m = self.leaves.swap_remove(i);
                proof {
                    let n = s0.leaves@.len();
                    assert forall|a: int, b: int|
                        0 <= a < b < self.leaves@.len() implies #[trigger] self.leaves@[a].page
                        != #[trigger] self.leaves@[b].page by {
                        let oa = if a == i { n - 1 } else { a };
                        let ob = if b == i { n - 1 } else { b };
                        assert(self.leaves@[a] == s0.leaves@[oa]);
                        assert(self.leaves@[b] == s0.leaves@[ob]);
                        if oa < ob {
                            assert(s0.leaves@[oa].page != s0.leaves@[ob].page);
                        } else {
                            assert(s0.leaves@[ob].page != s0.leaves@[oa].page);
                        }
                    }
                    // every remaining leaf came from an old index other than `i`
                    assert forall|a: int| 0 <= a < self.leaves@.len() implies (#[trigger] self.leaves@[a])
                        == s0.leaves@[if a == i { n - 1 } else { a }] && (if a == i { n - 1 } else { a }) != i by {}
                    assert forall|a: int, b: int|
                        0 <= a < self.leaves@.len() && 0 <= b < self.leaves@.len() && a != b
                            && self.leaves@[a].flags.user_accessible && self.leaves@[b].flags.user_accessible implies #[trigger] self.leaves@[a].frame
                        != #[trigger] self.leaves@[b].frame by {
                        let oa = if a == i { n - 1 } else { a };
                        let ob = if b == i { n - 1 } else { b };
                        assert(self.leaves@[a] == s0.leaves@[oa]);
                        assert(self.leaves@[b] == s0.leaves@[ob]);
                    }
                    self.lemma_same_tables(s0);
                    assert forall|a: int| 0 <= a < self.leaves@.len() implies self.has_table(
                        1,
                        table_prefix(1, (#[trigger] self.leaves@[a]).page),
                    ) by {
                        let oa = if a == i { n - 1 } else { a };
                        assert(self.leaves@[a] == s0.leaves@[oa]);
                        assert(s0.has_table(1, table_prefix(1, s0.leaves@[oa].page)));
                    }
                    if self.mapping(page) is Some {
                        let a = choose|a: int|
                            0 <= a < self.leaf_seq().len() && (#[trigger] self.leaf_seq()[a]).page == page;
                        let oa = if a == i { n - 1 } else { a };
                        assert(s0.leaves@[oa].page == page);
                        assert(s0.leaves@[i as int].page != s0.leaves@[oa].page || oa == i);
                        if oa < i {
                            assert(s0.leaves@[oa].page != s0.leaves@[i as int].page);
                        } else if oa > i {
                            assert(s0.leaves@[i as int].page != s0.leaves@[oa].page);
                        }
                    }
                    assert forall|p: u64| p != page implies #[trigger] self.mapping(p) == s0.mapping(p) by {
                        if s0.mapping(p) is Some {
                            let b = choose|b: int|
                                0 <= b < s0.leaf_seq().len() && (#[trigger] s0.leaf_seq()[b]).page == p;
                            s0.lemma_mapping_at(b);
                            assert(b != i);
                            let a = if b == n - 1 { i as int } else { b };
                            assert(self.leaf_seq()[a] == s0.leaf_seq()[b]);
                            self.lemma_mapping_at(a);
                        } else if self.mapping(p) is Some {
                            let a = choose|a: int|
                                0 <= a < self.leaf_seq().len() && (#[trigger] self.leaf_seq()[a]).page == p;
                            let oa = if a == i { n - 1 } else { a };
                            assert(s0.leaf_seq()[oa].page == p);
                        }
                    }
                    if !m.flags.user_accessible {
                        assert forall|f: u64| #[trigger] s0.user_frames().contains(f) implies self.user_frames().contains(f) by {
                            let b = choose|b: int|
                                0 <= b < s0.leaf_seq().len() && (#[trigger] s0.leaf_seq()[b]).frame == f
                                    && s0.leaf_seq()[b].flags.user_accessible;
                            assert(b != i);
                            let a = if b == n - 1 { i as int } else { b };
                            assert(self.leaf_seq()[a] == s0.leaf_seq()[b]);
                        }
                    }
                    assert forall|f: u64| #[trigger] self.user_frames().contains(f) implies s0.user_frames().contains(f) by {
                        let a = choose|a: int|
                            0 <= a < self.leaf_seq().len() && (#[trigger] self.leaf_seq()[a]).frame == f
                                && self.leaf_seq()[a].flags.user_accessible;
                        let oa = if a == i { n - 1 } else { a };
                        assert(s0.leaf_seq()[oa] == self.leaf_seq()[a]);
                    }
                }
                Ok(m)
            },
        }
    }

    /// Copies this tree into a new one whose level-4 table is at `new_l4`:
    /// every intermediate table gets a fresh frame and the same place in the
    /// tree, every page keeps its frame and flags.
    pub fn clone_tree(&self, alloc: &mut SnLimineFrameAllocator, new_l4: u64) -> (r: Result<
        SnAddressSpace,
        SnMapError,
    >)
        requires
            self.wf(),
            old(alloc).wf(),
        ensures
            final(alloc).wf(),
            final(alloc).memory_map() == old(alloc).memory_map(),
            final(alloc).base() == old(alloc).base(),
            final(alloc).frame_count() == old(alloc).frame_count(),
            final(alloc).hhdm() == old(alloc).hhdm(),
            final(alloc).free_frames().subset_of(old(alloc).free_frames()),
            r matches Ok(c) ==> {
                &&& c.wf()
                &&& c.l4() == new_l4
                &&& forall|p: u64| #[trigger] c.mapping(p) == self.mapping(p)
                &&& forall|l: u8, p: u64| #[trigger] c.has_table(l, p) == self.has_table(l, p)
                &&& c.user_frames() == self.user_frames()
                &&& forall|n: int|
                    #[trigger] taken(*old(alloc), *final(alloc)).contains(n) ==> c.table_frames().contains(
                        old(alloc).frame_address(n) as u64,
                    )
                &&& forall|f: u64|
                    #[trigger] c.table_frames().contains(f) ==> f == new_l4 || exists|n: int|
                        #[trigger] taken(*old(alloc), *final(alloc)).contains(n) && old(alloc).frame_address(n)
                            == f
            },
            r is Err ==> r == Err::<SnAddressSpace, SnMapError>(SnMapError::FrameAllocationFailed)
                && final(alloc).free_frames().is_empty(),
    {
        let ghost a0 = *alloc;
        let mut leaves: Vec<SnMapping> = Vec::new();
        let mut i: usize = 0;
        while i < self.leaves.len()
            invariant
                i <= self.leaves@.len(),
                leaves@ == self.leaves@.subrange(0, i as int),
            decreases self.leaves@.len() - i,
        {
            leaves.push(self.leaves[i]);
            i = i + 1;
            assert(leaves@ =~= self.leaves@.subrange(0, i as int));
        }
        assert(leaves@ =~= self.leaves@);
        let mut tables: Vec<SnTableRef> = Vec::new();
        let mut k: usize = 0;
        while k < self.tables.len()
            invariant
                k <= self.tables@.len(),
                tables@.len() == k,
                alloc.wf(),
                alloc.memory_map() == a0.memory_map(),
                alloc.base() == a0.base(),
                alloc.frame_count() == a0.frame_count(),
                alloc.hhdm() == a0.hhdm(),
                alloc.free_frames().subset_of(a0.free_frames()),
                a0 == *old(alloc),
                forall|j: int|
                    0 <= j < k ==> (#[trigger] tables@[j]).level == self.tables@[j].level
                        && tables@[j].prefix == self.tables@[j].prefix,
                forall|n: int|
                    #[trigger] taken(a0, *alloc).contains(n) ==> exists|j: int|
                        0 <= j < k && (#[trigger] tables@[j]).frame == a0.frame_address(n),
                forall|j: int|
                    0 <= j < k ==> #[trigger] taken(a0, *alloc).contains(
                        a0.frame_index(tables@[j].frame as int),
                    ) && a0.frame_address(a0.frame_index(tables@[j].frame as int)) == tables@[j].frame,
            decreases self.tables@.len() - k,
        {
            let ghost ak = *alloc;
            match alloc.allocate_frame() {
                None => {
                    return Err(SnMapError::FrameAllocationFailed);
                },
                Some(frame) => {
                    let t = self.tables[k];
                    let ghost tk = tables@;
                    tables.push(SnTableRef { level: t.level, prefix: t.prefix, frame });
                    proof {
                        let n = ak.frame_index(frame as int);
                        assert(taken(a0, *alloc) =~= taken(a0, ak).insert(n));
                        assert forall|j: int| 0 <= j < k + 1 implies #[trigger] taken(a0, *alloc).contains(
                            a0.frame_index(tables@[j].frame as int),
                        ) && a0.frame_address(a0.frame_index(tables@[j].frame as int)) == tables@[j].frame by {
                            if j < k {
                                assert(tables@[j] == tk[j]);
                            }
                        }
                        assert forall|m: int| #[trigger] taken(a0, *alloc).contains(m) implies exists|j: int|
                            0 <= j < k + 1 && (#[trigger] tables@[j]).frame == a0.frame_address(m) by {
                            if m == n {
                                assert(tables@[k as int].frame == a0.frame_address(m));
                            } else {
                                let j = choose|j: int|
                                    0 <= j < k && (#[trigger] tk[j]).frame == a0.frame_address(m);
                                assert(tables@[j] == tk[j]);
                            }
                        }
                    }
                },
            }
            k = k + 1;
        }
        let c = SnAddressSpace { l4_phys: new_l4, tables, leaves };
        proof {
            assert forall|l: u8, p: u64| #[trigger] c.has_table(l, p) == self.has_table(l, p) by {
                if c.has_table(l, p) {
                    let j = choose|j: int|
                        0 <= j < c.table_seq().len() && (#[trigger] c.table_seq()[j]).level == l
                            && c.table_seq()[j].prefix == p;
                    assert(self.table_seq()[j].level == l);
                }
                if self.has_table(l, p) {
                    let j = choose|j: int|
                        0 <= j < self.table_seq().len() && (#[trigger] self.table_seq()[j]).level == l
                            && self.table_seq()[j].prefix == p;
                    assert(c.table_seq()[j].level == l);
                }
            }
            assert forall|a: int, b: int|
                0 <= a < b < c.tables@.len() implies !(#[trigger] c.tables@[a].level
                == #[trigger] c.tables@[b].level && c.tables@[a].prefix == c.tables@[b].prefix) by {
                assert(!(self.tables@[a].level == self.tables@[b].level && self.tables@[a].prefix
                    == self.tables@[b].prefix));
            }
            assert(c.user_frames() =~= self.user_frames());
            assert forall|n: int| #[trigger] taken(a0, *alloc).contains(n) implies c.table_frames().contains(
                a0.frame_address(n) as u64,
            ) by {
                let j = choose|j: int| 0 <= j < k && (#[trigger] c.tables@[j]).frame == a0.frame_address(n);
                assert(c.table_seq()[j].frame == a0.frame_address(n) as u64);
            }
            assert forall|f: u64| #[trigger] c.table_frames().contains(f) implies f == new_l4 || exists|n: int|
                #[trigger] taken(a0, *alloc).contains(n) && a0.frame_address(n) == f by {
                if f != new_l4 {
                    let j = choose|j: int| 0 <= j < c.table_seq().len() && (#[trigger] c.table_seq()[j]).frame == f;
                    assert(taken(a0, *alloc).contains(a0.frame_index(c.tables@[j].frame as int)));
                }
            }
        }
        Ok(c)
    }

    /// Tells whether a user-accessible page of this tree maps `frame`.
    pub fn has_user_frame(&self, frame: u64) -> (r: bool)
        ensures
            r == self.user_frames().contains(frame),
    {
        let mut i: usize = 0;
        while i < self.leaves.len()
            invariant
                i <= self.leaves@.len(),
                forall|j: int|
                    0 <= j < i ==> !((#[trigger] self.leaves@[j]).frame == frame
                        && self.leaves@[j].flags.user_accessible),
            decreases self.leaves@.len() - i,
        {
            if self.leaves[i].frame == frame && self.leaves[i].flags.user_accessible {
                assert(self.leaf_seq()[i as int] == self.leaves@[i as int]);
                return true;
            }
            i = i + 1;
        }
        false
    }

    /// The frames that releasing this tree gives back: those of its tables and
    /// of its user-accessible pages that `shared` does not map as well.
    pub open spec fn gives_back(self, shared: SnAddressSpace, f: u64) -> bool {
        ||| self.table_frames().contains(f)
        ||| self.user_frames().contains(f) && !shared.user_frames().contains(f)
    }

    /// The allocator's numbers of the frames that releasing this tree gives back.
    pub open spec fn released(self, shared: SnAddressSpace, a: SnLimineFrameAllocator) -> Set<int> {
        Set::new(
            |n: int|
                exists|f: u64|
                    self.gives_back(shared, f) && a.manages(f as int) && #[trigger] a.frame_index(f as int)
                        == n,
        )
    }

    /// Gives back to the allocator the frames of the user-accessible pages of
    /// this tree that `shared` does not map, then the frames of its tables.
    pub fn release(self, shared: &SnAddressSpace, alloc: &mut SnLimineFrameAllocator)
        requires
            self.wf(),
            old(alloc).wf(),
        ensures
            final(alloc).wf(),
            final(alloc).memory_map() == old(alloc).memory_map(),
            final(alloc).base() == old(alloc).base(),
            final(alloc).frame_count() == old(alloc).frame_count(),
            final(alloc).hhdm() == old(alloc).hhdm(),
            final(alloc).free_frames() == old(alloc).free_frames().union(self.released(*shared, *old(alloc))),
    {
        let ghost a0 = *alloc;
        let mut i: usize = 0;
        while i < self.leaves.len()
            invariant
                i <= self.leaves@.len(),
                alloc.wf(),
                alloc.memory_map() == a0.memory_map(),
                alloc.base() == a0.base(),
                alloc.frame_count() == a0.frame_count(),
                alloc.hhdm() == a0.hhdm(),
                alloc.free_frames() == a0.free_frames().union(
                    Set::new(
                        |n: int|
                            exists|j: int|
                                0 <= j < i && (#[trigger] self.leaves@[j]).flags.user_accessible
                                    && !shared.user_frames().contains(self.leaves@[j].frame)
                                    && a0.manages(self.leaves@[j].frame as int) && a0.frame_index(
                                    self.leaves@[j].frame as int,
                                ) == n,
                    ),
                ),
            decreases self.leaves@.len() - i,
        {
            let m = self.leaves[i];
            if m.flags.user_accessible && !shared.has_user_frame(m.frame) && alloc.manages_frame(m.frame) {
                alloc.deallocate_frame(m.frame);
            }
            i = i + 1;
            proof {
                assert(alloc.free_frames() =~= a0.free_frames().union(
                    Set::new(
                        |n: int|
                            exists|j: int|
                                0 <= j < i && (#[trigger] self.leaves@[j]).flags.user_accessible
                                    && !shared.user_frames().contains(self.leaves@[j].frame)
                                    && a0.manages(self.leaves@[j].frame as int) && a0.frame_index(
                                    self.leaves@[j].frame as int,
                                ) == n,
                    ),
                ));
            }
        }
        let mut k: usize = 0;
        while k < self.tables.len()
            invariant
                k <= self.tables@.len(),
                alloc.wf(),
                alloc.memory_map() == a0.memory_map(),
                alloc.base() == a0.base(),
                alloc.frame_count() == a0.frame_count(),
                alloc.hhdm() == a0.hhdm(),
                alloc.free_frames() == a0.free_frames().union(
                    Set::new(
                        |n: int|
                            exists|j: int|
                                0 <= j < self.leaves@.len() && (#[trigger] self.leaves@[j]).flags.user_accessible
                                    && !shared.user_frames().contains(self.leaves@[j].frame)
                                    && a0.manages(self.leaves@[j].frame as int) && a0.frame_index(
                                    self.leaves@[j].frame as int,
                                ) == n,
                    ),
                ).union(
                    Set::new(
                        |n: int|
                            exists|j: int|
                                0 <= j < k && a0.manages((#[trigger] self.tables@[j]).frame as int)
                                    && a0.frame_index(self.tables@[j].frame as int) == n,
                    ),
                ),
            decreases self.tables@.len() - k,
        {
            let t = self.tables[k];
            if alloc.manages_frame(t.frame) {
                alloc.deallocate_frame(t.frame);
            }
            k = k + 1;
            proof {
                assert(alloc.free_frames() =~= a0.free_frames().union(
                    Set::new(
                        |n: int|
                            exists|j: int|
                                0 <= j < self.leaves@.len() && (#[trigger] self.leaves@[j]).flags.user_accessible
                                    && !shared.user_frames().contains(self.leaves@[j].frame)
                                    && a0.manages(self.leaves@[j].frame as int) && a0.frame_index(
                                    self.leaves@[j].frame as int,
                                ) == n,
                    ),
                ).union(
                    Set::new(
                        |n: int|
                            exists|j: int|
                                0 <= j < k && a0.manages((#[trigger] self.tables@[j]).frame as int)
                                    && a0.frame_index(self.tables@[j].frame as int) == n,
                    ),
                ));
            }
        }
        let ghost a1 = *alloc;
        if alloc.manages_frame(self.l4_phys) {
            alloc.deallocate_frame(self.l4_phys);
        }
        proof {
            let s = self.released(*shared, a0);
            assert forall|n: int| #[trigger] s.contains(n) implies alloc.free_frames().contains(n) by {
                let f = choose|f: u64|
                    self.gives_back(*shared, f) && a0.manages(f as int) && #[trigger] a0.frame_index(f as int)
                        == n;
                if self.user_frames().contains(f) && !shared.user_frames().contains(f) {
                    let j = choose|j: int|
                        0 <= j < self.leaf_seq().len() && (#[trigger] self.leaf_seq()[j]).frame == f
                            && self.leaf_seq()[j].flags.user_accessible;
                    assert(self.leaves@[j].frame == f);
                    assert(a1.free_frames().contains(n));
                } else if f != self.l4_phys {
                    let j = choose|j: int|
                        0 <= j < self.table_seq().len() && (#[trigger] self.table_seq()[j]).frame == f;
                    assert(self.tables@[j].frame == f);
                    assert(a1.free_frames().contains(n));
                }
            }
            assert forall|n: int| #[trigger] alloc.free_frames().contains(n) implies a0.free_frames().contains(n)
                || s.contains(n) by {
                if !a0.free_frames().contains(n) {
                    if a1.free_frames().contains(n) {
                        if exists|j: int|
                            0 <= j < self.leaves@.len() && (#[trigger] self.leaves@[j]).flags.user_accessible
                                && !shared.user_frames().contains(self.leaves@[j].frame)
                                && a0.manages(self.leaves@[j].frame as int) && a0.frame_index(
                                self.leaves@[j].frame as int,
                            ) == n {
                            let j = choose|j: int|
                                0 <= j < self.leaves@.len() && (#[trigger] self.leaves@[j]).flags.user_accessible
                                    && !shared.user_frames().contains(self.leaves@[j].frame)
                                    && a0.manages(self.leaves@[j].frame as int) && a0.frame_index(
                                    self.leaves@[j].frame as int,
                                ) == n;
                            let f = self.leaves@[j].frame;
                            assert(self.leaf_seq()[j].frame == f);
                            assert(self.user_frames().contains(f));
                        } else {
                            let j = choose|j: int|
                                0 <= j < self.tables@.len() && a0.manages((#[trigger] self.tables@[j]).frame as int)
                                    && a0.frame_index(self.tables@[j].frame as int) == n;
                            let f = self.tables@[j].frame;
                            assert(self.table_seq()[j].frame == f);
                            assert(self.table_frames().contains(f));
                        }
                    } else {
                        assert(self.table_frames().contains(self.l4_phys));
                        assert(a0.manages(self.l4_phys as int) && a0.frame_index(self.l4_phys as int) == n);
                    }
                }
            }
            assert(alloc.free_frames() =~= a0.free_frames().union(s));
        }
    }
}

} // verus!
