//! The virtual memory manager: the kernel's page-table tree, the user trees
//! cloned from it, the table the CPU walks (its control register), and the
//! frame allocator they all draw from.
use vstd::prelude::*;
use crate::address_space::{taken, SnAddressSpace, SnMapError, SnMapping, SnPageFlags};
use crate::frame_alloc::SnLimineFrameAllocator;
use crate::memory::{page_containing, page_of, SnPhysAddr, SnVirtAddr};

verus! {

/// `f` holds a table of the kernel's tree or of one of `spaces`.
pub open spec fn table_frame_of(kernel: SnAddressSpace, spaces: Seq<SnAddressSpace>, f: u64) -> bool {
    ||| kernel.table_frames().contains(f)
    ||| exists|i: int| 0 <= i < spaces.len() && #[trigger] spaces[i].table_frames().contains(f)
}

/// A user-accessible page of the kernel's tree or of one of `spaces` maps `f`.
pub open spec fn user_frame_of(kernel: SnAddressSpace, spaces: Seq<SnAddressSpace>, f: u64) -> bool {
    ||| kernel.user_frames().contains(f)
    ||| exists|i: int| 0 <= i < spaces.len() && #[trigger] spaces[i].user_frames().contains(f)
}

/// The frames the trees own are taken out of the allocator, no table frame
/// belongs to two trees or is mapped by a user page, and two user trees
/// share a user page's frame only through the kernel's tree.
pub open spec fn owns(a: SnLimineFrameAllocator, kernel: SnAddressSpace, spaces: Seq<SnAddressSpace>) -> bool {
    &&& forall|f: u64|
        (table_frame_of(kernel, spaces, f) || user_frame_of(kernel, spaces, f)) && #[trigger] a.manages(
            f as int,
        ) ==> !a.free_frames().contains(a.frame_index(f as int))
    &&& forall|i: int, f: u64|
        0 <= i < spaces.len() && #[trigger] spaces[i].table_frames().contains(f) && a.manages(f as int)
            ==> !kernel.table_frames().contains(f)
    &&& forall|i: int, j: int, f: u64|
        0 <= i < spaces.len() && 0 <= j < spaces.len() && i != j
            && #[trigger] spaces[i].table_frames().contains(f)
            && #[trigger] spaces[j].table_frames().contains(f) ==> !a.manages(f as int)
    &&& forall|f: u64|
        #[trigger] a.manages(f as int) && table_frame_of(kernel, spaces, f) ==> !user_frame_of(
            kernel,
            spaces,
            f,
        )
    &&& forall|i: int, j: int, f: u64|
        0 <= i < spaces.len() && 0 <= j < spaces.len() && i != j
            && #[trigger] spaces[i].user_frames().contains(f)
            && #[trigger] spaces[j].user_frames().contains(f) && a.manages(f as int)
            ==> kernel.user_frames().contains(f)
}

/// Frames added to a tree are either frames just taken from the allocator or,
/// for a user page, one frame `nf` that the allocator does not hold and no
/// tree uses.
pub open spec fn grows_from(
    a: SnLimineFrameAllocator,
    a2: SnLimineFrameAllocator,
    before: SnAddressSpace,
    after: SnAddressSpace,
    nf: Option<u64>,
) -> bool {
    &&& forall|f: u64|
        #[trigger] after.table_frames().contains(f) ==> before.table_frames().contains(f) || exists|n: int|
            #[trigger] taken(a, a2).contains(n) && a.frame_address(n) == f
    &&& forall|f: u64|
        #[trigger] after.user_frames().contains(f) ==> before.user_frames().contains(f) || nf == Some(f)
    &&& forall|f: u64| #[trigger] before.user_frames().contains(f) ==> after.user_frames().contains(f)
}

pub open spec fn fresh_frame(
    a: SnLimineFrameAllocator,
    kernel: SnAddressSpace,
    spaces: Seq<SnAddressSpace>,
    nf: Option<u64>,
) -> bool {
    nf matches Some(u) ==> {
        &&& a.manages(u as int)
        &&& !a.free_frames().contains(a.frame_index(u as int))
        &&& !table_frame_of(kernel, spaces, u)
        &&& !user_frame_of(kernel, spaces, u)
    }
}

proof fn lemma_taken_frame(a: SnLimineFrameAllocator, a2: SnLimineFrameAllocator, f: u64) -> (n: int)
    requires
        a.wf(),
        exists|n: int| #[trigger] taken(a, a2).contains(n) && a.frame_address(n) == f,
    ensures
        taken(a, a2).contains(n),
        a.frame_address(n) == f,
        a.manages(f as int),
        a.frame_index(f as int) == n,
        a.free_frames().contains(n),
        !a2.free_frames().contains(n),
{
    let n = choose|n: int| #[trigger] taken(a, a2).contains(n) && a.frame_address(n) == f;
    a.lemma_free_frame_managed(n);
    n
}

/// Growing one user tree as `grows_from` says keeps the ownership invariant.
proof fn lemma_owns_user_step(
    a: SnLimineFrameAllocator,
    a2: SnLimineFrameAllocator,
    k: SnAddressSpace,
    sp: Seq<SnAddressSpace>,
    sp2: Seq<SnAddressSpace>,
    i: int,
    nf: Option<u64>,
)
    requires
        owns(a, k, sp),
        a.wf(),
        a2.base() == a.base(),
        a2.frame_count() == a.frame_count(),
        a2.free_frames().subset_of(a.free_frames()),
        0 <= i < sp.len(),
        sp2 == sp.update(i, sp2[i]),
        grows_from(a, a2, sp[i], sp2[i], nf),
        fresh_frame(a, k, sp, nf),
    ensures
        owns(a2, k, sp2),
{
    assert forall|f: u64|
        (table_frame_of(k, sp2, f) || user_frame_of(k, sp2, f)) && #[trigger] a2.manages(f as int) implies !a2.free_frames().contains(
        a2.frame_index(f as int),
    ) by {
        assert(a.manages(f as int));
        if table_frame_of(k, sp, f) || user_frame_of(k, sp, f) {
        } else if nf == Some(f) {
        } else {
            if table_frame_of(k, sp2, f) {
                let j = choose|j: int| 0 <= j < sp2.len() && #[trigger] sp2[j].table_frames().contains(f);
                if j != i {
                    assert(sp[j] == sp2[j]);
                } else if !sp[i].table_frames().contains(f) {
                    lemma_taken_frame(a, a2, f);
                }
            } else {
                let j = choose|j: int| 0 <= j < sp2.len() && #[trigger] sp2[j].user_frames().contains(f);
                if j != i {
                    assert(sp[j] == sp2[j]);
                }
            }
        }
    }
    assert forall|j: int, f: u64|
        0 <= j < sp2.len() && #[trigger] sp2[j].table_frames().contains(f) && a2.manages(f as int) implies !k.table_frames().contains(
        f,
    ) by {
        if j != i || sp[i].table_frames().contains(f) {
            assert(sp[j].table_frames().contains(f));
        } else {
            let n = lemma_taken_frame(a, a2, f);
        }
    }
    assert forall|j: int, l: int, f: u64|
        0 <= j < sp2.len() && 0 <= l < sp2.len() && j != l && #[trigger] sp2[j].table_frames().contains(f)
            && #[trigger] sp2[l].table_frames().contains(f) implies !a2.manages(f as int) by {
        if a2.manages(f as int) {
            if j == i && !sp[i].table_frames().contains(f) {
                let n = lemma_taken_frame(a, a2, f);
                assert(sp[l] == sp2[l]);
                assert(table_frame_of(k, sp, f));
            } else if l == i && !sp[i].table_frames().contains(f) {
                let n = lemma_taken_frame(a, a2, f);
                assert(sp[j] == sp2[j]);
                assert(table_frame_of(k, sp, f));
            } else {
                assert(sp[j].table_frames().contains(f));
                assert(sp[l].table_frames().contains(f));
            }
        }
    }
    assert forall|f: u64|
        #[trigger] a2.manages(f as int) && table_frame_of(k, sp2, f) implies !user_frame_of(k, sp2, f) by {
        assert(a.manages(f as int));
        if let Some(u) = nf {
            assert(a.manages(u as int));
        }
        let new_table = !table_frame_of(k, sp, f);
        if new_table {
            let j = choose|j: int| 0 <= j < sp2.len() && #[trigger] sp2[j].table_frames().contains(f);
            if j != i {
                assert(sp[j] == sp2[j]);
            }
            let n = lemma_taken_frame(a, a2, f);
            if user_frame_of(k, sp2, f) {
                if !user_frame_of(k, sp, f) {
                    let l = choose|l: int| 0 <= l < sp2.len() && #[trigger] sp2[l].user_frames().contains(f);
                    if l != i {
                        assert(sp[l] == sp2[l]);
                    }
                    assert(nf == Some(f));
                }
            }
        } else {
            if user_frame_of(k, sp2, f) && !user_frame_of(k, sp, f) {
                let l = choose|l: int| 0 <= l < sp2.len() && #[trigger] sp2[l].user_frames().contains(f);
                if l != i {
                    assert(sp[l] == sp2[l]);
                }
                assert(nf == Some(f));
            }
        }
    }
    assert forall|j: int, l: int, f: u64|
        0 <= j < sp2.len() && 0 <= l < sp2.len() && j != l && #[trigger] sp2[j].user_frames().contains(f)
            && #[trigger] sp2[l].user_frames().contains(f) && a2.manages(f as int) implies k.user_frames().contains(
        f,
    ) by {
        if j == i && !sp[i].user_frames().contains(f) {
            assert(sp[l] == sp2[l]);
            assert(user_frame_of(k, sp, f));
        } else if l == i && !sp[i].user_frames().contains(f) {
            assert(sp[j] == sp2[j]);
            assert(user_frame_of(k, sp, f));
        } else {
            assert(sp[j].user_frames().contains(f));
            assert(sp[l].user_frames().contains(f));
        }
    }
}

/// Growing the kernel's tree as `grows_from` says keeps the ownership invariant.
proof fn lemma_owns_kernel_step(
    a: SnLimineFrameAllocator,
    a2: SnLimineFrameAllocator,
    k: SnAddressSpace,
    k2: SnAddressSpace,
    sp: Seq<SnAddressSpace>,
    nf: Option<u64>,
)
    requires
        owns(a, k, sp),
        a.wf(),
        a2.base() == a.base(),
        a2.frame_count() == a.frame_count(),
        a2.free_frames().subset_of(a.free_frames()),
        grows_from(a, a2, k, k2, nf),
        fresh_frame(a, k, sp, nf),
    ensures
        owns(a2, k2, sp),
{
    assert forall|f: u64|
        (table_frame_of(k2, sp, f) || user_frame_of(k2, sp, f)) && #[trigger] a2.manages(f as int) implies !a2.free_frames().contains(
        a2.frame_index(f as int),
    ) by {
        assert(a.manages(f as int));
        if table_frame_of(k, sp, f) || user_frame_of(k, sp, f) {
        } else if nf == Some(f) {
        } else if k2.table_frames().contains(f) {
            let n = lemma_taken_frame(a, a2, f);
        }
    }
    assert forall|j: int, f: u64|
        0 <= j < sp.len() && #[trigger] sp[j].table_frames().contains(f) && a2.manages(f as int) implies !k2.table_frames().contains(
        f,
    ) by {
        if k2.table_frames().contains(f) && !k.table_frames().contains(f) {
            let n = lemma_taken_frame(a, a2, f);
            assert(table_frame_of(k, sp, f));
        }
    }
    assert forall|f: u64|
        #[trigger] a2.manages(f as int) && table_frame_of(k2, sp, f) implies !user_frame_of(k2, sp, f) by {
        assert(a.manages(f as int));
        if let Some(u) = nf {
            assert(a.manages(u as int));
        }
        if !table_frame_of(k, sp, f) {
            let n = lemma_taken_frame(a, a2, f);
            if user_frame_of(k2, sp, f) && !user_frame_of(k, sp, f) {
                assert(nf == Some(f));
            }
        } else if user_frame_of(k2, sp, f) && !user_frame_of(k, sp, f) {
            assert(nf == Some(f));
        }
    }
    assert forall|j: int, l: int, f: u64|
        0 <= j < sp.len() && 0 <= l < sp.len() && j != l && #[trigger] sp[j].user_frames().contains(f)
            && #[trigger] sp[l].user_frames().contains(f) && a2.manages(f as int) implies k2.user_frames().contains(
        f,
    ) by {
        assert(k.user_frames().contains(f));
    }
}

/// Dropping user pages from user tree `i` keeps the ownership invariant.
proof fn lemma_owns_user_shrink(
    a: SnLimineFrameAllocator,
    k: SnAddressSpace,
    sp: Seq<SnAddressSpace>,
    sp2: Seq<SnAddressSpace>,
    i: int,
)
    requires
        owns(a, k, sp),
        0 <= i < sp.len(),
        sp2 == sp.update(i, sp2[i]),
        sp2[i].table_frames() == sp[i].table_frames(),
        forall|f: u64| #[trigger] sp2[i].user_frames().contains(f) ==> sp[i].user_frames().contains(f),
    ensures
        owns(a, k, sp2),
{
    assert forall|f: u64| table_frame_of(k, sp2, f) implies table_frame_of(k, sp, f) by {
        if table_frame_of(k, sp2, f) && !k.table_frames().contains(f) {
            let j = choose|j: int| 0 <= j < sp2.len() && #[trigger] sp2[j].table_frames().contains(f);
            assert(sp[j].table_frames().contains(f));
        }
    }
    assert forall|f: u64| user_frame_of(k, sp2, f) implies user_frame_of(k, sp, f) by {
        if user_frame_of(k, sp2, f) && !k.user_frames().contains(f) {
            let j = choose|j: int| 0 <= j < sp2.len() && #[trigger] sp2[j].user_frames().contains(f);
            assert(sp[j].user_frames().contains(f));
        }
    }
    assert forall|j: int, f: u64|
        0 <= j < sp2.len() && #[trigger] sp2[j].table_frames().contains(f) && a.manages(f as int) implies !k.table_frames().contains(
        f,
    ) by {
        assert(sp[j].table_frames().contains(f));
    }
    assert forall|j: int, l: int, f: u64|
        0 <= j < sp2.len() && 0 <= l < sp2.len() && j != l && #[trigger] sp2[j].table_frames().contains(f)
            && #[trigger] sp2[l].table_frames().contains(f) implies !a.manages(f as int) by {
        assert(sp[j].table_frames().contains(f));
        assert(sp[l].table_frames().contains(f));
    }
    assert forall|j: int, l: int, f: u64|
        0 <= j < sp2.len() && 0 <= l < sp2.len() && j != l && #[trigger] sp2[j].user_frames().contains(f)
            && #[trigger] sp2[l].user_frames().contains(f) && a.manages(f as int) implies k.user_frames().contains(
        f,
    ) by {
        assert(sp[j].user_frames().contains(f));
        assert(sp[l].user_frames().contains(f));
    }
}

/// Dropping user pages from the kernel's tree keeps the ownership invariant.
proof fn lemma_owns_kernel_shrink(
    a: SnLimineFrameAllocator,
    k: SnAddressSpace,
    k2: SnAddressSpace,
    sp: Seq<SnAddressSpace>,
)
    requires
        owns(a, k, sp),
        k2.table_frames() == k.table_frames(),
        k2.user_frames() == k.user_frames(),
    ensures
        owns(a, k2, sp),
{
    assert forall|f: u64| table_frame_of(k2, sp, f) == table_frame_of(k, sp, f) by {}
    assert forall|f: u64| user_frame_of(k2, sp, f) == user_frame_of(k, sp, f) by {}
}

/// Adding a tree made of frames just taken from the allocator, whose user
/// pages are those of the kernel's tree, keeps the ownership invariant.
proof fn lemma_owns_push(
    a: SnLimineFrameAllocator,
    a2: SnLimineFrameAllocator,
    k: SnAddressSpace,
    sp: Seq<SnAddressSpace>,
    c: SnAddressSpace,
    l4: u64,
)
    requires
        owns(a, k, sp),
        a.wf(),
        a2.base() == a.base(),
        a2.frame_count() == a.frame_count(),
        a2.free_frames().subset_of(a.free_frames()),
        fresh_frame(a, k, sp, Some(l4)),
        forall|f: u64|
            #[trigger] c.table_frames().contains(f) ==> f == l4 || exists|n: int|
                #[trigger] taken(a, a2).contains(n) && a.frame_address(n) == f,
        c.user_frames() == k.user_frames(),
    ensures
        owns(a2, k, sp.push(c)),
{
    let sp2 = sp.push(c);
    let last = sp.len() as int;
    assert forall|f: u64| #[trigger] user_frame_of(k, sp2, f) implies user_frame_of(k, sp, f) by {
        if user_frame_of(k, sp2, f) && !k.user_frames().contains(f) {
            let j = choose|j: int| 0 <= j < sp2.len() && #[trigger] sp2[j].user_frames().contains(f);
            if j < last {
                assert(sp[j] == sp2[j]);
            }
        }
    }
    assert forall|f: u64| #[trigger] table_frame_of(k, sp2, f) && !table_frame_of(k, sp, f) implies c.table_frames().contains(f) by {
        if table_frame_of(k, sp2, f) && !k.table_frames().contains(f) {
            let j = choose|j: int| 0 <= j < sp2.len() && #[trigger] sp2[j].table_frames().contains(f);
            if j < last {
                assert(sp[j] == sp2[j]);
            }
        }
    }
    assert forall|f: u64|
        (table_frame_of(k, sp2, f) || user_frame_of(k, sp2, f)) && #[trigger] a2.manages(f as int) implies !a2.free_frames().contains(
        a2.frame_index(f as int),
    ) by {
        assert(a.manages(f as int));
        if table_frame_of(k, sp, f) || user_frame_of(k, sp, f) {
        } else if f != l4 {
            let n = lemma_taken_frame(a, a2, f);
        }
    }
    assert forall|j: int, f: u64|
        0 <= j < sp2.len() && #[trigger] sp2[j].table_frames().contains(f) && a2.manages(f as int) implies !k.table_frames().contains(
        f,
    ) by {
        assert(a.manages(f as int));
        if j < last {
            assert(sp[j] == sp2[j]);
        } else if f != l4 {
            let n = lemma_taken_frame(a, a2, f);
        }
    }
    assert forall|j: int, l: int, f: u64|
        0 <= j < sp2.len() && 0 <= l < sp2.len() && j != l && #[trigger] sp2[j].table_frames().contains(f)
            && #[trigger] sp2[l].table_frames().contains(f) implies !a2.manages(f as int) by {
        if a2.manages(f as int) {
            assert(a.manages(f as int));
            if j == last {
                assert(sp[l] == sp2[l]);
                assert(table_frame_of(k, sp, f));
                if f != l4 {
                    let n = lemma_taken_frame(a, a2, f);
                }
            } else if l == last {
                assert(sp[j] == sp2[j]);
                assert(table_frame_of(k, sp, f));
                if f != l4 {
                    let n = lemma_taken_frame(a, a2, f);
                }
            } else {
                assert(sp[j] == sp2[j]);
                assert(sp[l] == sp2[l]);
            }
        }
    }
    assert forall|f: u64|
        #[trigger] a2.manages(f as int) && table_frame_of(k, sp2, f) implies !user_frame_of(k, sp2, f) by {
        assert(a.manages(f as int));
        if !table_frame_of(k, sp, f) {
            assert(c.table_frames().contains(f));
            if f != l4 {
                let n = lemma_taken_frame(a, a2, f);
            }
        }
    }
    assert forall|j: int, l: int, f: u64|
        0 <= j < sp2.len() && 0 <= l < sp2.len() && j != l && #[trigger] sp2[j].user_frames().contains(f)
            && #[trigger] sp2[l].user_frames().contains(f) && a2.manages(f as int) implies k.user_frames().contains(
        f,
    ) by {
        if j < last && l < last {
            assert(sp[j] == sp2[j]);
            assert(sp[l] == sp2[l]);
        }
    }
}

/// Releasing user tree `i` as `SnAddressSpace::release` does, and dropping it,
/// keeps the ownership invariant; none of the frames it gives back was free.
proof fn lemma_owns_remove(
    a: SnLimineFrameAllocator,
    a2: SnLimineFrameAllocator,
    k: SnAddressSpace,
    sp: Seq<SnAddressSpace>,
    i: int,
)
    requires
        owns(a, k, sp),
        a.wf(),
        0 <= i < sp.len(),
        a2.base() == a.base(),
        a2.frame_count() == a.frame_count(),
        a2.free_frames() == a.free_frames().union(sp[i].released(k, a)),
    ensures
        owns(a2, k, sp.remove(i)),
        sp[i].released(k, a).disjoint(a.free_frames()),
{
    let x = sp[i];
    let sp2 = sp.remove(i);
    assert forall|n: int| #[trigger] x.released(k, a).contains(n) implies !a.free_frames().contains(n) by {
        let f = choose|f: u64| x.gives_back(k, f) && a.manages(f as int) && #[trigger] a.frame_index(f as int) == n;
        if x.table_frames().contains(f) {
            assert(table_frame_of(k, sp, f));
        } else {
            assert(user_frame_of(k, sp, f));
        }
    }
    assert forall|j: int| 0 <= j < sp2.len() implies #[trigger] sp2[j] == sp[if j < i { j } else { j + 1 }] by {}
    // a frame some remaining tree owns is not given back
    assert forall|f: u64|
        (table_frame_of(k, sp2, f) || user_frame_of(k, sp2, f)) && #[trigger] a.manages(f as int) implies !x.released(k, a).contains(
        a.frame_index(f as int),
    ) by {
        if x.released(k, a).contains(a.frame_index(f as int)) {
            let g = choose|g: u64|
                x.gives_back(k, g) && a.manages(g as int) && #[trigger] a.frame_index(g as int) == a.frame_index(
                    f as int,
                );
            a.lemma_index_injective(f as int, g as int);
            assert(f == g);
            if table_frame_of(k, sp2, f) {
                if k.table_frames().contains(f) {
                    if x.table_frames().contains(f) {
                        assert(sp[i].table_frames().contains(f));
                    } else {
                        assert(user_frame_of(k, sp, f));
                        assert(table_frame_of(k, sp, f));
                    }
                } else {
                    let j = choose|j: int| 0 <= j < sp2.len() && #[trigger] sp2[j].table_frames().contains(f);
                    let oj = if j < i { j } else { j + 1 };
                    assert(sp[oj].table_frames().contains(f));
                    if x.table_frames().contains(f) {
                        assert(sp[i].table_frames().contains(f));
                    } else {
                        assert(user_frame_of(k, sp, f));
                    }
                }
            } else {
                if k.user_frames().contains(f) {
                    assert(x.table_frames().contains(f));
                    assert(table_frame_of(k, sp, f));
                } else {
                    let j = choose|j: int| 0 <= j < sp2.len() && #[trigger] sp2[j].user_frames().contains(f);
                    let oj = if j < i { j } else { j + 1 };
                    assert(sp[oj].user_frames().contains(f));
                    if x.table_frames().contains(f) {
                        assert(table_frame_of(k, sp, f));
                        assert(user_frame_of(k, sp, f));
                    } else {
                        assert(sp[i].user_frames().contains(f));
                    }
                }
            }
        }
    }
    assert forall|f: u64| table_frame_of(k, sp2, f) implies table_frame_of(k, sp, f) by {
        if table_frame_of(k, sp2, f) && !k.table_frames().contains(f) {
            let j = choose|j: int| 0 <= j < sp2.len() && #[trigger] sp2[j].table_frames().contains(f);
            let oj = if j < i { j } else { j + 1 };
            assert(sp[oj].table_frames().contains(f));
        }
    }
    assert forall|f: u64| user_frame_of(k, sp2, f) implies user_frame_of(k, sp, f) by {
        if user_frame_of(k, sp2, f) && !k.user_frames().contains(f) {
            let j = choose|j: int| 0 <= j < sp2.len() && #[trigger] sp2[j].user_frames().contains(f);
            let oj = if j < i { j } else { j + 1 };
            assert(sp[oj].user_frames().contains(f));
        }
    }
    assert forall|f: u64|
        (table_frame_of(k, sp2, f) || user_frame_of(k, sp2, f)) && #[trigger] a2.manages(f as int) implies !a2.free_frames().contains(
        a2.frame_index(f as int),
    ) by {
        assert(a.manages(f as int));
    }
    assert forall|j: int, f: u64|
        0 <= j < sp2.len() && #[trigger] sp2[j].table_frames().contains(f) && a2.manages(f as int) implies !k.table_frames().contains(
        f,
    ) by {
        let oj = if j < i { j } else { j + 1 };
        assert(sp[oj].table_frames().contains(f));
        assert(a.manages(f as int));
    }
    assert forall|j: int, l: int, f: u64|
        0 <= j < sp2.len() && 0 <= l < sp2.len() && j != l && #[trigger] sp2[j].table_frames().contains(f)
            && #[trigger] sp2[l].table_frames().contains(f) implies !a2.manages(f as int) by {
        let oj = if j < i { j } else { j + 1 };
        let ol = if l < i { l } else { l + 1 };
        assert(sp[oj].table_frames().contains(f));
        assert(sp[ol].table_frames().contains(f));
    }
    assert forall|f: u64|
        #[trigger] a2.manages(f as int) && table_frame_of(k, sp2, f) implies !user_frame_of(k, sp2, f) by {
        assert(a.manages(f as int));
    }
    assert forall|j: int, l: int, f: u64|
        0 <= j < sp2.len() && 0 <= l < sp2.len() && j != l && #[trigger] sp2[j].user_frames().contains(f)
            && #[trigger] sp2[l].user_frames().contains(f) && a2.manages(f as int) implies k.user_frames().contains(
        f,
    ) by {
        let oj = if j < i { j } else { j + 1 };
        let ol = if l < i { l } else { l + 1 };
        assert(sp[oj].user_frames().contains(f));
        assert(sp[ol].user_frames().contains(f));
    }
}

/// `x` is a page of the range from the page holding `start` to the page holding `end`.
pub open spec fn in_page_range(x: u64, start: u64, end: u64) -> bool {
    x % 4096 == 0 && page_of(start) <= x <= page_of(end)
}

pub open spec fn kernel_flags() -> SnPageFlags {
    SnPageFlags { present: true, writable: true, user_accessible: false, no_cache: false }
}

pub open spec fn mmio_flags() -> SnPageFlags {
    SnPageFlags { present: true, writable: true, user_accessible: false, no_cache: true }
}

pub open spec fn user_rw_flags() -> SnPageFlags {
    SnPageFlags { present: true, writable: true, user_accessible: true, no_cache: false }
}

pub open spec fn user_ro_flags() -> SnPageFlags {
    SnPageFlags { present: true, writable: false, user_accessible: true, no_cache: false }
}

pub fn page_flags(writable: bool, user_accessible: bool, no_cache: bool) -> (r: SnPageFlags)
    ensures
        r == (SnPageFlags { present: true, writable, user_accessible, no_cache }),
{
    SnPageFlags { present: true, writable, user_accessible, no_cache }
}

/// Lowest address of the per-thread stack slots (level-4 index 3).
pub const USER_STACK_REGION_START: u64 = 0x1800_0000_0000;

/// End of the per-thread stack slots (level-4 index 6).
pub const USER_STACK_REGION_END: u64 = 0x3000_0000_0000;

/// Lowest address of the per-thread heap slots (level-4 index 7).
pub const USER_HEAP_REGION_START: u64 = 0x3800_0000_0000;

/// End of the per-thread heap slots (level-4 index 11).
pub const USER_HEAP_REGION_END: u64 = 0x5800_0000_0000;

/// Size of a stack or heap slot: what one level-1 table maps.
pub const SLOT_SIZE: u64 = 0x20_0000;

/// Every page of the slot at `base` has the level-1 table of `base`.
proof fn lemma_slot_prefix(base: u64, x: u64)
    requires
        base % 0x20_0000 == 0,
        base <= x < base + 0x20_0000,
    ensures
        x >> 21 == base >> 21,
{
    assert(base % 0x20_0000 == 0 && base <= x && x < base + 0x20_0000 ==> x >> 21 == base >> 21)
        by (bit_vector);
}

/// The pages of a slot's range are those from `bottom` up to `top`.
proof fn lemma_slot_range(bottom: u64, top: u64)
    requires
        bottom % 4096 == 0,
        top % 4096 == 0,
        bottom < top,
    ensures
        page_of((top - 1) as u64) == top - 4096,
        forall|x: u64| #[trigger] in_page_range(x, bottom, (top - 1) as u64) <==> (x % 4096 == 0 && bottom <= x < top),
{
}

pub struct MemoryInfo {
    frame_allocator: SnLimineFrameAllocator,
    kernel: SnAddressSpace,
    spaces: Vec<SnAddressSpace>,
    active: u64,
    /// What the frames the allocator hands out hold, by frame number; an
    /// empty entry stands for a frame of zeroes.
    frames: Vec<Vec<u8>>,
}

impl MemoryInfo {
    pub closed spec fn allocator(self) -> SnLimineFrameAllocator {
        self.frame_allocator
    }

    pub closed spec fn kernel(self) -> SnAddressSpace {
        self.kernel
    }

    /// Physical address of the level-4 table the CPU walks.
    pub closed spec fn active(self) -> u64 {
        self.active
    }

    pub closed spec fn user_spaces(self) -> Seq<SnAddressSpace> {
        self.spaces@
    }

    /// A user tree has its level-4 table at `l4`.
    pub open spec fn has_user_space(self, l4: u64) -> bool {
        exists|i: int| 0 <= i < self.user_spaces().len() && (#[trigger] self.user_spaces()[i]).l4() == l4
    }

    pub open spec fn user_space(self, l4: u64) -> SnAddressSpace {
        self.user_spaces()[choose|i: int|
            0 <= i < self.user_spaces().len() && (#[trigger] self.user_spaces()[i]).l4() == l4]
    }

    /// Some tree, the kernel's or a user's, has its level-4 table at `l4`.
    pub open spec fn has_space(self, l4: u64) -> bool {
        l4 == self.kernel().l4() || self.has_user_space(l4)
    }

    pub open spec fn space(self, l4: u64) -> SnAddressSpace {
        if l4 == self.kernel().l4() {
            self.kernel()
        } else {
            self.user_space(l4)
        }
    }

    /// `f` holds a table of some tree.
    pub open spec fn is_table_frame(self, f: u64) -> bool {
        table_frame_of(self.kernel(), self.user_spaces(), f)
    }

    /// A user-accessible page of some tree maps `f`.
    pub open spec fn is_user_frame(self, f: u64) -> bool {
        user_frame_of(self.kernel(), self.user_spaces(), f)
    }

    pub open spec fn owns_frames(self) -> bool {
        owns(self.allocator(), self.kernel(), self.user_spaces())
    }

    pub closed spec fn wf(self) -> bool {
        &&& self.frame_allocator.wf()
        &&& self.kernel.wf()
        &&& forall|i: int| 0 <= i < self.spaces@.len() ==> (#[trigger] self.spaces@[i]).wf()
        &&& forall|i: int| 0 <= i < self.spaces@.len() ==> (#[trigger] self.spaces@[i]).l4() != self.kernel.l4()
        &&& forall|i: int, j: int|
            0 <= i < j < self.spaces@.len() ==> (#[trigger] self.spaces@[i]).l4() != (
            #[trigger] self.spaces@[j]).l4()
        &&& self.has_space(self.active)
        &&& self.owns_frames()
        &&& self.frame_allocator.hhdm() + self.frame_allocator.base() + self.frame_allocator.frame_count()
            * 4096 <= u64::MAX
        &&& self.frames@.len() == self.frame_allocator.frame_count()
        &&& forall|n: int|
            0 <= n < self.frames@.len() ==> (#[trigger] self.frames@[n])@.len() == 0 || self.frames@[n]@.len()
                == 4096
    }

    /// What the frames hold, by frame number.
    pub closed spec fn frame_data(self) -> Seq<Vec<u8>> {
        self.frames@
    }

    /// Byte `off` of frame number `n`.
    pub closed spec fn frame_byte(self, n: int, off: int) -> u8 {
        if self.frames@[n]@.len() == 4096 {
            self.frames@[n]@[off]
        } else {
            0
        }
    }

    /// The byte a user thread of the tree at `l4` reads at `va`, if it may read it.
    pub open spec fn user_byte(self, l4: u64, va: u64) -> Option<u8> {
        match self.space(l4).mapping(page_of(va)) {
            Some(m) => if m.flags.user_accessible && self.allocator().manages(m.frame as int) {
                Some(self.frame_byte(self.allocator().frame_index(m.frame as int), (va % 4096) as int))
            } else {
                None
            },
            None => None,
        }
    }

    proof fn lemma_space_at(self, i: int)
        requires
            self.wf(),
            0 <= i < self.user_spaces().len(),
        ensures
            self.has_user_space(self.user_spaces()[i].l4()),
            self.user_space(self.user_spaces()[i].l4()) == self.user_spaces()[i],
            self.space(self.user_spaces()[i].l4()) == self.user_spaces()[i],
    {
        let l4 = self.user_spaces()[i].l4();
        assert(self.user_spaces()[i].l4() == l4);
        let j = choose|j: int| 0 <= j < self.user_spaces().len() && (#[trigger] self.user_spaces()[j]).l4() == l4;
        if j < i {
            assert(self.spaces@[j].l4() != self.spaces@[i].l4());
        } else if j > i {
            assert(self.spaces@[i].l4() != self.spaces@[j].l4());
        }
    }

    pub proof fn lemma_space_wf(self, l4: u64)
        requires
            self.wf(),
            self.has_space(l4),
        ensures
            self.space(l4).wf(),
            self.space(l4).l4() == l4,
    {
        if l4 != self.kernel.l4() {
            let i = choose|i: int| 0 <= i < self.user_spaces().len() && (#[trigger] self.user_spaces()[i]).l4() == l4;
            self.lemma_space_at(i);
        }
    }

    /// No page of a slot whose level-1 table is missing is mapped.
    proof fn lemma_free_slot_unmapped(self, l4: u64, base: u64)
        requires
            self.wf(),
            self.has_space(l4),
            base % SLOT_SIZE == 0,
            !self.space(l4).has_table(1, base >> 21),
        ensures
            forall|x: u64| base <= x < base + SLOT_SIZE ==> #[trigger] self.space(l4).mapping(x) is None,
    {
        let sp = self.space(l4);
        self.lemma_space_wf(l4);
        assert forall|x: u64| base <= x < base + SLOT_SIZE implies #[trigger] sp.mapping(x) is None by {
            if sp.mapping(x) is Some {
                let i = choose|i: int| 0 <= i < sp.leaf_seq().len() && (#[trigger] sp.leaf_seq()[i]).page == x;
                sp.lemma_mapping_at(i);
                sp.lemma_leaf_has_table(i);
                lemma_slot_prefix(base, x);
            }
        }
    }

    /// A mapped page has its level-1 table.
    proof fn lemma_mapped_has_table(self, l4: u64, x: u64)
        requires
            self.wf(),
            self.has_space(l4),
            self.space(l4).mapping(x) is Some,
        ensures
            self.space(l4).has_table(1, x >> 21),
    {
        let sp = self.space(l4);
        self.lemma_space_wf(l4);
        let i = choose|i: int| 0 <= i < sp.leaf_seq().len() && (#[trigger] sp.leaf_seq()[i]).page == x;
        sp.lemma_leaf_has_table(i);
    }

    /// The active table belongs to some tree.
    pub proof fn lemma_active_space(self)
        requires
            self.wf(),
        ensures
            self.has_space(self.active()),
    {
    }

    /// No user tree sits where the kernel's does.
    pub proof fn lemma_kernel_not_user(self)
        requires
            self.wf(),
        ensures
            !self.has_user_space(self.kernel().l4()),
    {
        if self.has_user_space(self.kernel().l4()) {
            let i = choose|i: int| 0 <= i < self.user_spaces().len() && (#[trigger] self.user_spaces()[i]).l4() == self.kernel().l4();
            assert(self.spaces@[i].l4() != self.kernel.l4());
        }
    }

    /// Two states with the same trees have the same trees at every place.
    pub proof fn lemma_same_trees(self, other: Self)
        requires
            self.kernel() == other.kernel(),
            self.user_spaces() == other.user_spaces(),
        ensures
            forall|x: u64| #[trigger] self.has_space(x) == other.has_space(x),
            forall|x: u64| #[trigger] self.has_user_space(x) == other.has_user_space(x),
            forall|x: u64| #[trigger] self.space(x) == other.space(x),
    {
    }

    /// Starts with the kernel's tree, whose level-4 table is at `kernel_l4_phys`, as the active one.
    pub fn init(frame_allocator: SnLimineFrameAllocator, kernel_l4_phys: u64) -> (r: Self)
        requires
            frame_allocator.wf(),
            frame_allocator.hhdm() + frame_allocator.base() + frame_allocator.frame_count() * 4096 <= u64::MAX,
            frame_allocator.manages(kernel_l4_phys as int) ==> !frame_allocator.free_frames().contains(
                frame_allocator.frame_index(kernel_l4_phys as int),
            ),
        ensures
            r.wf(),
            r.allocator() == frame_allocator,
            r.kernel().l4() == kernel_l4_phys,
            forall|p: u64| r.kernel().mapping(p) is None,
            r.active() == kernel_l4_phys,
            r.user_spaces().len() == 0,
    {
        let count = frame_allocator.frame_count_of();
        let mut frames: Vec<Vec<u8>> = Vec::new();
        let mut i: u64 = 0;
        while i < count
            invariant
                i <= count,
                frames@.len() == i,
                forall|n: int| 0 <= n < frames@.len() ==> (#[trigger] frames@[n])@.len() == 0,
            decreases count - i,
        {
            frames.push(Vec::new());
            i = i + 1;
        }
        let r = MemoryInfo {
            frame_allocator,
            kernel: SnAddressSpace::new(kernel_l4_phys),
            spaces: Vec::new(),
            active: kernel_l4_phys,
            frames,
        };
        assert forall|f: u64| (r.is_table_frame(f) || r.is_user_frame(f)) && #[trigger] r.allocator().manages(
            f as int,
        ) implies !r.allocator().free_frames().contains(r.allocator().frame_index(f as int)) by {
            assert(r.kernel.table_frames().contains(f) ==> f == kernel_l4_phys);
        }
        r
    }

    pub fn frame_allocator(&self) -> (r: &SnLimineFrameAllocator)
        ensures
            *r == self.allocator(),
    {
        &self.frame_allocator
    }

    /// Physical address of the active level-4 table.
    pub fn get_current_page_table_phys_addr(&self) -> (r: u64)
        ensures
            r == self.active(),
    {
        self.active
    }

    /// Physical address of the kernel's level-4 table.
    pub fn kernel_page_table_phys_addr(&self) -> (r: u64)
        ensures
            r == self.kernel().l4(),
    {
        self.kernel.l4_phys()
    }

    /// The kernel virtual address at which physical address `phys` is seen.
    pub fn phys_to_virt_addr(&self, phys: SnPhysAddr) -> (r: SnVirtAddr)
        requires
            self.allocator().hhdm() + phys.0 <= u64::MAX,
        ensures
            r.0 == self.allocator().hhdm() + phys.0,
    {
        SnVirtAddr::new(self.frame_allocator.physical_memory_offset() + phys.as_u64())
    }

    fn find_user_space(&self, l4: u64) -> (r: Option<usize>)
        requires
            self.wf(),
        ensures
            r matches Some(i) ==> i < self.user_spaces().len() && self.user_spaces()[i as int].l4()
                == l4 && self.has_user_space(l4) && self.user_space(l4) == self.user_spaces()[i as int],
            r is None ==> !self.has_user_space(l4),
    {
        let mut i: usize = 0;
        while i < self.spaces.len()
            invariant
                i <= self.spaces@.len(),
                self.wf(),
                forall|j: int| 0 <= j < i ==> (#[trigger] self.spaces@[j]).l4() != l4,
            decreases self.spaces@.len() - i,
        {
            if self.spaces[i].l4_phys() == l4 {
                proof {
                    self.lemma_space_at(i as int);
                }
                return Some(i);
            }
            i = i + 1;
        }
        None
    }

    /// Tells whether some tree has its level-4 table at `l4`.
    pub fn has_page_table(&self, l4: u64) -> (r: bool)
        requires
            self.wf(),
        ensures
            r == self.has_space(l4),
    {
        l4 == self.kernel.l4_phys() || self.find_user_space(l4).is_some()
    }

    /// What `page` is mapped to in the tree at `l4`.
    pub fn translate(&self, l4: u64, page: u64) -> (r: Option<SnMapping>)
        requires
            self.wf(),
            self.has_space(l4),
        ensures
            r == self.space(l4).mapping(page),
    {
        if l4 == self.kernel.l4_phys() {
            self.kernel.translate(page)
        } else {
            let i = self.find_user_space(l4).unwrap();
            self.spaces[i].translate(page)
        }
    }

    /// Makes the tree at `pt` the one the CPU walks.
    pub fn switch_page_table(&mut self, pt: SnPhysAddr)
        requires
            old(self).wf(),
            old(self).has_space(pt.0),
        ensures
            final(self).wf(),
            final(self).active() == pt.0,
            final(self).allocator() == old(self).allocator(),
            final(self).kernel() == old(self).kernel(),
            final(self).user_spaces() == old(self).user_spaces(),
            final(self).frame_data() == old(self).frame_data(),
    {
        let ghost s0 = *self;
        self.active = pt.as_u64();
        assert(self.allocator() == s0.allocator() && self.kernel() == s0.kernel() && self.user_spaces()
            == s0.user_spaces());
        assert(self.owns_frames() == s0.owns_frames());
        assert(self.has_space(pt.0) == s0.has_space(pt.0));
    }

    /// Runs `op` with the tree at `pt` active, then makes the tree that was
    /// active before the active one again, whatever `op` did.
    pub fn with_page_table<F: FnOnce(&mut MemoryInfo) -> R, R>(&mut self, pt: SnPhysAddr, op: F) -> (r: R)
        requires
            old(self).wf(),
            old(self).has_space(pt.0),
            forall|m: &mut MemoryInfo| op.requires((m,)),
        ensures
            final(self).active() == old(self).active(),
            exists|during: &mut MemoryInfo|
                {
                    &&& (*during).active() == pt.0
                    &&& (*during).allocator() == old(self).allocator()
                    &&& (*during).kernel() == old(self).kernel()
                    &&& (*during).user_spaces() == old(self).user_spaces()
                    &&& (*during).frame_data() == old(self).frame_data()
                    &&& op.ensures((during,), r)
                    &&& final(self).allocator() == final(during).allocator()
                    &&& final(self).kernel() == final(during).kernel()
                    &&& final(self).user_spaces() == final(during).user_spaces()
                    &&& final(self).frame_data() == final(during).frame_data()
                },
    {
        let saved = self.active;
        self.switch_page_table(pt);
        let r = op(self);
        self.active = saved;
        r
    }

    /// Two states whose trees sit where they sat, and differ at most in user tree `i`.
    proof fn lemma_same_places(self, other: Self, i: int)
        requires
            self.wf(),
            other.wf(),
            other.kernel() == self.kernel(),
            other.user_spaces().len() == self.user_spaces().len(),
            0 <= i < self.user_spaces().len(),
            forall|j: int|
                0 <= j < self.user_spaces().len() ==> (#[trigger] other.user_spaces()[j]).l4()
                    == self.user_spaces()[j].l4(),
            forall|j: int|
                0 <= j < self.user_spaces().len() && j != i ==> #[trigger] other.user_spaces()[j]
                    == self.user_spaces()[j],
        ensures
            forall|x: u64| #[trigger] other.has_space(x) == self.has_space(x),
            forall|x: u64|
                #[trigger] other.has_user_space(x) == self.has_user_space(x),
            forall|x: u64|
                x != self.user_spaces()[i].l4() && self.has_space(x) ==> #[trigger] other.space(x)
                    == self.space(x),
            other.space(self.user_spaces()[i].l4()) == other.user_spaces()[i],
    {
        assert forall|x: u64| #[trigger] other.has_user_space(x) == self.has_user_space(x) by {
            if self.has_user_space(x) {
                let j = choose|j: int| 0 <= j < self.user_spaces().len() && (#[trigger] self.user_spaces()[j]).l4() == x;
                assert(other.user_spaces()[j].l4() == x);
            }
            if other.has_user_space(x) {
                let j = choose|j: int| 0 <= j < other.user_spaces().len() && (#[trigger] other.user_spaces()[j]).l4() == x;
                assert(self.user_spaces()[j].l4() == x);
            }
        }
        assert forall|x: u64|
            x != self.user_spaces()[i].l4() && self.has_space(x) implies #[trigger] other.space(x) == self.space(x) by {
            if x != self.kernel().l4() {
                let j = choose|j: int| 0 <= j < self.user_spaces().len() && (#[trigger] self.user_spaces()[j]).l4() == x;
                self.lemma_space_at(j);
                other.lemma_space_at(j);
            }
        }
        other.lemma_space_at(i);
    }

    /// Maps `page` to `frame` with `flags` in the tree at `l4`, creating the
    /// tables on its path. A user-accessible page must get a frame that was
    /// just taken from the allocator and that no tree uses yet.
    pub fn map_in(&mut self, l4: u64, page: u64, frame: u64, flags: SnPageFlags) -> (r: Result<(), SnMapError>)
        requires
            old(self).wf(),
            old(self).has_space(l4),
            flags.user_accessible ==> fresh_frame(
                old(self).allocator(),
                old(self).kernel(),
                old(self).user_spaces(),
                Some(frame),
            ),
        ensures
            final(self).wf(),
            final(self).active() == old(self).active(),
            forall|x: u64| #[trigger] final(self).has_space(x) == old(self).has_space(x),
            forall|x: u64|
                x != l4 && old(self).has_space(x) ==> #[trigger] final(self).space(x) == old(self).space(x),
            final(self).allocator().base() == old(self).allocator().base(),
            final(self).allocator().frame_count() == old(self).allocator().frame_count(),
            final(self).allocator().memory_map() == old(self).allocator().memory_map(),
            final(self).allocator().hhdm() == old(self).allocator().hhdm(),
            final(self).allocator().free_frames().subset_of(old(self).allocator().free_frames()),
            forall|lv: u8, pr: u64|
                #[trigger] old(self).space(l4).has_table(lv, pr) ==> final(self).space(l4).has_table(lv, pr),
            old(self).space(l4).mapping(page) is Some ==> r == Err::<(), SnMapError>(
                SnMapError::PageAlreadyMapped,
            ),
            r is Ok ==> final(self).space(l4).mapping(page) == Some(SnMapping { page, frame, flags }),
            r is Ok ==> forall|p: u64|
                p != page ==> #[trigger] final(self).space(l4).mapping(p) == old(self).space(l4).mapping(p),
            r is Err ==> forall|p: u64| #[trigger] final(self).space(l4).mapping(p) == old(self).space(l4).mapping(p),
            r == Err::<(), SnMapError>(SnMapError::FrameAllocationFailed)
                ==> final(self).allocator().free_frames().is_empty(),
            r != Err::<(), SnMapError>(SnMapError::FrameAllocationFailed) ==> (r is Ok
                <==> old(self).space(l4).mapping(page) is None),
            l4 != old(self).kernel().l4() ==> final(self).kernel() == old(self).kernel(),
            final(self).frame_data() == old(self).frame_data(),
    {
        let ghost s0 = *self;
        let nf: Option<u64> = if flags.user_accessible {
            Some(frame)
        } else {
            None
        };
        if l4 == self.kernel.l4_phys() {
            assert(flags.user_accessible ==> !self.kernel.user_frames().contains(frame));
            let r = self.kernel.map_page(&mut self.frame_allocator, page, frame, flags);
            proof {
                lemma_owns_kernel_step(
                    s0.frame_allocator,
                    self.frame_allocator,
                    s0.kernel,
                    self.kernel,
                    s0.spaces@,
                    nf,
                );
                assert(self.owns_frames());
                assert forall|x: u64| #[trigger] self.has_space(x) == s0.has_space(x) by {
                    assert(self.has_user_space(x) == s0.has_user_space(x));
                }
                assert forall|x: u64| x != l4 && s0.has_space(x) implies #[trigger] self.space(x) == s0.space(x) by {
                    assert(self.user_space(x) == s0.user_space(x));
                }
            }
            r
        } else {
            let i = self.find_user_space(l4).unwrap();
            assert(flags.user_accessible ==> !self.spaces@[i as int].user_frames().contains(frame));
            let r = self.spaces[i].map_page(&mut self.frame_allocator, page, frame, flags);
            proof {
                assert(self.spaces@ == s0.spaces@.update(i as int, self.spaces@[i as int]));
                lemma_owns_user_step(
                    s0.frame_allocator,
                    self.frame_allocator,
                    s0.kernel,
                    s0.spaces@,
                    self.spaces@,
                    i as int,
                    nf,
                );
                assert(self.owns_frames());
                assert forall|j: int| 0 <= j < self.spaces@.len() implies (#[trigger] self.spaces@[j]).wf() by {
                    if j != i {
                        assert(self.spaces@[j] == s0.spaces@[j]);
                    }
                }
                assert forall|j: int| 0 <= j < self.spaces@.len() implies (#[trigger] self.spaces@[j]).l4()
                    == s0.spaces@[j].l4() by {
                    if j != i {
                        assert(self.spaces@[j] == s0.spaces@[j]);
                    }
                }
                assert(s0.has_user_space(self.active) ==> self.has_user_space(self.active)) by {
                    if s0.has_user_space(self.active) {
                        let j = choose|j: int| 0 <= j < s0.user_spaces().len() && (#[trigger] s0.user_spaces()[j]).l4() == self.active;
                        assert(self.user_spaces()[j].l4() == self.active);
                    }
                }
                assert(self.wf());
                s0.lemma_same_places(*self, i as int);
            }
            r
        }
    }

    /// Takes a frame from the allocator; no tree uses it.
    fn take_frame(&mut self) -> (r: Option<u64>)
        requires
            old(self).wf(),
        ensures
            final(self).wf(),
            final(self).kernel() == old(self).kernel(),
            final(self).user_spaces() == old(self).user_spaces(),
            final(self).active() == old(self).active(),
            final(self).allocator().base() == old(self).allocator().base(),
            final(self).allocator().frame_count() == old(self).allocator().frame_count(),
            final(self).allocator().memory_map() == old(self).allocator().memory_map(),
            final(self).allocator().hhdm() == old(self).allocator().hhdm(),
            final(self).allocator().free_frames().subset_of(old(self).allocator().free_frames()),
            final(self).frame_data() == old(self).frame_data(),
            r is None <==> old(self).allocator().free_frames().is_empty(),
            r is None ==> final(self).allocator().free_frames().is_empty(),
            r matches Some(g) ==> {
                &&& fresh_frame(final(self).allocator(), final(self).kernel(), final(self).user_spaces(), Some(g))
                &&& old(self).allocator().free_frames().contains(old(self).allocator().frame_index(g as int))
                &&& g % 4096 == 0
                &&& g == old(self).allocator().frame_address(old(self).allocator().frame_index(g as int))
                &&& final(self).allocator().free_frames() == old(self).allocator().free_frames().remove(
                    old(self).allocator().frame_index(g as int),
                )
            },
    {
        let ghost a0 = self.frame_allocator;
        let r = self.frame_allocator.allocate_frame();
        proof {
            let a = self.frame_allocator;
            assert forall|f: u64|
                (self.is_table_frame(f) || self.is_user_frame(f)) && #[trigger] a.manages(f as int) implies !a.free_frames().contains(
                a.frame_index(f as int),
            ) by {
                assert(a0.manages(f as int));
            }
            assert forall|f: u64| #[trigger] a.manages(f as int) && self.is_table_frame(f) implies !self.is_user_frame(f) by {
                assert(a0.manages(f as int));
            }
            assert forall|i: int, f: u64|
                0 <= i < self.spaces@.len() && #[trigger] self.spaces@[i].table_frames().contains(f) && a.manages(
                    f as int,
                ) implies !self.kernel.table_frames().contains(f) by {
                assert(a0.manages(f as int));
            }
            assert forall|i: int, j: int, f: u64|
                0 <= i < self.spaces@.len() && 0 <= j < self.spaces@.len() && i != j
                    && #[trigger] self.spaces@[i].user_frames().contains(f)
                    && #[trigger] self.spaces@[j].user_frames().contains(f) && a.manages(f as int) implies self.kernel.user_frames().contains(
                f,
            ) by {
                assert(a0.manages(f as int));
            }
            assert(self.owns_frames());
            if let Some(g) = r {
                if self.is_table_frame(g) || self.is_user_frame(g) {
                    assert(a0.manages(g as int));
                }
            }
        }
        r
    }

    /// Maps every page from the one holding `start` to the one holding `end`
    /// in the tree at `l4` to a fresh frame with `flags`.
    fn map_fresh_range(&mut self, l4: u64, start: u64, end: u64, flags: SnPageFlags, skip_mapped: bool) -> (r: Result<
        (),
        SnMapError,
    >)
        requires
            old(self).wf(),
            old(self).has_space(l4),
            start <= end,
            end < 0xFFFF_FFFF_FFFF_F000,
        ensures
            final(self).wf(),
            final(self).active() == old(self).active(),
            forall|x: u64| #[trigger] final(self).has_space(x) == old(self).has_space(x),
            forall|x: u64|
                x != l4 && old(self).has_space(x) ==> #[trigger] final(self).space(x) == old(self).space(x),
            final(self).allocator().base() == old(self).allocator().base(),
            final(self).allocator().frame_count() == old(self).allocator().frame_count(),
            final(self).allocator().memory_map() == old(self).allocator().memory_map(),
            final(self).allocator().hhdm() == old(self).allocator().hhdm(),
            final(self).allocator().free_frames().subset_of(old(self).allocator().free_frames()),
            forall|lv: u8, pr: u64|
                #[trigger] old(self).space(l4).has_table(lv, pr) ==> final(self).space(l4).has_table(lv, pr),
            forall|x: u64|
                !in_page_range(x, start, end) ==> #[trigger] final(self).space(l4).mapping(x) == old(self).space(l4).mapping(x),
            r is Ok ==> forall|x: u64|
                in_page_range(x, start, end) ==> (!skip_mapped ==> old(self).space(l4).mapping(x) is None)
                    && if old(self).space(l4).mapping(x) is Some {
                    #[trigger] final(self).space(l4).mapping(x) == old(self).space(l4).mapping(x)
                } else {
                    final(self).space(l4).mapping(x) matches Some(m) && m.page == x && m.flags == flags
                        && old(self).allocator().free_frames().contains(
                        old(self).allocator().frame_index(m.frame as int),
                    ) && m.frame == old(self).allocator().frame_address(
                        old(self).allocator().frame_index(m.frame as int),
                    )
                },
            r == Err::<(), SnMapError>(SnMapError::PageAlreadyMapped) ==> !skip_mapped && exists|x: u64|
                in_page_range(x, start, end) && (#[trigger] old(self).space(l4).mapping(x)) is Some,
            r == Err::<(), SnMapError>(SnMapError::FrameAllocationFailed)
                ==> final(self).allocator().free_frames().is_empty(),
            r != Err::<(), SnMapError>(SnMapError::PageNotMapped),
            r != Err::<(), SnMapError>(SnMapError::NoFreeSlot),
            l4 != old(self).kernel().l4() ==> final(self).kernel() == old(self).kernel(),
            final(self).frame_data() == old(self).frame_data(),
            r is Ok ==> forall|x: u64, y: u64|
                in_page_range(x, start, end) && in_page_range(y, start, end) && x != y && old(self).space(l4).mapping(x)
                    is None && old(self).space(l4).mapping(y) is None ==> (#[trigger] final(self).space(l4).mapping(
                    x,
                ))->0.frame != (#[trigger] final(self).space(l4).mapping(y))->0.frame,
            forall|x: u64|
                old(self).space(l4).mapping(x) is Some ==> #[trigger] final(self).space(l4).mapping(x) == old(self).space(l4).mapping(x),
            forall|x: u64|
                in_page_range(x, start, end) && old(self).space(l4).mapping(x) is None
                    && (#[trigger] final(self).space(l4).mapping(x)) is Some
                    ==> final(self).allocator().manages(final(self).space(l4).mapping(x)->0.frame as int),
    {
        let ghost s0 = *self;
        let first = page_containing(start);
        let last = page_containing(end);
        let mut p = first;
        while p <= last
            invariant
                self.wf(),
                self.has_space(l4),
                s0 == *old(self),
                first == page_of(start),
                last == page_of(end),
                first <= p,
                p % 4096 == 0,
                first % 4096 == 0,
                last % 4096 == 0,
                p <= last + 4096,
                last < 0xFFFF_FFFF_FFFF_F000,
                self.active() == s0.active(),
                l4 != s0.kernel().l4() ==> self.kernel() == s0.kernel(),
                self.frame_data() == s0.frame_data(),
                forall|x: u64|
                    x % 4096 == 0 && first <= x < p && s0.space(l4).mapping(x) is None ==> !self.allocator().free_frames().contains(
                        s0.allocator().frame_index((#[trigger] self.space(l4).mapping(x))->0.frame as int),
                    ),
                forall|x: u64, y: u64|
                    x % 4096 == 0 && first <= x < p && y % 4096 == 0 && first <= y < p && x != y && s0.space(l4).mapping(x)
                        is None && s0.space(l4).mapping(y) is None ==> (#[trigger] self.space(l4).mapping(x))->0.frame
                        != (#[trigger] self.space(l4).mapping(y))->0.frame,
                forall|x: u64|
                    x % 4096 == 0 && first <= x < p && s0.space(l4).mapping(x) is None ==> self.allocator().manages(
                        (#[trigger] self.space(l4).mapping(x))->0.frame as int,
                    ),
                forall|x: u64| #[trigger] self.has_space(x) == s0.has_space(x),
                forall|x: u64| x != l4 && s0.has_space(x) ==> #[trigger] self.space(x) == s0.space(x),
                self.allocator().base() == s0.allocator().base(),
                self.allocator().frame_count() == s0.allocator().frame_count(),
                self.allocator().memory_map() == s0.allocator().memory_map(),
                self.allocator().hhdm() == s0.allocator().hhdm(),
                self.allocator().free_frames().subset_of(s0.allocator().free_frames()),
                forall|lv: u8, pr: u64|
                    #[trigger] s0.space(l4).has_table(lv, pr) ==> self.space(l4).has_table(lv, pr),
                forall|x: u64|
                    !(x % 4096 == 0 && first <= x < p) ==> #[trigger] self.space(l4).mapping(x) == s0.space(
                        l4,
                    ).mapping(x),
                forall|x: u64|
                    x % 4096 == 0 && first <= x < p ==> (!skip_mapped ==> s0.space(l4).mapping(x) is None)
                        && if s0.space(l4).mapping(x) is Some {
                        #[trigger] self.space(l4).mapping(x) == s0.space(l4).mapping(x)
                    } else {
                        self.space(l4).mapping(x) matches Some(m) && m.page == x && m.flags == flags
                            && s0.allocator().free_frames().contains(
                            s0.allocator().frame_index(m.frame as int),
                        ) && m.frame == s0.allocator().frame_address(
                            s0.allocator().frame_index(m.frame as int),
                        )
                    },
            decreases last + 4096 - p,
        {
            if self.translate(l4, p).is_some() {
                if !skip_mapped {
                    return Err(SnMapError::PageAlreadyMapped);
                }
                p = p + 4096;
                continue;
            }
            let ghost s1 = *self;
            let taken_frame = self.take_frame();
            proof {
                assert forall|x: u64| #[trigger] self.has_space(x) == s1.has_space(x) by {}
                assert forall|x: u64| #[trigger] self.space(x) == s1.space(x) by {}
            }
            let g = match taken_frame {
                None => {
                    return Err(SnMapError::FrameAllocationFailed);
                },
                Some(g) => g,
            };
            let r = self.map_in(l4, p, g, flags);
            match r {
                Ok(()) => {},
                Err(e) => {
                    return Err(SnMapError::FrameAllocationFailed);
                },
            }
            p = p + 4096;
        }
        Ok(())
    }

    /// Maps the pages from `start_addr` to `end_addr` of the active tree to
    /// fresh frames, writable and for the kernel only (the kernel heap).
    pub fn map_new_memory(&mut self, start_addr: SnVirtAddr, end_addr: SnVirtAddr) -> (r: Result<
        (),
        SnMapError,
    >)
        requires
            old(self).wf(),
            start_addr.0 <= end_addr.0,
            end_addr.0 < 0xFFFF_FFFF_FFFF_F000,
        ensures
            final(self).wf(),
            final(self).active() == old(self).active(),
            r is Err ==> r == Err::<(), SnMapError>(SnMapError::PageAlreadyMapped) || r == Err::<(), SnMapError>(
                SnMapError::FrameAllocationFailed,
            ),
            forall|x: u64, y: u64|
                in_page_range(x, start_addr.0, end_addr.0) && in_page_range(y, start_addr.0, end_addr.0) && x != y
                    && r is Ok ==> (#[trigger] final(self).space(old(self).active()).mapping(x))->0.frame != (
                #[trigger] final(self).space(old(self).active()).mapping(y))->0.frame,
            r is Ok ==> forall|x: u64|
                in_page_range(x, start_addr.0, end_addr.0) ==> old(self).space(old(self).active()).mapping(x)
                    is None && (#[trigger] final(self).space(old(self).active()).mapping(x) matches Some(m)
                    && m.flags == kernel_flags() && old(self).allocator().free_frames().contains(
                    old(self).allocator().frame_index(m.frame as int),
                )),
            forall|x: u64|
                !in_page_range(x, start_addr.0, end_addr.0) ==> #[trigger] final(self).space(
                    old(self).active(),
                ).mapping(x) == old(self).space(old(self).active()).mapping(x),
            r == Err::<(), SnMapError>(SnMapError::PageAlreadyMapped) ==> exists|x: u64|
                in_page_range(x, start_addr.0, end_addr.0) && (#[trigger] old(self).space(
                    old(self).active(),
                ).mapping(x)) is Some,
            r == Err::<(), SnMapError>(SnMapError::FrameAllocationFailed)
                ==> final(self).allocator().free_frames().is_empty(),
    {
        let l4 = self.active;
        let r = self.map_fresh_range(l4, start_addr.as_u64(), end_addr.as_u64(), page_flags(true, false, false), false);
        proof {
            if let Err(e) = r {
                assert(e != SnMapError::PageNotMapped && e != SnMapError::NoFreeSlot);
            }
        }
        r
    }

    /// Maps the pages from `start_addr` to `end_addr` of the active tree to
    /// fresh frames, writable and user-accessible.
    pub fn map_user_memory(&mut self, start_addr: SnVirtAddr, end_addr: SnVirtAddr) -> (r: Result<
        (),
        SnMapError,
    >)
        requires
            old(self).wf(),
            start_addr.0 <= end_addr.0,
            end_addr.0 < 0xFFFF_FFFF_FFFF_F000,
        ensures
            final(self).wf(),
            final(self).active() == old(self).active(),
            r is Err ==> r == Err::<(), SnMapError>(SnMapError::PageAlreadyMapped) || r == Err::<(), SnMapError>(
                SnMapError::FrameAllocationFailed,
            ),
            forall|x: u64, y: u64|
                in_page_range(x, start_addr.0, end_addr.0) && in_page_range(y, start_addr.0, end_addr.0) && x != y
                    && r is Ok ==> (#[trigger] final(self).space(old(self).active()).mapping(x))->0.frame != (
                #[trigger] final(self).space(old(self).active()).mapping(y))->0.frame,
            r is Ok ==> forall|x: u64|
                in_page_range(x, start_addr.0, end_addr.0) ==> old(self).space(old(self).active()).mapping(x)
                    is None && (#[trigger] final(self).space(old(self).active()).mapping(x) matches Some(m)
                    && m.flags == user_rw_flags() && old(self).allocator().free_frames().contains(
                    old(self).allocator().frame_index(m.frame as int),
                )),
            forall|x: u64|
                !in_page_range(x, start_addr.0, end_addr.0) ==> #[trigger] final(self).space(
                    old(self).active(),
                ).mapping(x) == old(self).space(old(self).active()).mapping(x),
            r == Err::<(), SnMapError>(SnMapError::PageAlreadyMapped) ==> exists|x: u64|
                in_page_range(x, start_addr.0, end_addr.0) && (#[trigger] old(self).space(
                    old(self).active(),
                ).mapping(x)) is Some,
            r == Err::<(), SnMapError>(SnMapError::FrameAllocationFailed)
                ==> final(self).allocator().free_frames().is_empty(),
    {
        let l4 = self.active;
        let r = self.map_fresh_range(l4, start_addr.as_u64(), end_addr.as_u64(), page_flags(true, true, false), false);
        proof {
            if let Err(e) = r {
                assert(e != SnMapError::PageNotMapped && e != SnMapError::NoFreeSlot);
            }
        }
        r
    }

    /// Like `map_user_memory`, with pages the user may read but not write.
    pub fn map_user_memory_ro(&mut self, start_addr: SnVirtAddr, end_addr: SnVirtAddr) -> (r: Result<
        (),
        SnMapError,
    >)
        requires
            old(self).wf(),
            start_addr.0 <= end_addr.0,
            end_addr.0 < 0xFFFF_FFFF_FFFF_F000,
        ensures
            final(self).wf(),
            final(self).active() == old(self).active(),
            r is Err ==> r == Err::<(), SnMapError>(SnMapError::PageAlreadyMapped) || r == Err::<(), SnMapError>(
                SnMapError::FrameAllocationFailed,
            ),
            forall|x: u64, y: u64|
                in_page_range(x, start_addr.0, end_addr.0) && in_page_range(y, start_addr.0, end_addr.0) && x != y
                    && r is Ok ==> (#[trigger] final(self).space(old(self).active()).mapping(x))->0.frame != (
                #[trigger] final(self).space(old(self).active()).mapping(y))->0.frame,
            r is Ok ==> forall|x: u64|
                in_page_range(x, start_addr.0, end_addr.0) ==> old(self).space(old(self).active()).mapping(x)
                    is None && (#[trigger] final(self).space(old(self).active()).mapping(x) matches Some(m)
                    && m.flags == user_ro_flags() && old(self).allocator().free_frames().contains(
                    old(self).allocator().frame_index(m.frame as int),
                )),
            forall|x: u64|
                !in_page_range(x, start_addr.0, end_addr.0) ==> #[trigger] final(self).space(
                    old(self).active(),
                ).mapping(x) == old(self).space(old(self).active()).mapping(x),
            r == Err::<(), SnMapError>(SnMapError::PageAlreadyMapped) ==> exists|x: u64|
                in_page_range(x, start_addr.0, end_addr.0) && (#[trigger] old(self).space(
                    old(self).active(),
                ).mapping(x)) is Some,
            r == Err::<(), SnMapError>(SnMapError::FrameAllocationFailed)
                ==> final(self).allocator().free_frames().is_empty(),
    {
        let l4 = self.active;
        let r = self.map_fresh_range(l4, start_addr.as_u64(), end_addr.as_u64(), page_flags(false, true, false), false);
        proof {
            if let Err(e) = r {
                assert(e != SnMapError::PageNotMapped && e != SnMapError::NoFreeSlot);
            }
        }
        r
    }

    /// Removes the mapping of `page` from the tree at `l4`. A user-accessible
    /// page of the kernel's tree may be seen by the user trees cloned from
    /// it, so it is not removed here.
    fn unmap_in(&mut self, l4: u64, page: u64) -> (r: Result<SnMapping, SnMapError>)
        requires
            old(self).wf(),
            old(self).has_space(l4),
            l4 == old(self).kernel().l4() ==> (old(self).space(l4).mapping(page) matches Some(m)
                ==> !m.flags.user_accessible),
        ensures
            final(self).wf(),
            final(self).active() == old(self).active(),
            final(self).allocator() == old(self).allocator(),
            final(self).kernel().l4() == old(self).kernel().l4(),
            forall|x: u64| #[trigger] final(self).has_space(x) == old(self).has_space(x),
            forall|x: u64|
                x != l4 && old(self).has_space(x) ==> #[trigger] final(self).space(x) == old(self).space(x),
            forall|lv: u8, pr: u64|
                #[trigger] final(self).space(l4).has_table(lv, pr) == old(self).space(l4).has_table(lv, pr),
            r matches Ok(m) ==> old(self).space(l4).mapping(page) == Some(m),
            r is Err <==> old(self).space(l4).mapping(page) is None,
            r is Err ==> r == Err::<SnMapping, SnMapError>(SnMapError::PageNotMapped),
            final(self).space(l4).mapping(page) is None,
            forall|p: u64|
                p != page ==> #[trigger] final(self).space(l4).mapping(p) == old(self).space(l4).mapping(p),
    {
        let ghost s0 = *self;
        if l4 == self.kernel.l4_phys() {
            let r = self.kernel.unmap_page(page);
            proof {
                self.kernel.lemma_same_tables(s0.kernel);
                lemma_owns_kernel_shrink(s0.frame_allocator, s0.kernel, self.kernel, s0.spaces@);
                assert(self.owns_frames());
                assert forall|x: u64| #[trigger] self.has_space(x) == s0.has_space(x) by {
                    assert(self.has_user_space(x) == s0.has_user_space(x));
                }
                assert forall|x: u64| x != l4 && s0.has_space(x) implies #[trigger] self.space(x) == s0.space(x) by {
                    assert(self.user_space(x) == s0.user_space(x));
                }
            }
            r
        } else {
            let i = self.find_user_space(l4).unwrap();
            let r = self.spaces[i].unmap_page(page);
            proof {
                assert(self.spaces@ == s0.spaces@.update(i as int, self.spaces@[i as int]));
                self.spaces@[i as int].lemma_same_tables(s0.spaces@[i as int]);
                assert(self.spaces@[i as int].table_frames() =~= s0.spaces@[i as int].table_frames());
                lemma_owns_user_shrink(s0.frame_allocator, s0.kernel, s0.spaces@, self.spaces@, i as int);
                assert(self.owns_frames());
                assert forall|j: int| 0 <= j < self.spaces@.len() implies (#[trigger] self.spaces@[j]).wf() by {
                    if j != i {
                        assert(self.spaces@[j] == s0.spaces@[j]);
                    }
                }
                assert forall|j: int| 0 <= j < self.spaces@.len() implies (#[trigger] self.spaces@[j]).l4()
                    == s0.spaces@[j].l4() by {
                    if j != i {
                        assert(self.spaces@[j] == s0.spaces@[j]);
                    }
                }
                assert(s0.has_user_space(self.active) ==> self.has_user_space(self.active)) by {
                    if s0.has_user_space(self.active) {
                        let j = choose|j: int| 0 <= j < s0.user_spaces().len() && (#[trigger] s0.user_spaces()[j]).l4() == self.active;
                        assert(self.user_spaces()[j].l4() == self.active);
                    }
                }
                assert(self.wf());
                s0.lemma_same_places(*self, i as int);
            }
            r
        }
    }

    /// Unmaps every page from `start_addr` to `end_addr` of the active tree.
    /// Fails at the first page that is not mapped, leaving the pages before it unmapped.
    pub fn unmap_memory(&mut self, start_addr: SnVirtAddr, end_addr: SnVirtAddr) -> (r: Result<
        (),
        SnMapError,
    >)
        requires
            old(self).wf(),
            start_addr.0 <= end_addr.0,
            end_addr.0 < 0xFFFF_FFFF_FFFF_F000,
            old(self).active() == old(self).kernel().l4() ==> forall|x: u64|
                in_page_range(x, start_addr.0, end_addr.0) ==> (#[trigger] old(self).kernel().mapping(x) matches Some(m)
                    ==> !m.flags.user_accessible),
        ensures
            final(self).wf(),
            final(self).active() == old(self).active(),
            final(self).allocator() == old(self).allocator(),
            forall|x: u64|
                !in_page_range(x, start_addr.0, end_addr.0) ==> #[trigger] final(self).space(
                    old(self).active(),
                ).mapping(x) == old(self).space(old(self).active()).mapping(x),
            r is Ok ==> forall|x: u64|
                in_page_range(x, start_addr.0, end_addr.0) ==> old(self).space(old(self).active()).mapping(x)
                    is Some && (#[trigger] final(self).space(old(self).active()).mapping(x)) is None,
            r is Err ==> r == Err::<(), SnMapError>(SnMapError::PageNotMapped) && exists|x: u64|
                in_page_range(x, start_addr.0, end_addr.0) && (#[trigger] old(self).space(
                    old(self).active(),
                ).mapping(x)) is None,
    {
        let ghost s0 = *self;
        let l4 = self.active;
        let first = page_containing(start_addr.as_u64());
        let last = page_containing(end_addr.as_u64());
        let mut p = first;
        while p <= last
            invariant
                self.wf(),
                s0 == *old(self),
                l4 == s0.active(),
                self.active() == s0.active(),
                self.allocator() == s0.allocator(),
                self.kernel().l4() == s0.kernel().l4(),
                s0.active() == s0.kernel().l4() ==> forall|x: u64|
                    in_page_range(x, start_addr.0, end_addr.0) ==> (#[trigger] s0.kernel().mapping(x) matches Some(m)
                        ==> !m.flags.user_accessible),
                self.has_space(l4),
                first == page_of(start_addr.0),
                last == page_of(end_addr.0),
                first <= p,
                p % 4096 == 0,
                first % 4096 == 0,
                last % 4096 == 0,
                p <= last + 4096,
                last < 0xFFFF_FFFF_FFFF_F000,
                forall|x: u64|
                    !(x % 4096 == 0 && first <= x < p) ==> #[trigger] self.space(l4).mapping(x) == s0.space(
                        l4,
                    ).mapping(x),
                forall|x: u64|
                    x % 4096 == 0 && first <= x < p ==> s0.space(l4).mapping(x) is Some && (
                    #[trigger] self.space(l4).mapping(x)) is None,
            decreases last + 4096 - p,
        {
            proof {
                assert(in_page_range(p, start_addr.0, end_addr.0));
                assert(self.space(l4).mapping(p) == s0.space(l4).mapping(p));
                if l4 == s0.kernel().l4() {
                    assert(s0.kernel().mapping(p) == s0.space(l4).mapping(p));
                }
            }
            match self.unmap_in(l4, p) {
                Ok(_) => {},
                Err(e) => {
                    return Err(SnMapError::PageNotMapped);
                },
            }
            p = p + 4096;
        }
        Ok(())
    }

    /// Maps the pages from `start_addr` to `end_addr` of the active tree to the
    /// frames that follow the one holding `phys_addr_start`, writable and
    /// uncached, skipping pages that are mapped already. Returns the number of
    /// bytes the range covers, the skipped pages included.
    pub fn map_phys_memory(
        &mut self,
        start_addr: SnVirtAddr,
        end_addr: SnVirtAddr,
        phys_addr_start: SnPhysAddr,
        size: usize,
    ) -> (r: Result<u64, SnMapError>)
        requires
            old(self).wf(),
            start_addr.0 <= end_addr.0,
            end_addr.0 < 0xFFFF_FFFF_FFFF_F000,
            page_of(phys_addr_start.0) + (page_of(end_addr.0) - page_of(start_addr.0)) + 4096 <= u64::MAX,
        ensures
            final(self).wf(),
            final(self).active() == old(self).active(),
            forall|x: u64|
                !in_page_range(x, start_addr.0, end_addr.0) ==> #[trigger] final(self).space(
                    old(self).active(),
                ).mapping(x) == old(self).space(old(self).active()).mapping(x),
            r matches Ok(c) ==> c == page_of(end_addr.0) - page_of(start_addr.0) + 4096,
            r is Ok ==> forall|x: u64|
                in_page_range(x, start_addr.0, end_addr.0) ==> #[trigger] final(self).space(
                    old(self).active(),
                ).mapping(x) == if old(self).space(old(self).active()).mapping(x) is Some {
                    old(self).space(old(self).active()).mapping(x)
                } else {
                    Some(
                        SnMapping {
                            page: x,
                            frame: (page_of(phys_addr_start.0) + (x - page_of(start_addr.0))) as u64,
                            flags: mmio_flags(),
                        },
                    )
                },
            r is Err ==> r == Err::<u64, SnMapError>(SnMapError::FrameAllocationFailed)
                && final(self).allocator().free_frames().is_empty(),
    {
        let ghost s0 = *self;
        let l4 = self.active;
        let first = page_containing(start_addr.as_u64());
        let last = page_containing(end_addr.as_u64());
        let phys_first = page_containing(phys_addr_start.as_u64());
        let mut p = first;
        let mut counter: u64 = 0;
        while p <= last
            invariant
                self.wf(),
                s0 == *old(self),
                l4 == s0.active(),
                self.active() == s0.active(),
                self.has_space(l4),
                first == page_of(start_addr.0),
                last == page_of(end_addr.0),
                phys_first == page_of(phys_addr_start.0),
                phys_first + (last - first) + 4096 <= u64::MAX,
                first <= p,
                p % 4096 == 0,
                first % 4096 == 0,
                last % 4096 == 0,
                p <= last + 4096,
                counter == p - first,
                last < 0xFFFF_FFFF_FFFF_F000,
                forall|x: u64|
                    !(x % 4096 == 0 && first <= x < p) ==> #[trigger] self.space(l4).mapping(x) == s0.space(
                        l4,
                    ).mapping(x),
                forall|x: u64|
                    x % 4096 == 0 && first <= x < p ==> #[trigger] self.space(l4).mapping(x) == if s0.space(
                        l4,
                    ).mapping(x) is Some {
                        s0.space(l4).mapping(x)
                    } else {
                        Some(SnMapping { page: x, frame: (phys_first + (x - first)) as u64, flags: mmio_flags() })
                    },
            decreases last + 4096 - p,
        {
            if self.translate(l4, p).is_none() {
                let frame = phys_first + counter;
                match self.map_in(l4, p, frame, page_flags(true, false, true)) {
                    Ok(()) => {},
                    Err(e) => {
                        return Err(SnMapError::FrameAllocationFailed);
                    },
                }
            }
            p = p + 4096;
            counter = counter + 4096;
        }
        Ok(counter)
    }

    /// Maps the page holding `virt_addr` of the active tree to the frame
    /// holding `phys_addr`, writable and uncached.
    pub fn map_phys_page(&mut self, phys_addr: SnPhysAddr, virt_addr: SnVirtAddr) -> (r: Result<
        (),
        SnMapError,
    >)
        requires
            old(self).wf(),
        ensures
            final(self).wf(),
            final(self).active() == old(self).active(),
            r is Ok ==> final(self).space(old(self).active()).mapping(page_of(virt_addr.0)) == Some(
                SnMapping { page: page_of(virt_addr.0), frame: page_of(phys_addr.0), flags: mmio_flags() },
            ),
            forall|x: u64|
                x != page_of(virt_addr.0) ==> #[trigger] final(self).space(old(self).active()).mapping(x)
                    == old(self).space(old(self).active()).mapping(x),
            old(self).space(old(self).active()).mapping(page_of(virt_addr.0)) is Some ==> r == Err::<
                (),
                SnMapError,
            >(SnMapError::PageAlreadyMapped),
            r == Err::<(), SnMapError>(SnMapError::FrameAllocationFailed)
                ==> final(self).allocator().free_frames().is_empty(),
            r != Err::<(), SnMapError>(SnMapError::FrameAllocationFailed) ==> (r is Ok
                <==> old(self).space(old(self).active()).mapping(page_of(virt_addr.0)) is None),
    {
        let l4 = self.active;
        let page = page_containing(virt_addr.as_u64());
        let frame = page_containing(phys_addr.as_u64());
        self.map_in(l4, page, frame, page_flags(true, false, true))
    }

    /// Makes a new user tree: a fresh level-4 table, below which the
    /// kernel's tree is copied with a fresh frame for every table. Returns
    /// where the new level-4 table is seen by the kernel and where it lies.
    pub fn create_new_user_pagetable(&mut self) -> (r: Result<(SnVirtAddr, SnPhysAddr), SnMapError>)
        requires
            old(self).wf(),
        ensures
            final(self).wf(),
            final(self).kernel() == old(self).kernel(),
            final(self).active() == old(self).active(),
            final(self).allocator().free_frames().subset_of(old(self).allocator().free_frames()),
            forall|x: u64|
                #[trigger] old(self).has_space(x) ==> final(self).has_space(x) && final(self).space(x)
                    == old(self).space(x),
            r matches Ok((v, p)) ==> {
                &&& !old(self).has_space(p.0)
                &&& final(self).has_space(p.0)
                &&& v.0 == old(self).allocator().hhdm() + p.0
                &&& old(self).allocator().free_frames().contains(old(self).allocator().frame_index(p.0 as int))
                &&& forall|x: u64| #[trigger] final(self).space(p.0).mapping(x) == old(self).kernel().mapping(x)
                &&& forall|l: u8, x: u64|
                    #[trigger] final(self).space(p.0).has_table(l, x) == old(self).kernel().has_table(l, x)
                &&& final(self).space(p.0).user_frames() == old(self).kernel().user_frames()
                &&& forall|x: u64| #[trigger] final(self).has_space(x) ==> old(self).has_space(x) || x == p.0
            },
            r is Err ==> r == Err::<(SnVirtAddr, SnPhysAddr), SnMapError>(
                SnMapError::FrameAllocationFailed,
            ) && final(self).allocator().free_frames().is_empty() && forall|x: u64|
                #[trigger] final(self).has_space(x) == old(self).has_space(x),
    {
        let ghost s0 = *self;
        let taken_l4 = self.take_frame();
        let l4 = match taken_l4 {
            None => {
                proof {
                    assert forall|x: u64| #[trigger] s0.has_space(x) implies self.has_space(x) && self.space(x)
                        == s0.space(x) by {}
                    assert forall|x: u64| #[trigger] self.has_space(x) == s0.has_space(x) by {}
                }
                return Err(SnMapError::FrameAllocationFailed);
            },
            Some(f) => f,
        };
        let ghost s1 = *self;
        proof {
            assert(self.space(l4) == s1.space(l4));
            if s0.has_space(l4) {
                if l4 == s0.kernel.l4() {
                    assert(s0.kernel.table_frames().contains(l4));
                } else {
                    let j = choose|j: int| 0 <= j < s0.user_spaces().len() && (#[trigger] s0.user_spaces()[j]).l4() == l4;
                    assert(s0.spaces@[j].table_frames().contains(l4));
                    assert(table_frame_of(s0.kernel, s0.spaces@, l4));
                }
            }
        }
        let cloned = self.kernel.clone_tree(&mut self.frame_allocator, l4);
        match cloned {
            Err(e) => {
                proof {
                    // the frames the clone took were free, so they belong to no tree
                    assert(owns(self.frame_allocator, self.kernel, self.spaces@)) by {
                        let a1 = s1.frame_allocator;
                        let a2 = self.frame_allocator;
                        assert forall|f: u64|
                            (table_frame_of(self.kernel, self.spaces@, f) || user_frame_of(self.kernel, self.spaces@, f))
                                && #[trigger] a2.manages(f as int) implies !a2.free_frames().contains(
                            a2.frame_index(f as int),
                        ) by {
                            assert(a1.manages(f as int));
                        }
                        assert forall|f: u64| #[trigger] a2.manages(f as int) && table_frame_of(self.kernel, self.spaces@, f)
                            implies !user_frame_of(self.kernel, self.spaces@, f) by {
                            assert(a1.manages(f as int));
                        }
                        assert forall|i: int, f: u64|
                            0 <= i < self.spaces@.len() && #[trigger] self.spaces@[i].table_frames().contains(f)
                                && a2.manages(f as int) implies !self.kernel.table_frames().contains(f) by {
                            assert(a1.manages(f as int));
                        }
                        assert forall|i: int, j: int, f: u64|
                            0 <= i < self.spaces@.len() && 0 <= j < self.spaces@.len() && i != j
                                && #[trigger] self.spaces@[i].user_frames().contains(f)
                                && #[trigger] self.spaces@[j].user_frames().contains(f) && a2.manages(f as int)
                                implies self.kernel.user_frames().contains(f) by {
                            assert(a1.manages(f as int));
                        }
                    }
                    assert forall|x: u64| #[trigger] s0.has_space(x) implies self.has_space(x) && self.space(x)
                        == s0.space(x) by {}
                    assert forall|x: u64| #[trigger] self.has_space(x) == s0.has_space(x) by {}
                }
                Err(SnMapError::FrameAllocationFailed)
            },
            Ok(c) => {
                let ghost a2 = self.frame_allocator;
                proof {
                    lemma_owns_push(s1.frame_allocator, a2, s1.kernel, s1.spaces@, c, l4);
                }
                self.spaces.push(c);
                proof {
                    let last = self.spaces@.len() - 1;
                    assert(self.spaces@ == s1.spaces@.push(c));
                    assert(self.owns_frames());
                    assert forall|j: int| 0 <= j < self.spaces@.len() implies (#[trigger] self.spaces@[j]).wf() by {
                        if j < last {
                            assert(self.spaces@[j] == s1.spaces@[j]);
                        }
                    }
                    assert forall|j: int| 0 <= j < self.spaces@.len() implies (#[trigger] self.spaces@[j]).l4()
                        != self.kernel.l4() by {
                        if j < last {
                            assert(self.spaces@[j] == s1.spaces@[j]);
                        }
                    }
                    assert forall|a: int, b: int| 0 <= a < b < self.spaces@.len() implies (#[trigger] self.spaces@[a]).l4()
                        != (#[trigger] self.spaces@[b]).l4() by {
                        assert(self.spaces@[a] == s1.spaces@[a]);
                        if b < last {
                            assert(self.spaces@[b] == s1.spaces@[b]);
                        } else {
                            assert(s1.user_spaces()[a].l4() != l4);
                        }
                    }
                    assert(s1.has_user_space(self.active) ==> self.has_user_space(self.active)) by {
                        if s1.has_user_space(self.active) {
                            let j = choose|j: int| 0 <= j < s1.user_spaces().len() && (#[trigger] s1.user_spaces()[j]).l4() == self.active;
                            assert(self.user_spaces()[j] == s1.user_spaces()[j]);
                        }
                    }
                    assert(self.wf());
                    self.lemma_space_at(last);
                    assert forall|x: u64| #[trigger] s0.has_space(x) implies self.has_space(x) && self.space(x)
                        == s0.space(x) by {
                        if x != s0.kernel.l4() {
                            let i = choose|i: int|
                                0 <= i < s0.user_spaces().len() && (#[trigger] s0.user_spaces()[i]).l4() == x;
                            s0.lemma_space_at(i);
                            assert(self.spaces@[i] == s0.spaces@[i]);
                            self.lemma_space_at(i);
                        }
                    }
                    assert forall|x: u64| #[trigger] self.has_space(x) implies s0.has_space(x) || x == l4 by {
                        if x != self.kernel.l4() {
                            let i = choose|i: int|
                                0 <= i < self.user_spaces().len() && (#[trigger] self.user_spaces()[i]).l4() == x;
                            if i < last {
                                assert(s0.user_spaces()[i] == self.user_spaces()[i]);
                            }
                        }
                    }
                }
                let v = SnVirtAddr::new(self.frame_allocator.physical_memory_offset() + l4);
                Ok((v, SnPhysAddr::new(l4)))
            },
        }
    }

    /// Drops the user tree at `l4`: gives back the frames of its
    /// user-accessible pages that the kernel's tree does not map, then the
    /// frames of its tables. None of them was free before.
    pub fn free_user_pagetables(&mut self, l4: u64)
        requires
            old(self).wf(),
            old(self).has_user_space(l4),
            old(self).active() != l4,
        ensures
            final(self).wf(),
            final(self).active() == old(self).active(),
            final(self).kernel() == old(self).kernel(),
            !final(self).has_space(l4),
            forall|x: u64|
                x != l4 ==> #[trigger] final(self).has_space(x) == old(self).has_space(x),
            forall|x: u64|
                x != l4 && old(self).has_space(x) ==> #[trigger] final(self).space(x) == old(self).space(x),
            final(self).allocator().free_frames() == old(self).allocator().free_frames().union(
                old(self).space(l4).released(old(self).kernel(), old(self).allocator()),
            ),
            old(self).space(l4).released(old(self).kernel(), old(self).allocator()).disjoint(
                old(self).allocator().free_frames(),
            ),
    {
        let ghost s0 = *self;
        let i = self.find_user_space(l4).unwrap();
        let x = self.spaces.remove(i);
        proof {
            assert(x == s0.spaces@[i as int]);
            s0.lemma_space_at(i as int);
        }
        x.release(&self.kernel, &mut self.frame_allocator);
        proof {
            lemma_owns_remove(s0.frame_allocator, self.frame_allocator, s0.kernel, s0.spaces@, i as int);
            assert(self.spaces@ == s0.spaces@.remove(i as int));
            assert(self.owns_frames());
            let n = s0.spaces@.len();
            assert forall|j: int| 0 <= j < self.spaces@.len() implies #[trigger] self.spaces@[j] == s0.spaces@[if j
                < i { j } else { j + 1 }] by {}
            assert forall|j: int| 0 <= j < self.spaces@.len() implies (#[trigger] self.spaces@[j]).wf() by {
                assert(self.spaces@[j] == s0.spaces@[if j < i { j } else { j + 1 }]);
            }
            assert forall|j: int| 0 <= j < self.spaces@.len() implies (#[trigger] self.spaces@[j]).l4()
                != self.kernel.l4() by {
                assert(self.spaces@[j] == s0.spaces@[if j < i { j } else { j + 1 }]);
            }
            assert forall|a: int, b: int| 0 <= a < b < self.spaces@.len() implies (#[trigger] self.spaces@[a]).l4()
                != (#[trigger] self.spaces@[b]).l4() by {
                let oa = if a < i { a } else { a + 1 };
                let ob = if b < i { b } else { b + 1 };
                assert(self.spaces@[a] == s0.spaces@[oa]);
                assert(self.spaces@[b] == s0.spaces@[ob]);
                assert(s0.spaces@[oa].l4() != s0.spaces@[ob].l4());
            }
            assert forall|y: u64| #[trigger] self.has_user_space(y) == (s0.has_user_space(y) && y != l4) by {
                if self.has_user_space(y) {
                    let j = choose|j: int| 0 <= j < self.user_spaces().len() && (#[trigger] self.user_spaces()[j]).l4() == y;
                    let oj = if j < i { j } else { j + 1 };
                    assert(self.spaces@[j] == s0.spaces@[oj]);
                    assert(s0.user_spaces()[oj].l4() == y);
                    assert(s0.spaces@[oj].l4() != s0.spaces@[i as int].l4() || oj == i);
                    if oj < i {
                        assert(s0.spaces@[oj].l4() != s0.spaces@[i as int].l4());
                    } else {
                        assert(s0.spaces@[i as int].l4() != s0.spaces@[oj].l4());
                    }
                }
                if s0.has_user_space(y) && y != l4 {
                    let oj = choose|j: int| 0 <= j < s0.user_spaces().len() && (#[trigger] s0.user_spaces()[j]).l4() == y;
                    assert(oj != i);
                    let j = if oj < i { oj } else { oj - 1 };
                    assert(self.spaces@[j] == s0.spaces@[oj]);
                    assert(self.user_spaces()[j].l4() == y);
                }
            }
            assert(self.wf());
            assert forall|y: u64| y != l4 && s0.has_space(y) implies #[trigger] self.space(y) == s0.space(y) by {
                if y != s0.kernel.l4() {
                    let oj = choose|j: int| 0 <= j < s0.user_spaces().len() && (#[trigger] s0.user_spaces()[j]).l4() == y;
                    s0.lemma_space_at(oj);
                    assert(oj != i);
                    let j = if oj < i { oj } else { oj - 1 };
                    assert(self.spaces@[j] == s0.spaces@[oj]);
                    self.lemma_space_at(j);
                }
            }
        }
    }

    /// The slot `k` of a region: `k` strides past its start.
    pub open spec fn slot_base(region_start: u64, stride: u64, k: nat) -> int {
        region_start + k * stride
    }

    /// Every slot of the region below `region_end` has its level-1 table in the tree at `l4`.
    pub open spec fn slots_all_used(self, l4: u64, region_start: u64, region_end: u64, stride: u64) -> bool {
        forall|k: nat|
            #[trigger] Self::slot_base(region_start, stride, k) < region_end ==> self.space(l4).has_table(
                1,
                (Self::slot_base(region_start, stride, k) as u64) >> 21,
            )
    }

    /// Finds the lowest slot from `region_start` on, `stride` apart and below
    /// `region_end`, for which the tree at `l4` has no level-1 table.
    fn find_free_slot(&self, l4: u64, region_start: u64, region_end: u64, stride: u64) -> (r: Option<u64>)
        requires
            self.wf(),
            self.has_space(l4),
            region_start % SLOT_SIZE == 0,
            region_start <= region_end,
            stride % SLOT_SIZE == 0,
            stride > 0,
            region_end < 0xFFFF_0000_0000_0000,
        ensures
            r matches Some(base) ==> {
                &&& region_start <= base < region_end
                &&& base % SLOT_SIZE == 0
                &&& (base - region_start) % (stride as int) == 0
                &&& !self.space(l4).has_table(1, base >> 21)
            },
            r is None ==> self.slots_all_used(l4, region_start, region_end, stride),
    {
        let mut base = region_start;
        let ghost mut k: nat = 0;
        assert((base - region_start) % (stride as int) == 0) by (nonlinear_arith)
            requires
                base == region_start,
                stride > 0,
        ;
        while base < region_end
            invariant
                self.wf(),
                self.has_space(l4),
                region_start <= base,
                base == Self::slot_base(region_start, stride, k),
                base % SLOT_SIZE == 0,
                (base - region_start) % (stride as int) == 0,
                stride % SLOT_SIZE == 0,
                stride > 0,
                region_end < 0xFFFF_0000_0000_0000,
                base <= region_end + stride,
                forall|j: nat|
                    j < k ==> #[trigger] Self::slot_base(region_start, stride, j) < region_end ==> self.space(
                        l4,
                    ).has_table(1, (Self::slot_base(region_start, stride, j) as u64) >> 21),
            decreases region_end + stride - base,
        {
            let found = if l4 == self.kernel.l4_phys() {
                self.kernel.find_table(1, base >> 21)
            } else {
                let i = self.find_user_space(l4).unwrap();
                self.spaces[i].find_table(1, base >> 21)
            };
            if !found {
                return Some(base);
            }
            proof {
                assert forall|j: nat|
                    j < k + 1 && #[trigger] Self::slot_base(region_start, stride, j) < region_end implies self.space(
                        l4,
                    ).has_table(1, (Self::slot_base(region_start, stride, j) as u64) >> 21) by {
                    if j == k {
                        assert(Self::slot_base(region_start, stride, j) == base);
                    }
                }
            }
            if stride > region_end - base {
                proof {
                    assert forall|j: nat| #[trigger] Self::slot_base(region_start, stride, j) < region_end implies self.space(
                        l4,
                    ).has_table(1, (Self::slot_base(region_start, stride, j) as u64) >> 21) by {
                        if j > k {
                            assert(Self::slot_base(region_start, stride, j) >= base + stride) by (nonlinear_arith)
                                requires
                                    j > k,
                                    base == region_start + k * stride,
                                    Self::slot_base(region_start, stride, j) == region_start + j * stride,
                                    stride > 0,
                            ;
                        }
                    }
                }
                return None;
            }
            proof {
                assert((base + stride - region_start) % (stride as int) == 0) by (nonlinear_arith)
                    requires
                        (base - region_start) % (stride as int) == 0,
                        stride > 0,
                        base >= region_start,
                ;
                assert((base + stride) % (SLOT_SIZE as int) == 0) by (nonlinear_arith)
                    requires
                        base % SLOT_SIZE == 0,
                        stride % SLOT_SIZE == 0,
                ;
                assert(base + stride == Self::slot_base(region_start, stride, k + 1)) by (nonlinear_arith)
                    requires
                        base == region_start + k * stride,
                        Self::slot_base(region_start, stride, (k + 1) as nat) == region_start + (k + 1) * stride,
                ;
            }
            base = base + stride;
            proof {
                k = k + 1;
            }
        }
        proof {
            assert forall|j: nat| #[trigger] Self::slot_base(region_start, stride, j) < region_end implies self.space(
                l4,
            ).has_table(1, (Self::slot_base(region_start, stride, j) as u64) >> 21) by {
                if j >= k {
                    assert(Self::slot_base(region_start, stride, j) >= base) by (nonlinear_arith)
                        requires
                            j >= k,
                            base == region_start + k * stride,
                            Self::slot_base(region_start, stride, j) == region_start + j * stride,
                            stride > 0,
                    ;
                }
            }
        }
        None
    }

    /// Maps the lowest free slot of the tree at `l4` from `region_start` on,
    /// `stride` apart: its first `guard` bytes stay unmapped, its other pages
    /// get fresh frames, writable and user-accessible.
    #[verifier::rlimit(60)]
    fn map_user_slot(&mut self, l4: u64, region_start: u64, region_end: u64, stride: u64, guard: u64) -> (r:
        Result<(u64, u64), SnMapError>)
        requires
            old(self).wf(),
            old(self).has_space(l4),
            region_start % SLOT_SIZE == 0,
            region_start <= region_end,
            stride % SLOT_SIZE == 0,
            stride > 0,
            region_end < 0xFFFF_0000_0000_0000,
            guard == 0 || guard == 4096,
        ensures
            final(self).wf(),
            final(self).active() == old(self).active(),
            forall|x: u64| #[trigger] final(self).has_space(x) == old(self).has_space(x),
            forall|x: u64|
                x != l4 && old(self).has_space(x) ==> #[trigger] final(self).space(x) == old(self).space(x),
            final(self).allocator().free_frames().subset_of(old(self).allocator().free_frames()),
            r matches Ok((bottom, top)) ==> {
                &&& region_start <= bottom - guard < region_end
                &&& (bottom - guard) % (SLOT_SIZE as int) == 0
                &&& (bottom - guard - region_start) % (stride as int) == 0
                &&& top == bottom - guard + SLOT_SIZE
                &&& !old(self).space(l4).has_table(1, ((bottom - guard) as u64) >> 21)
                &&& final(self).space(l4).has_table(1, ((bottom - guard) as u64) >> 21)
                &&& forall|x: u64|
                    (bottom - guard) <= x < top ==> #[trigger] old(self).space(l4).mapping(x) is None
                &&& forall|x: u64|
                    x % 4096 == 0 && bottom <= x < top ==> (#[trigger] final(self).space(l4).mapping(x) matches Some(m)
                        && m.page == x && m.flags == user_rw_flags()
                        && old(self).allocator().free_frames().contains(
                        old(self).allocator().frame_index(m.frame as int),
                    ))
                &&& forall|x: u64|
                    !(bottom <= x < top) ==> #[trigger] final(self).space(l4).mapping(x) == old(self).space(
                        l4,
                    ).mapping(x)
            },
            r is Err ==> r == Err::<(u64, u64), SnMapError>(SnMapError::NoFreeSlot) || (r
                == Err::<(u64, u64), SnMapError>(SnMapError::FrameAllocationFailed)
                && final(self).allocator().free_frames().is_empty()),
            r == Err::<(u64, u64), SnMapError>(SnMapError::NoFreeSlot) ==> old(self).slots_all_used(
                l4,
                region_start,
                region_end,
                stride,
            ) && *final(self) == *old(self),
    {
        let ghost s0 = *self;
        let base = match self.find_free_slot(l4, region_start, region_end, stride) {
            None => {
                return Err(SnMapError::NoFreeSlot);
            },
            Some(b) => b,
        };
        proof {
            s0.lemma_free_slot_unmapped(l4, base);
        }
        let bottom = base + guard;
        let top = base + SLOT_SIZE;
        match self.map_fresh_range(l4, bottom, top - 1, page_flags(true, true, false), false) {
            Ok(()) => {
                proof {
                    lemma_slot_range(bottom, top);
                    assert(in_page_range(bottom, bottom, (top - 1) as u64));
                    self.lemma_mapped_has_table(l4, bottom);
                    lemma_slot_prefix(base, bottom);
                }
                Ok((bottom, top))
            },
            Err(e) => {
                proof {
                    if e == SnMapError::PageAlreadyMapped {
                        let x = choose|x: u64|
                            in_page_range(x, bottom, (top - 1) as u64) && (#[trigger] s0.space(l4).mapping(x)) is Some;
                        lemma_slot_range(bottom, top);
                    }
                }
                Err(e)
            },
        }
    }

    /// Maps a fresh stack slot of the user tree at `pt_phys`: a 2 MiB slot
    /// between level-4 indices 3 and 6 that no stack uses, whose first page
    /// stays unmapped as a guard and whose other pages are writable and
    /// user-accessible. Returns the bottom and the top of the stack.
    pub fn map_user_stack_slot(&mut self, pt_phys: u64) -> (r: Result<(u64, u64), SnMapError>)
        requires
            old(self).wf(),
            old(self).has_space(pt_phys),
        ensures
            final(self).wf(),
            final(self).active() == old(self).active(),
            forall|x: u64| #[trigger] final(self).has_space(x) == old(self).has_space(x),
            forall|x: u64|
                x != pt_phys && old(self).has_space(x) ==> #[trigger] final(self).space(x) == old(self).space(x),
            final(self).allocator().free_frames().subset_of(old(self).allocator().free_frames()),
            r matches Ok((bottom, top)) ==> {
                &&& USER_STACK_REGION_START <= bottom - 4096 < USER_STACK_REGION_END
                &&& (bottom - 4096) % (SLOT_SIZE as int) == 0
                &&& top == bottom - 4096 + SLOT_SIZE
                &&& !old(self).space(pt_phys).has_table(1, ((bottom - 4096) as u64) >> 21)
                &&& forall|x: u64|
                    (bottom - 4096) <= x < top ==> #[trigger] old(self).space(pt_phys).mapping(x) is None
                &&& final(self).space(pt_phys).mapping((bottom - 4096) as u64) is None
                &&& forall|x: u64|
                    x % 4096 == 0 && bottom <= x < top ==> (#[trigger] final(self).space(pt_phys).mapping(x) matches Some(m)
                        && m.page == x && m.flags == user_rw_flags()
                        && old(self).allocator().free_frames().contains(
                        old(self).allocator().frame_index(m.frame as int),
                    ))
                &&& forall|x: u64|
                    !(bottom <= x < top) ==> #[trigger] final(self).space(pt_phys).mapping(x) == old(
                        self,
                    ).space(pt_phys).mapping(x)
            },
            r is Err ==> r == Err::<(u64, u64), SnMapError>(SnMapError::NoFreeSlot) || (r
                == Err::<(u64, u64), SnMapError>(SnMapError::FrameAllocationFailed)
                && final(self).allocator().free_frames().is_empty()),
            r == Err::<(u64, u64), SnMapError>(SnMapError::NoFreeSlot) ==> old(self).slots_all_used(
                pt_phys,
                USER_STACK_REGION_START,
                USER_STACK_REGION_END,
                SLOT_SIZE,
            ) && *final(self) == *old(self),
    {
        let r = self.map_user_slot(pt_phys, USER_STACK_REGION_START, USER_STACK_REGION_END, SLOT_SIZE, 4096);
        proof {
            if let Ok((bottom, top)) = r {
                assert(!(bottom <= ((bottom - 4096) as u64) < top));
            }
        }
        r
    }

    /// Maps a fresh heap slot of the user tree at `pt_phys`: the even 2 MiB
    /// slots between level-4 indices 7 and 11 hold heaps, the odd ones stay
    /// free. Returns the start and the end of the heap.
    pub fn map_user_heap_slot(&mut self, pt_phys: u64) -> (r: Result<(u64, u64), SnMapError>)
        requires
            old(self).wf(),
            old(self).has_space(pt_phys),
        ensures
            final(self).wf(),
            final(self).active() == old(self).active(),
            forall|x: u64| #[trigger] final(self).has_space(x) == old(self).has_space(x),
            forall|x: u64|
                x != pt_phys && old(self).has_space(x) ==> #[trigger] final(self).space(x) == old(self).space(x),
            final(self).allocator().free_frames().subset_of(old(self).allocator().free_frames()),
            r matches Ok((start, end)) ==> {
                &&& USER_HEAP_REGION_START <= start < USER_HEAP_REGION_END
                &&& (start - USER_HEAP_REGION_START) % (2 * SLOT_SIZE) as int == 0
                &&& end == start + SLOT_SIZE
                &&& forall|x: u64| start <= x < end ==> #[trigger] old(self).space(pt_phys).mapping(x) is None
                &&& forall|x: u64|
                    x % 4096 == 0 && start <= x < end ==> (#[trigger] final(self).space(pt_phys).mapping(x) matches Some(m)
                        && m.page == x && m.flags == user_rw_flags()
                        && old(self).allocator().free_frames().contains(
                        old(self).allocator().frame_index(m.frame as int),
                    ))
                &&& forall|x: u64|
                    !(start <= x < end) ==> #[trigger] final(self).space(pt_phys).mapping(x) == old(self).space(
                        pt_phys,
                    ).mapping(x)
            },
            r is Err ==> r == Err::<(u64, u64), SnMapError>(SnMapError::NoFreeSlot) || (r
                == Err::<(u64, u64), SnMapError>(SnMapError::FrameAllocationFailed)
                && final(self).allocator().free_frames().is_empty()),
            r == Err::<(u64, u64), SnMapError>(SnMapError::NoFreeSlot) ==> old(self).slots_all_used(
                pt_phys,
                USER_HEAP_REGION_START,
                USER_HEAP_REGION_END,
                (2 * SLOT_SIZE) as u64,
            ) && *final(self) == *old(self),
    {
        self.map_user_slot(pt_phys, USER_HEAP_REGION_START, USER_HEAP_REGION_END, 2 * SLOT_SIZE, 0)
    }

    /// Reads `len` bytes from `ptr` on as a user thread of the tree at `l4`
    /// sees them: `None` when one of them lies in a page the user may not read.
    pub fn read_user_bytes(&self, l4: u64, ptr: u64, len: u64) -> (r: Option<Vec<u8>>)
        requires
            self.wf(),
            self.has_space(l4),
            ptr + len <= u64::MAX,
        ensures
            r is Some <==> forall|i: int| 0 <= i < len ==> (#[trigger] self.user_byte(l4, (ptr + i) as u64)) is Some,
            r matches Some(v) ==> v@.len() == len && forall|i: int|
                0 <= i < len ==> #[trigger] self.user_byte(l4, (ptr + i) as u64) == Some(v@[i]),
    {
        let mut out: Vec<u8> = Vec::new();
        let mut i: u64 = 0;
        while i < len
            invariant
                self.wf(),
                self.has_space(l4),
                ptr + len <= u64::MAX,
                i <= len,
                out@.len() == i,
                forall|j: int| 0 <= j < i ==> #[trigger] self.user_byte(l4, (ptr + j) as u64) == Some(out@[j]),
            decreases len - i,
        {
            let va = ptr + i;
            let page = page_containing(va);
            match self.translate(l4, page) {
                None => {
                    assert(self.user_byte(l4, (ptr + i) as u64) is None);
                    return None;
                },
                Some(m) => {
                    if !m.flags.user_accessible || !self.frame_allocator.manages_frame(m.frame) {
                        assert(self.user_byte(l4, (ptr + i) as u64) is None);
                        return None;
                    }
                    let n = self.frame_allocator.frame_number(m.frame);
                    let off = va % 4096;
                    let flen = self.frames.len();
                    assert(n < flen);
                    let page_bytes = &self.frames[n as usize];
                    let b = if page_bytes.len() == 4096 {
                        page_bytes[off as usize]
                    } else {
                        0
                    };
                    assert(self.frame_byte(n as int, off as int) == b);
                    assert(self.user_byte(l4, va) == Some(b));
                    out.push(b);
                },
            }
            i = i + 1;
        }
        Some(out)
    }

    /// Writes `data` at `va` as a user thread of the tree at `l4` would; `va`
    /// and the bytes after it lie in one page, which the user must be able to read.
    pub fn write_user_page(&mut self, l4: u64, va: u64, data: &[u8]) -> (r: Result<(), SnMapError>)
        requires
            old(self).wf(),
            old(self).has_space(l4),
            va % 4096 + data@.len() <= 4096,
        ensures
            final(self).wf(),
            final(self).allocator() == old(self).allocator(),
            final(self).kernel() == old(self).kernel(),
            final(self).user_spaces() == old(self).user_spaces(),
            final(self).active() == old(self).active(),
            r is Err <==> old(self).user_byte(l4, va) is None,
            r is Err ==> r == Err::<(), SnMapError>(SnMapError::PageNotMapped) && *final(self) == *old(self),
            r is Ok ==> forall|i: int|
                0 <= i < data@.len() ==> #[trigger] final(self).user_byte(l4, (va + i) as u64) == Some(data@[i]),
            forall|x: u64|
                !(va <= x < va + data@.len()) ==> #[trigger] final(self).user_byte(l4, x) == old(self).user_byte(l4, x),
    {
        let page = page_containing(va);
        let m = match self.translate(l4, page) {
            None => {
                return Err(SnMapError::PageNotMapped);
            },
            Some(m) => m,
        };
        if !m.flags.user_accessible || !self.frame_allocator.manages_frame(m.frame) {
            return Err(SnMapError::PageNotMapped);
        }
        let n = self.frame_allocator.frame_number(m.frame);
        let off = va % 4096;
        let flen = self.frames.len();
        assert(n < flen);
        let old_page: &Vec<u8> = &self.frames[n as usize];
        let old_len = old_page.len();
        let mut fresh: Vec<u8> = Vec::new();
        let mut k: u64 = 0;
        while k < 4096
            invariant
                k <= 4096,
                fresh@.len() == k,
                off + data@.len() <= 4096,
                old_len == old_page@.len(),
                old_len == 0 || old_len == 4096,
                forall|j: int| off <= j < k && j < off + data@.len() ==> #[trigger] fresh@[j] == data@[j - off],
                forall|j: int|
                    0 <= j < k && !(off <= j < off + data@.len()) ==> #[trigger] fresh@[j] == (if old_len == 4096 {
                        old_page@[j]
                    } else {
                        0u8
                    }),
            decreases 4096 - k,
        {
            let b = if off <= k && k < off + data.len() as u64 {
                data[(k - off) as usize]
            } else if old_len == 4096 {
                old_page[k as usize]
            } else {
                0
            };
            fresh.push(b);
            k = k + 1;
        }
        let ghost s0 = *self;
        self.frames.set(n as usize, fresh);
        proof {
            assert forall|j: int| 0 <= j < self.frames@.len() implies (#[trigger] self.frames@[j])@.len() == 0
                || self.frames@[j]@.len() == 4096 by {
                if j != n {
                    assert(self.frames@[j] == s0.frames@[j]);
                }
            }
            assert(self.owns_frames() == s0.owns_frames());
            assert(self.has_space(self.active) == s0.has_space(self.active));
            assert forall|x: u64| !(va <= x < va + data@.len()) implies #[trigger] self.user_byte(l4, x)
                == s0.user_byte(l4, x) by {
                let px = page_of(x);
                assert(self.space(l4) == s0.space(l4));
                if let Some(mx) = s0.space(l4).mapping(px) {
                    if mx.flags.user_accessible && s0.allocator().manages(mx.frame as int) {
                        let nx = s0.allocator().frame_index(mx.frame as int);
                        if px == page {
                            assert(nx == n);
                            assert(x % 4096 < off || x % 4096 >= off + data@.len());
                        } else {
                            s0.lemma_space_wf(l4);
                            s0.space(l4).lemma_user_frames_distinct(px, page);
                            if nx == n {
                                s0.allocator().lemma_index_injective(mx.frame as int, m.frame as int);
                            }
                            assert(self.frames@[nx] == s0.frames@[nx]);
                        }
                    }
                }
            }
            assert forall|i: int| 0 <= i < data@.len() implies #[trigger] self.user_byte(l4, (va + i) as u64)
                == Some(data@[i]) by {
                let x = (va + i) as u64;
                assert(page_of(x) == page);
                assert(x % 4096 == off + i);
                assert(self.space(l4) == s0.space(l4));
            }
        }
        Ok(())
    }

    /// Maps the pages from `start` to `end` of the user tree at `l4` that are
    /// not mapped yet to fresh frames, writable and user-accessible.
    pub fn map_user_memory_in(&mut self, l4: u64, start: u64, end: u64) -> (r: Result<(), SnMapError>)
        requires
            old(self).wf(),
            old(self).has_space(l4),
            start <= end,
            end < 0xFFFF_FFFF_FFFF_F000,
        ensures
            final(self).wf(),
            final(self).active() == old(self).active(),
            forall|x: u64| #[trigger] final(self).has_space(x) == old(self).has_space(x),
            forall|x: u64|
                x != l4 && old(self).has_space(x) ==> #[trigger] final(self).space(x) == old(self).space(x),
            final(self).allocator().free_frames().subset_of(old(self).allocator().free_frames()),
            forall|x: u64|
                !in_page_range(x, start, end) ==> #[trigger] final(self).space(l4).mapping(x) == old(self).space(l4).mapping(x),
            r is Ok ==> forall|x: u64|
                in_page_range(x, start, end) ==> if old(self).space(l4).mapping(x) is Some {
                    #[trigger] final(self).space(l4).mapping(x) == old(self).space(l4).mapping(x)
                } else {
                    final(self).space(l4).mapping(x) matches Some(m) && m.page == x && m.flags
                        == user_rw_flags() && old(self).allocator().free_frames().contains(
                        old(self).allocator().frame_index(m.frame as int),
                    )
                },
            r is Err ==> r == Err::<(), SnMapError>(SnMapError::FrameAllocationFailed)
                && final(self).allocator().free_frames().is_empty(),
            l4 != old(self).kernel().l4() ==> final(self).kernel() == old(self).kernel(),
            forall|x: u64|
                old(self).space(l4).mapping(page_of(x)) is Some ==> #[trigger] final(self).user_byte(l4, x)
                    == old(self).user_byte(l4, x),
            r is Ok ==> forall|x: u64|
                in_page_range(page_of(x), start, end) && old(self).space(l4).mapping(page_of(x)) is None
                    ==> (#[trigger] final(self).user_byte(l4, x)) is Some,
    {
        let ghost s0 = *self;
        let r = self.map_fresh_range(l4, start, end, page_flags(true, true, false), true);
        proof {
            assert forall|x: u64| s0.space(l4).mapping(page_of(x)) is Some implies #[trigger] self.user_byte(l4, x)
                == s0.user_byte(l4, x) by {
                if !in_page_range(page_of(x), start, end) {
                    assert(self.space(l4).mapping(page_of(x)) == s0.space(l4).mapping(page_of(x)));
                } else if r is Ok {
                    assert(self.space(l4).mapping(page_of(x)) == s0.space(l4).mapping(page_of(x)));
                } else {
                    assert(self.space(l4).mapping(page_of(x)) == s0.space(l4).mapping(page_of(x)));
                }
            }
        }
        match r {
            Ok(()) => Ok(()),
            Err(e) => {
                assert(e != SnMapError::PageAlreadyMapped);
                assert(e != SnMapError::PageNotMapped);
                assert(e != SnMapError::NoFreeSlot);
                Err(SnMapError::FrameAllocationFailed)
            },
        }
    }
}

} // verus!
