//! The ELF loader: parses an executable and builds the user address space it runs in.
use vstd::prelude::*;
use object::{Object, ObjectSegment};
use crate::memory::{page_of, SnPhysAddr, SnVirtAddr};
use crate::paging::{in_page_range, user_rw_flags, MemoryInfo};

verus! {

/// Lowest address that user code can be loaded into.
pub const USER_CODE_START: u64 = 0x20_0000;

/// Exclusive upper limit for user code or data.
pub const USER_CODE_END: u64 = 0x5000_0000;

/// A loadable segment as the parser reports it.
pub struct SnElfSegment {
    pub address: u64,
    pub size: u64,
    pub data: Option<Vec<u8>>,
}

/// An executable as the parser reports it: the entry point and the loadable segments.
pub struct SnParsedElf {
    pub entry: u64,
    pub segments: Vec<SnElfSegment>,
}

impl SnElfSegment {
    pub open spec fn view(self) -> (u64, u64, Option<Seq<u8>>) {
        (
            self.address,
            self.size,
            match self.data {
                Some(d) => Some(d@),
                None => None,
            },
        )
    }
}

impl SnParsedElf {
    pub open spec fn view(self) -> (u64, Seq<(u64, u64, Option<Seq<u8>>)>) {
        (self.entry, self.segments@.map_values(|s: SnElfSegment| s.view()))
    }
}

/// What the ELF parser makes of a byte buffer: the entry point and, for each
/// loadable segment, its address, its size in memory and its bytes in the file.
pub uninterp spec fn elf_image_of(b: Seq<u8>) -> Option<(u64, Seq<(u64, u64, Option<Seq<u8>>)>)>;

/// Relies on object::File::parse, Object::entry, Object::segments and
/// ObjectSegment::{address, size, data}: the parse fails or yields the entry
/// point and the loadable segments, and depends on the bytes alone.
#[verifier::external_body]
fn parse_elf(bin: &[u8]) -> (r: Option<SnParsedElf>)
    ensures
        r is None <==> elf_image_of(bin@) is None,
        r matches Some(p) ==> elf_image_of(bin@) == Some(p.view()),
{
    let obj = object::File::parse(bin).ok()?;
    let mut segments = Vec::new();
    for s in obj.segments() {
        let data = s.data().ok().map(|d| d.to_vec());
        segments.push(SnElfSegment { address: s.address(), size: s.size(), data });
    }
    Some(SnParsedElf { entry: obj.entry(), segments })
}

/// Why an executable could not be loaded.
#[derive(Clone, Copy, Debug, PartialEq, Eq, Structural)]
pub enum SnLoadError {
    NotElf,
    ParseError,
    SegmentOutOfRange,
    OutOfMemory,
}

impl SnLoadError {
    pub fn message(&self) -> &'static str {
        match self {
            SnLoadError::NotElf => "Expected ELF binary",
            SnLoadError::ParseError => "Could not parse ELF",
            SnLoadError::SegmentOutOfRange => "ELF segment outside the user code range",
            SnLoadError::OutOfMemory => "Out of physical frames",
        }
    }
}

/// Something a user thread can be started from.
pub trait SnExecutable {
    spec fn spec_entry_point(&self) -> u64;

    spec fn spec_page_table_virt(&self) -> u64;

    spec fn spec_page_table_phys(&self) -> u64;

    fn entry_point(&self) -> (r: SnVirtAddr)
        ensures
            r.0 == self.spec_entry_point(),
    ;

    fn page_table_virt(&self) -> (r: SnVirtAddr)
        ensures
            r.0 == self.spec_page_table_virt(),
    ;

    fn page_table_phys(&self) -> (r: SnPhysAddr)
        ensures
            r.0 == self.spec_page_table_phys(),
    ;
}

/// A loaded ELF executable: where it starts and the user tree it runs in.
#[derive(Clone, Copy, Debug)]
pub struct SnElfExecutable {
    pub entry_point: SnVirtAddr,
    pub user_page_table_virt_addr: SnVirtAddr,
    pub user_page_table_phys_addr: SnPhysAddr,
}

impl SnExecutable for SnElfExecutable {
    open spec fn spec_entry_point(&self) -> u64 {
        self.entry_point.0
    }

    open spec fn spec_page_table_virt(&self) -> u64 {
        self.user_page_table_virt_addr.0
    }

    open spec fn spec_page_table_phys(&self) -> u64 {
        self.user_page_table_phys_addr.0
    }

    fn entry_point(&self) -> (r: SnVirtAddr) {
        self.entry_point
    }

    fn page_table_virt(&self) -> (r: SnVirtAddr) {
        self.user_page_table_virt_addr
    }

    fn page_table_phys(&self) -> (r: SnPhysAddr) {
        self.user_page_table_phys_addr
    }
}

/// The buffer starts with the ELF magic number.
pub open spec fn has_elf_magic(b: Seq<u8>) -> bool {
    b.len() >= 4 && b[0] == 0x7f && b[1] == 0x45 && b[2] == 0x4c && b[3] == 0x46
}

/// A segment lies inside the user code range.
pub open spec fn segment_in_range(address: u64, size: u64) -> bool {
    USER_CODE_START <= address && address + size <= USER_CODE_END
}

/// The loadable segments the parser finds in `b`.
pub open spec fn image_segments(b: Seq<u8>) -> Seq<(u64, u64, Option<Seq<u8>>)> {
    elf_image_of(b).unwrap().1
}

pub open spec fn segments_in_range(segs: Seq<(u64, u64, Option<Seq<u8>>)>) -> bool {
    forall|i: int| 0 <= i < segs.len() ==> segment_in_range(#[trigger] segs[i].0, segs[i].1)
}

pub fn elf_magic_ok(bin: &[u8]) -> (r: bool)
    ensures
        r == has_elf_magic(bin@),
{
    bin.len() >= 4 && bin[0] == 0x7f && bin[1] == 0x45 && bin[2] == 0x4c && bin[3] == 0x46
}

/// Writes the first `len` bytes of `data` at `start` into the user tree at
/// `l4`, page by page; bytes the user may not read are left alone.
fn copy_to_user(mem: &mut MemoryInfo, l4: u64, start: u64, data: &Vec<u8>, len: u64)
    requires
        old(mem).wf(),
        old(mem).has_space(l4),
        len <= data@.len(),
        start + len <= u64::MAX,
    ensures
        final(mem).wf(),
        final(mem).allocator() == old(mem).allocator(),
        final(mem).kernel() == old(mem).kernel(),
        final(mem).user_spaces() == old(mem).user_spaces(),
        final(mem).active() == old(mem).active(),
        forall|i: int|
            0 <= i < len && old(mem).user_byte(l4, (start + i) as u64) is Some ==> #[trigger] final(mem).user_byte(l4, (start + i) as u64) == Some(data@[i]),
        forall|x: u64| !(start <= x < start + len) ==> #[trigger] final(mem).user_byte(l4, x) == old(mem).user_byte(l4, x),
        forall|x: u64| (#[trigger] final(mem).user_byte(l4, x) is Some) == (old(mem).user_byte(l4, x) is Some),
{
    let ghost m0 = *mem;
    let mut done: u64 = 0;
    while done < len
        invariant
            mem.wf(),
            mem.has_space(l4),
            mem.allocator() == m0.allocator(),
            mem.kernel() == m0.kernel(),
            mem.user_spaces() == m0.user_spaces(),
            mem.active() == m0.active(),
            done <= len,
            len <= data@.len(),
            start + len <= u64::MAX,
            forall|i: int|
                0 <= i < done && m0.user_byte(l4, (start + i) as u64) is Some ==> #[trigger] mem.user_byte(
                    l4,
                    (start + i) as u64,
                ) == Some(data@[i]),
            forall|x: u64| !(start <= x < start + done) ==> #[trigger] mem.user_byte(l4, x) == m0.user_byte(l4, x),
            forall|x: u64| (#[trigger] mem.user_byte(l4, x) is Some) == (m0.user_byte(l4, x) is Some),
        decreases len - done,
    {
        let va = start + done;
        let room = 4096 - va % 4096;
        let n = if len - done < room {
            len - done
        } else {
            room
        };
        let mut chunk: Vec<u8> = Vec::new();
        let mut i: u64 = 0;
        let dlen = data.len();
        while i < n
            invariant
                i <= n,
                done + n <= len,
                len <= data@.len(),
                dlen == data@.len(),
                chunk@.len() == i,
                forall|j: int| 0 <= j < i ==> #[trigger] chunk@[j] == data@[done + j],
            decreases n - i,
        {
            chunk.push(data[(done + i) as usize]);
            i = i + 1;
        }
        let ghost before = *mem;
        let w = mem.write_user_page(l4, va, chunk.as_slice());
        proof {
            assert(mem.has_space(l4) == before.has_space(l4));
            assert forall|x: u64| (#[trigger] mem.user_byte(l4, x) is Some) == (m0.user_byte(l4, x) is Some) by {
                assert(mem.space(l4) == before.space(l4));
                assert((mem.user_byte(l4, x) is Some) == (before.user_byte(l4, x) is Some));
            }
            assert forall|i: int|
                0 <= i < done + n && m0.user_byte(l4, (start + i) as u64) is Some implies #[trigger] mem.user_byte(
                l4,
                (start + i) as u64,
            ) == Some(data@[i]) by {
                if i >= done {
                    let x = (start + i) as u64;
                    assert(page_of(x) == page_of(va));
                    if w is Err {
                        assert(before.user_byte(l4, x) == m0.user_byte(l4, x));
                        assert(before.space(l4) == mem.space(l4));
                    } else {
                        assert(x == (va + (i - done)) as u64);
                        assert(chunk@[i - done] == data@[i]);
                    }
                }
            }
        }
        done = done + n;
    }
}

/// How many bytes of a segment the loader copies: its bytes in the file, at
/// most its size in memory.
pub open spec fn copy_len(seg: (u64, u64, Option<Seq<u8>>)) -> int {
    match seg.2 {
        Some(d) => if d.len() < seg.1 {
            d.len() as int
        } else {
            seg.1 as int
        },
        None => 0,
    }
}

/// The loader copies a byte of `seg` to address `x`.
pub open spec fn copied_by(seg: (u64, u64, Option<Seq<u8>>), x: int) -> bool {
    seg.0 <= x < seg.0 + copy_len(seg)
}

/// No segment after segment `i` and before `upto` copies a byte to address `x`.
pub open spec fn not_copied_after(segs: Seq<(u64, u64, Option<Seq<u8>>)>, i: int, x: int, upto: int) -> bool {
    forall|k: int| i < k < upto ==> !copied_by(#[trigger] segs[k], x)
}

/// Loads the ELF executable in `bin`: checks its magic number, parses it,
/// checks that every loadable segment lies in the user code range, makes a
/// user tree cloned from the kernel's, maps each segment's pages there
/// writable and user-accessible, and copies the segment's bytes in.
pub fn load_elf(mem: &mut MemoryInfo, bin: &[u8]) -> (r: Result<SnElfExecutable, SnLoadError>)
    requires
        old(mem).wf(),
    ensures
        final(mem).wf(),
        final(mem).active() == old(mem).active(),
        final(mem).kernel() == old(mem).kernel(),
        forall|x: u64|
            #[trigger] old(mem).has_space(x) ==> final(mem).has_space(x) && final(mem).space(x) == old(
                mem,
            ).space(x),
        !has_elf_magic(bin@) ==> r == Err::<SnElfExecutable, SnLoadError>(SnLoadError::NotElf)
            && *final(mem) == *old(mem),
        has_elf_magic(bin@) && elf_image_of(bin@) is None ==> r == Err::<SnElfExecutable, SnLoadError>(
            SnLoadError::ParseError,
        ) && *final(mem) == *old(mem),
        has_elf_magic(bin@) && elf_image_of(bin@) is Some && !segments_in_range(image_segments(bin@))
            ==> r == Err::<SnElfExecutable, SnLoadError>(SnLoadError::SegmentOutOfRange) && *final(mem)
            == *old(mem),
        r is Err ==> r == Err::<SnElfExecutable, SnLoadError>(SnLoadError::NotElf) || r == Err::<
            SnElfExecutable,
            SnLoadError,
        >(SnLoadError::ParseError) || r == Err::<SnElfExecutable, SnLoadError>(
            SnLoadError::SegmentOutOfRange,
        ) || (r == Err::<SnElfExecutable, SnLoadError>(SnLoadError::OutOfMemory)
            && final(mem).allocator().free_frames().is_empty()),
        r == Err::<SnElfExecutable, SnLoadError>(SnLoadError::NotElf) ==> !has_elf_magic(bin@),
        r == Err::<SnElfExecutable, SnLoadError>(SnLoadError::ParseError) ==> has_elf_magic(bin@)
            && elf_image_of(bin@) is None,
        r == Err::<SnElfExecutable, SnLoadError>(SnLoadError::SegmentOutOfRange) ==> has_elf_magic(bin@)
            && elf_image_of(bin@) is Some && !segments_in_range(image_segments(bin@)),
        r matches Ok(exe) ==> {
            &&& has_elf_magic(bin@)
            &&& elf_image_of(bin@) matches Some(img)
            &&& segments_in_range(img.1)
            &&& exe.entry_point.0 == img.0
            &&& !old(mem).has_space(exe.user_page_table_phys_addr.0)
            &&& final(mem).has_space(exe.user_page_table_phys_addr.0)
            &&& exe.user_page_table_virt_addr.0 == old(mem).allocator().hhdm()
                + exe.user_page_table_phys_addr.0
            &&& forall|x: u64|
                #[trigger] old(mem).kernel().mapping(x) is Some ==> final(mem).space(
                    exe.user_page_table_phys_addr.0,
                ).mapping(x) == old(mem).kernel().mapping(x)
            &&& forall|i: int, x: u64|
                0 <= i < img.1.len() && img.1[i].1 > 0 && #[trigger] in_page_range(
                    x,
                    img.1[i].0,
                    (img.1[i].0 + img.1[i].1 - 1) as u64,
                ) ==> final(mem).space(exe.user_page_table_phys_addr.0).mapping(x) is Some
                    && (old(mem).kernel().mapping(x) is None ==> final(mem).space(
                    exe.user_page_table_phys_addr.0,
                ).mapping(x).unwrap().flags == user_rw_flags())
            &&& forall|i: int, j: int|
                0 <= i < img.1.len() && 0 <= j < copy_len(img.1[i]) && not_copied_after(
                    img.1,
                    i,
                    img.1[i].0 + j,
                    img.1.len() as int,
                ) && old(mem).kernel().mapping(page_of((img.1[i].0 + j) as u64)) is None
                    ==> #[trigger] final(mem).user_byte(exe.user_page_table_phys_addr.0, (img.1[i].0 + j) as u64)
                    == Some(img.1[i].2->0[j])
        },
{
    if !elf_magic_ok(bin) {
        return Err(SnLoadError::NotElf);
    }
    let parsed = match parse_elf(bin) {
        None => {
            return Err(SnLoadError::ParseError);
        },
        Some(p) => p,
    };
    let ghost segs = parsed.view().1;
    let mut k: usize = 0;
    while k < parsed.segments.len()
        invariant
            k <= parsed.segments@.len(),
            segs == parsed.view().1,
            *mem == *old(mem),
            mem.wf(),
            has_elf_magic(bin@),
            elf_image_of(bin@) == Some(parsed.view()),
            forall|j: int| 0 <= j < k ==> segment_in_range(#[trigger] segs[j].0, segs[j].1),
        decreases parsed.segments@.len() - k,
    {
        let seg = &parsed.segments[k];
        if seg.address < USER_CODE_START || seg.address > USER_CODE_END || seg.size > USER_CODE_END
            - seg.address {
            assert(segs[k as int].0 == seg.address);
            return Err(SnLoadError::SegmentOutOfRange);
        }
        k = k + 1;
    }
    let ghost m0 = *mem;
    let (virt, phys) = match mem.create_new_user_pagetable() {
        Err(e) => {
            return Err(SnLoadError::OutOfMemory);
        },
        Ok(t) => t,
    };
    let l4 = phys.as_u64();
    let mut k: usize = 0;
    while k < parsed.segments.len()
        invariant
            k <= parsed.segments@.len(),
            segs == parsed.view().1,
            segments_in_range(segs),
            mem.wf(),
            mem.has_space(l4),
            m0 == *old(mem),
            has_elf_magic(bin@),
            elf_image_of(bin@) == Some(parsed.view()),
            virt.0 == m0.allocator().hhdm() + l4,
            !m0.has_space(l4),
            mem.active() == m0.active(),
            mem.kernel() == m0.kernel(),
            forall|x: u64|
                #[trigger] m0.has_space(x) ==> mem.has_space(x) && mem.space(x) == m0.space(x),
            forall|x: u64|
                #[trigger] m0.kernel().mapping(x) is Some ==> mem.space(l4).mapping(x) == m0.kernel().mapping(x),
            forall|j: int, x: u64|
                0 <= j < k && segs[j].1 > 0 && #[trigger] in_page_range(x, segs[j].0, (segs[j].0 + segs[j].1 - 1) as u64)
                    ==> mem.space(l4).mapping(x) is Some && (m0.kernel().mapping(x) is None
                    ==> mem.space(l4).mapping(x).unwrap().flags == user_rw_flags()),
            forall|x: u64|
                m0.kernel().mapping(x) is None && (#[trigger] mem.space(l4).mapping(x)) is Some
                    ==> mem.space(l4).mapping(x).unwrap().flags == user_rw_flags(),
            forall|x: u64|
                m0.kernel().mapping(page_of(x)) is None && mem.space(l4).mapping(page_of(x)) is Some
                    ==> (#[trigger] mem.user_byte(l4, x)) is Some,
            forall|i: int, j: int|
                0 <= i < k && 0 <= j < copy_len(segs[i]) && not_copied_after(segs, i, segs[i].0 + j, k as int)
                    && m0.kernel().mapping(page_of((segs[i].0 + j) as u64)) is None
                    ==> #[trigger] mem.user_byte(l4, (segs[i].0 + j) as u64) == Some(segs[i].2->0[j]),
        decreases parsed.segments@.len() - k,
    {
        let seg = &parsed.segments[k];
        assert(segs[k as int].0 == seg.address && segs[k as int].1 == seg.size);
        if seg.size > 0 {
            let ghost before = *mem;
            match mem.map_user_memory_in(l4, seg.address, seg.address + seg.size - 1) {
                Err(e) => {
                    return Err(SnLoadError::OutOfMemory);
                },
                Ok(()) => {},
            }
            proof {
                assert forall|x: u64| #[trigger] m0.has_space(x) implies mem.has_space(x) && mem.space(x) == m0.space(x) by {
                    assert(x != l4);
                }
                assert forall|x: u64|
                    m0.kernel().mapping(page_of(x)) is None && mem.space(l4).mapping(page_of(x)) is Some implies (
                    #[trigger] mem.user_byte(l4, x)) is Some by {
                    if before.space(l4).mapping(page_of(x)) is Some {
                        assert(mem.user_byte(l4, x) == before.user_byte(l4, x));
                    } else {
                        assert(in_page_range(page_of(x), seg.address, (seg.address + seg.size - 1) as u64));
                    }
                }
                assert forall|i: int, j: int|
                    0 <= i < k && 0 <= j < copy_len(segs[i]) && not_copied_after(segs, i, segs[i].0 + j, k as int)
                        && m0.kernel().mapping(page_of((segs[i].0 + j) as u64)) is None implies #[trigger] mem.user_byte(
                    l4,
                    (segs[i].0 + j) as u64,
                ) == Some(segs[i].2->0[j]) by {
                    let x = (segs[i].0 + j) as u64;
                    assert(before.user_byte(l4, x) is Some);
                    assert(mem.user_byte(l4, x) == before.user_byte(l4, x));
                }
            }
            match &seg.data {
                Some(d) => {
                    let len = if (d.len() as u64) < seg.size {
                        d.len() as u64
                    } else {
                        seg.size
                    };
                    let ghost before_copy = *mem;
                    copy_to_user(mem, l4, seg.address, d, len);
                    proof {
                        assert forall|x: u64| #[trigger] mem.has_space(x) == before_copy.has_space(x) by {}
                        assert forall|x: u64| #[trigger] mem.space(x) == before_copy.space(x) by {}
                        assert(copy_len(segs[k as int]) == len);
                        assert forall|i: int, j: int|
                            0 <= i < k + 1 && 0 <= j < copy_len(segs[i]) && not_copied_after(
                                segs,
                                i,
                                segs[i].0 + j,
                                k + 1,
                            ) && m0.kernel().mapping(page_of((segs[i].0 + j) as u64)) is None implies #[trigger] mem.user_byte(
                            l4,
                            (segs[i].0 + j) as u64,
                        ) == Some(segs[i].2->0[j]) by {
                            let x = (segs[i].0 + j) as u64;
                            if i < k {
                                assert(!copied_by(segs[k as int], segs[i].0 + j));
                                assert(not_copied_after(segs, i, segs[i].0 + j, k as int));
                            } else {
                                assert(in_page_range(page_of(x), seg.address, (seg.address + seg.size - 1) as u64));
                                assert(before_copy.user_byte(l4, x) is Some);
                                assert(x == (seg.address + j) as u64);
                            }
                        }
                    }
                },
                None => {},
            }
        }
        k = k + 1;
    }
    Ok(
        SnElfExecutable {
            entry_point: SnVirtAddr::new(parsed.entry),
            user_page_table_virt_addr: virt,
            user_page_table_phys_addr: phys,
        },
    )
}

} // verus!
