//! How the kernel's ELF file is loaded: what each segment is mapped to,
//! which pages its zeroed part needs, and which relocations its dynamic
//! segment asks for. The page tables are changed by the caller, step by
//! step, as these plans say.
use vstd::prelude::*;

use crate::addr::{frame_containing, page_floor, FrameError};
use crate::bootloader::binary::elf::{
    dynamics_safe, elf_dynamic, elf_segments, is_dynamic, kinds_match, ph_exists, read_dynamic, read_segments,
    seg_data_safe, seg_type, segments_safe, DynEntry, DynTag, Segment, SegmentKind,
};
use crate::bootloader::boot_info::TlsTemplate;
use crate::drivers::page_mapper::{
    lemma_map_4k_mapped, lemma_map_keeps_mapped, map_spec, mapped_4k, FrameAllocator, OffsetMapper,
    PageSize, ADDR_MASK, PRESENT, WRITABLE,
};

verus! {

/// The address rounded up to a page boundary.
pub open spec fn align_up(a: int) -> int {
    page_floor(a + 4095)
}

/// `addr` rounded up to a page boundary.
pub fn align_up_page(addr: u64) -> (r: u64)
    requires
        addr + 4095 <= u64::MAX,
    ensures
        r == align_up(addr as int),
{
    frame_containing(addr + 4095)
}

/// Where a Load segment goes: the frames of the file that hold it, the
/// pages they are mapped at, whether those are writable, and whether part
/// of its memory is not in the file.
#[derive(Clone, Copy, PartialEq, Eq, Structural, Debug)]
pub struct LoadPlan {
    pub start_frame: u64,
    pub end_frame: u64,
    pub start_page: u64,
    pub end_page: u64,
    pub writable: bool,
    pub has_bss: bool,
}

/// The pages that the part of a segment that is not in the file needs: the
/// page that holds both the last file bytes and zeroed ones, with the
/// number of file bytes in it, when there is one, and the pages from
/// `start_page` to `end_page`, both included, that get fresh zeroed frames.
#[derive(Clone, Copy, Debug)]
pub struct BssPlan {
    pub shared_page: Option<(u64, u64)>,
    pub start_page: u64,
    pub end_page: u64,
}

/// A value to write at a virtual address of the loaded kernel.
#[derive(Clone, Copy, PartialEq, Eq, Structural, Debug)]
pub struct Relocation {
    pub addr: u64,
    pub value: u64,
}

/// The arithmetic of loading a segment stays within 64 bits.
pub open spec fn segment_fits(kernel_start: int, kernel_offset: int, s: Segment) -> bool {
    &&& kernel_start + s.offset + s.file_size + 4095 <= u64::MAX
    &&& kernel_offset + s.virtual_addr + s.file_size + 4095 <= u64::MAX
    &&& kernel_offset + s.virtual_addr + s.mem_size + 4095 <= u64::MAX
}

/// Where a Load segment goes, for a kernel whose file starts at
/// `kernel_start` and which is loaded `kernel_offset` bytes up.
pub fn load_segment_plan(kernel_start: u64, kernel_offset: u64, segment: &Segment) -> (r: LoadPlan)
    requires
        segment_fits(kernel_start as int, kernel_offset as int, *segment),
    ensures
        r.start_frame == page_floor(kernel_start + segment.offset),
        r.end_frame == align_up(kernel_start + segment.offset + segment.file_size),
        r.start_page == page_floor(kernel_offset + segment.virtual_addr),
        r.end_page == align_up(kernel_offset + segment.virtual_addr + segment.file_size),
        r.writable == segment.writable,
        r.has_bss == (segment.mem_size > segment.file_size),
{
    let phys_start_addr = kernel_start + segment.offset;
    let start_frame = frame_containing(phys_start_addr);
    let end_frame = frame_containing(align_up_page(phys_start_addr + segment.file_size));
    let virt_start_addr = kernel_offset + segment.virtual_addr;
    let start_page = frame_containing(virt_start_addr);
    let end_page = frame_containing(align_up_page(virt_start_addr + segment.file_size));
    proof {
        crate::bootloader::binary::legacy_memory_region::lemma_page_floor(
            phys_start_addr + segment.file_size + 4095,
        );
        crate::bootloader::binary::legacy_memory_region::lemma_page_floor(
            virt_start_addr + segment.file_size + 4095,
        );
        lemma_floor_aligned(align_up(phys_start_addr + segment.file_size));
        lemma_floor_aligned(align_up(virt_start_addr + segment.file_size));
    }
    LoadPlan {
        start_frame,
        end_frame,
        start_page,
        end_page,
        writable: segment.writable,
        has_bss: segment.mem_size > segment.file_size,
    }
}

/// An aligned address is its own page.
proof fn lemma_floor_aligned(a: int)
    requires
        a >= 0,
        a % 4096 == 0,
    ensures
        page_floor(a) == a,
{
}

/// The pages the part of a segment past its file bytes needs, the segment
/// being loaded `kernel_offset` bytes up.
pub fn handle_bss_section(kernel_offset: u64, segment: &Segment) -> (r: BssPlan)
    requires
        kernel_offset + segment.virtual_addr + segment.file_size + 4095 <= u64::MAX,
        kernel_offset + segment.virtual_addr + segment.mem_size <= u64::MAX,
    ensures
        ({
            let virt_start = kernel_offset + segment.virtual_addr;
            let zero_start = virt_start + segment.file_size;
            let zero_end = virt_start + segment.mem_size;
            &&& zero_start % 4096 != 0 ==> r.shared_page == Some(
                (page_floor(zero_start - 1) as u64, (zero_start % 4096) as u64),
            )
            &&& zero_start % 4096 == 0 ==> r.shared_page is None
            &&& r.start_page == align_up(zero_start)
            &&& r.end_page == page_floor(zero_end)
        }),
{
    let virt_start_addr = kernel_offset + segment.virtual_addr;
    let zero_start = virt_start_addr + segment.file_size;
    let zero_end = virt_start_addr + segment.mem_size;
    let data_bytes_before_zero = zero_start % 4096;
    let shared_page = if data_bytes_before_zero != 0 {
        Some((frame_containing(virt_start_addr + segment.file_size - 1), data_bytes_before_zero))
    } else {
        None
    };
    let start_page = frame_containing(align_up_page(zero_start));
    proof {
        crate::bootloader::binary::legacy_memory_region::lemma_page_floor(zero_start + 4095);
        lemma_floor_aligned(align_up(zero_start as int));
    }
    let end_page = frame_containing(zero_end);
    BssPlan { shared_page, start_page, end_page }
}

/// The thread local storage template that a Tls segment describes.
pub fn handle_tls_segment(kernel_offset: u64, segment: &Segment) -> (r: Result<TlsTemplate, &'static str>)
    requires
        kernel_offset + segment.virtual_addr <= u64::MAX,
    ensures
        r == Ok::<TlsTemplate, &'static str>(
            TlsTemplate {
                start_addr: (kernel_offset + segment.virtual_addr) as u64,
                mem_size: segment.mem_size,
                file_size: segment.file_size,
            },
        ),
{
    Ok(
        TlsTemplate {
            start_addr: kernel_offset + segment.virtual_addr,
            mem_size: segment.mem_size,
            file_size: segment.file_size,
        },
    )
}

/// Looking for a Load segment, from index `k` on, whose file bytes hold the
/// virtual offset `v`: the first segment whose type is invalid ends the
/// search with its error.
pub open spec fn load_check(segments: Seq<Segment>, v: int, k: int) -> Result<(), &'static str>
    decreases segments.len() - k,
{
    if k < 0 || k >= segments.len() {
        Err("offset is not in load segment")
    } else {
        match segments[k].kind {
            Err(e) => Err(e),
            Ok(kind) => if kind == SegmentKind::Load && segments[k].virtual_addr <= v && v
                - segments[k].virtual_addr < segments[k].file_size {
                Ok(())
            } else {
                load_check(segments, v, k + 1)
            },
        }
    }
}

/// Checks that the virtual offset `virt_offset` lies in the file bytes of a
/// Load segment.
pub fn check_is_in_load(segments: &[Segment], virt_offset: u64) -> (r: Result<(), &'static str>)
    ensures
        r == load_check(segments@, virt_offset as int, 0),
{
    let mut k: usize = 0;
    while k < segments.len()
        invariant
            k <= segments@.len(),
            load_check(segments@, virt_offset as int, 0) == load_check(segments@, virt_offset as int, k as int),
        decreases segments@.len() - k,
    {
        let s = segments[k];
        match s.kind {
            Err(e) => {
                return Err(e);
            },
            Ok(kind) => {
                if kind == SegmentKind::Load && s.virtual_addr <= virt_offset && virt_offset
                    - s.virtual_addr < s.file_size {
                    return Ok(());
                }
            },
        }
        k = k + 1;
    }
    Err("offset is not in load segment")
}

/// What the entries of a dynamic segment give for the relocation table:
/// its address, its size and the size of an entry, each found at most once.
pub open spec fn scan_dynamic(entries: Seq<DynEntry>, k: int, found: (Option<u64>, Option<u64>, Option<u64>)) -> Result<
    (Option<u64>, Option<u64>, Option<u64>),
    &'static str,
>
    decreases entries.len() - k,
{
    if k < 0 || k >= entries.len() {
        Ok(found)
    } else {
        let e = entries[k];
        match e.tag {
            Err(m) => Err(m),
            Ok(DynTag::Rela) => match e.ptr {
                Err(m) => Err(m),
                Ok(p) => if found.0 is Some {
                    Err("Dynamic section contains more than one Rela entry")
                } else {
                    scan_dynamic(entries, k + 1, (Some(p), found.1, found.2))
                },
            },
            Ok(DynTag::RelaSize) => match e.val {
                Err(m) => Err(m),
                Ok(x) => if found.1 is Some {
                    Err("Dynamic section contains more than one RelaSize entry")
                } else {
                    scan_dynamic(entries, k + 1, (found.0, Some(x), found.2))
                },
            },
            Ok(DynTag::RelaEnt) => match e.val {
                Err(m) => Err(m),
                Ok(x) => if found.2 is Some {
                    Err("Dynamic section contains more than one RelaEnt entry")
                } else {
                    scan_dynamic(entries, k + 1, (found.0, found.1, Some(x)))
                },
            },
            Ok(DynTag::Other) => scan_dynamic(entries, k + 1, found),
        }
    }
}

/// The relocation table of a dynamic segment: its offset in the file, its
/// size and the size of an entry; `None` when the segment has none.
pub open spec fn rela_table_spec(entries: Seq<DynEntry>) -> Result<Option<(u64, u64, u64)>, &'static str> {
    match scan_dynamic(entries, 0, (None, None, None)) {
        Err(m) => Err(m),
        Ok((rela, size, ent)) => match rela {
            None => if size is Some || ent is Some {
                Err("Rela entry is missing but RelaSize or RelaEnt have been provided")
            } else {
                Ok(None)
            },
            Some(offset) => match size {
                None => Err("RelaSize entry is missing"),
                Some(total) => match ent {
                    None => Err("RelaEnt entry is missing"),
                    Some(entry) => Ok(Some((offset, total, entry))),
                },
            },
        },
    }
}

/// Finds the relocation table of a dynamic segment from its entries.
pub fn rela_table(entries: &[DynEntry]) -> (r: Result<Option<(u64, u64, u64)>, &'static str>)
    ensures
        r == rela_table_spec(entries@),
{
    let mut rela: Option<u64> = None;
    let mut rela_size: Option<u64> = None;
    let mut rela_ent: Option<u64> = None;
    let mut k: usize = 0;
    while k < entries.len()
        invariant
            k <= entries@.len(),
            scan_dynamic(entries@, 0, (None, None, None)) == scan_dynamic(entries@, k as int, (rela, rela_size, rela_ent)),
        decreases entries@.len() - k,
    {
        let e = entries[k];
        match e.tag {
            Err(m) => {
                return Err(m);
            },
            Ok(DynTag::Rela) => {
                let ptr = match e.ptr {
                    Err(m) => {
                        return Err(m);
                    },
                    Ok(p) => p,
                };
                if rela.is_some() {
                    return Err("Dynamic section contains more than one Rela entry");
                }
                rela = Some(ptr);
            },
            Ok(DynTag::RelaSize) => {
                let val = match e.val {
                    Err(m) => {
                        return Err(m);
                    },
                    Ok(x) => x,
                };
                if rela_size.is_some() {
                    return Err("Dynamic section contains more than one RelaSize entry");
                }
                rela_size = Some(val);
            },
            Ok(DynTag::RelaEnt) => {
                let val = match e.val {
                    Err(m) => {
                        return Err(m);
                    },
                    Ok(x) => x,
                };
                if rela_ent.is_some() {
                    return Err("Dynamic section contains more than one RelaEnt entry");
                }
                rela_ent = Some(val);
            },
            Ok(DynTag::Other) => {},
        }
        k = k + 1;
    }
    let offset = match rela {
        Some(offset) => offset,
        None => {
            if rela_size.is_some() || rela_ent.is_some() {
                return Err("Rela entry is missing but RelaSize or RelaEnt have been provided");
            }
            return Ok(None);
        },
    };
    let total_size = match rela_size {
        Some(x) => x,
        None => {
            return Err("RelaSize entry is missing");
        },
    };
    let entry_size = match rela_ent {
        Some(x) => x,
        None => {
            return Err("RelaEnt entry is missing");
        },
    };
    Ok(Some((offset, total_size, entry_size)))
}

/// The little-endian 64-bit number in the eight bytes from `p` on.
pub open spec fn le_u64(s: Seq<u8>, p: int) -> int {
    s[p] + 256 * (s[p + 1] + 256 * (s[p + 2] + 256 * (s[p + 3] + 256 * (s[p + 4] + 256 * (s[p + 5]
        + 256 * (s[p + 6] + 256 * s[p + 7]))))))
}

/// Reads the little-endian 64-bit number in the eight bytes from `p` on.
pub fn read_u64_le(s: &[u8], p: usize) -> (r: u64)
    requires
        p + 8 <= s@.len(),
    ensures
        r == le_u64(s@, p as int),
{
    let n = s.len();
    assert(p + 8 <= n);
    let mut v: u64 = s[p + 7] as u64;
    v = v * 256 + s[p + 6] as u64;
    v = v * 256 + s[p + 5] as u64;
    v = v * 256 + s[p + 4] as u64;
    v = v * 256 + s[p + 3] as u64;
    v = v * 256 + s[p + 2] as u64;
    v = v * 256 + s[p + 1] as u64;
    v = v * 256 + s[p] as u64;
    v
}

/// A relocation entry of the kernel: where to write, the symbol and type
/// it uses, and the value to add.
#[derive(Clone, Copy, PartialEq, Eq, Structural, Debug)]
pub struct Rela {
    pub offset: u64,
    pub info: u64,
    pub addend: u64,
}

impl Rela {
    /// Where to write, as an offset in the kernel's virtual memory.
    pub fn get_offset(&self) -> (r: u64)
        ensures
            r == self.offset,
    {
        self.offset
    }

    /// The value to add to the kernel's offset.
    pub fn get_addend(&self) -> (r: u64)
        ensures
            r == self.addend,
    {
        self.addend
    }

    /// The symbol table index: the high half of the info field.
    pub fn get_symbol_table_index(&self) -> (r: u32)
        ensures
            r == self.info / 0x1_0000_0000,
    {
        (self.info / 0x1_0000_0000) as u32
    }

    /// The relocation type: the low half of the info field.
    pub fn get_type(&self) -> (r: u32)
        ensures
            r == self.info % 0x1_0000_0000,
    {
        (self.info % 0x1_0000_0000) as u32
    }
}

/// Size in bytes of a relocation entry in the file.
pub const RELA_SIZE: u64 = 24;

/// The relocation entry `i` of the table at offset `table_offset` of the
/// file.
pub open spec fn rela_at(file: Seq<u8>, table_offset: int, i: int) -> Rela {
    let p = table_offset + 24 * i;
    Rela {
        offset: le_u64(file, p) as u64,
        info: le_u64(file, p + 8) as u64,
        addend: le_u64(file, p + 16) as u64,
    }
}

/// The relocation table `(offset, total size, entry size)` has entries and
/// lies in the file.
pub open spec fn table_in_file(table: (u64, u64, u64), file: Seq<u8>) -> bool {
    &&& table.2 != 0
    &&& table.0 + 24 * (table.1 / table.2) <= file.len()
}

/// The loader knows the relocation: a relative one, without a symbol.
pub open spec fn rela_known(r: Rela) -> bool {
    r.info / 0x1_0000_0000 == 0 && r.info % 0x1_0000_0000 == 8
}

/// The relocations of the table from entry `i` on, in order, up to the
/// first one that is refused (its address is in no Load segment, or is not
/// aligned), and that refusal; `None` where an entry met before any refusal
/// cannot be handled: it is of a kind the loader does not know, or its
/// address or value leaves 64 bits once moved up by `kernel_offset`.
pub open spec fn relocation_steps(
    file: Seq<u8>,
    table: (u64, u64, u64),
    segments: Seq<Segment>,
    kernel_offset: int,
    i: int,
) -> Option<(Seq<Relocation>, Result<(), &'static str>)>
    decreases table.1 / table.2 - i,
{
    if i < 0 || table.2 == 0 || i >= table.1 / table.2 {
        Some((Seq::empty(), Ok(())))
    } else {
        let r = rela_at(file, table.0 as int, i);
        if !rela_known(r) {
            None
        } else {
            match load_check(segments, r.offset as int, 0) {
                Err(e) => Some((Seq::empty(), Err(e))),
                Ok(()) => {
                    let addr = kernel_offset + r.offset;
                    if addr > u64::MAX || kernel_offset + r.addend > u64::MAX {
                        None
                    } else if addr % 8 != 0 {
                        Some((Seq::empty(), Err("destination of relocation is not aligned")))
                    } else {
                        match relocation_steps(file, table, segments, kernel_offset, i + 1) {
                            None => None,
                            Some(rest) => Some((
                                seq![Relocation { addr: addr as u64, value: (kernel_offset + r.addend) as u64 }]
                                    + rest.0,
                                rest.1,
                            )),
                        }
                    }
                },
            }
        }
    }
}

/// Relocation `step` is the one relative entry `r` asks for: `r` has no
/// symbol, its offset is in a Load segment, and `step` writes, at the
/// 8-aligned address that is the offset moved up by `kernel_offset`, the
/// addend moved up by it too.
pub open spec fn relocates(r: Rela, segments: Seq<Segment>, kernel_offset: int, step: Relocation) -> bool {
    &&& rela_known(r)
    &&& load_check(segments, r.offset as int, 0) is Ok
    &&& step.addr == kernel_offset + r.offset
    &&& step.value == kernel_offset + r.addend
    &&& step.addr % 8 == 0
}

/// Each relocation the table gives from entry `i` on is the one the entry
/// in its place asks for, in order.
pub proof fn lemma_relocations_moved_by_offset(
    file: Seq<u8>,
    table: (u64, u64, u64),
    segments: Seq<Segment>,
    kernel_offset: int,
    i: int,
)
    requires
        0 <= kernel_offset,
        0 <= i,
    ensures
        relocation_steps(file, table, segments, kernel_offset, i) is Some ==> forall|k: int|
            0 <= k < relocation_steps(file, table, segments, kernel_offset, i)->Some_0.0.len() ==> relocates(
                rela_at(file, table.0 as int, i + k),
                segments,
                kernel_offset,
                #[trigger] relocation_steps(file, table, segments, kernel_offset, i)->Some_0.0[k],
            ),
    decreases table.1 / table.2 - i,
{
    let out = relocation_steps(file, table, segments, kernel_offset, i);
    if i < 0 || table.2 == 0 || i >= table.1 / table.2 {
        assert(out->Some_0.0.len() == 0);
    } else if out is Some {
        lemma_relocations_moved_by_offset(file, table, segments, kernel_offset, i + 1);
        let steps = out->Some_0.0;
        let r0 = rela_at(file, table.0 as int, i);
        let rest = relocation_steps(file, table, segments, kernel_offset, i + 1);
        if load_check(segments, r0.offset as int, 0) is Err || (kernel_offset + r0.offset) % 8 != 0 {
            assert(steps.len() == 0);
        } else {
            assert(rest is Some);
            let first = Relocation {
                addr: (kernel_offset + r0.offset) as u64,
                value: (kernel_offset + r0.addend) as u64,
            };
            assert(steps == seq![first] + rest->Some_0.0);
            assert(relocates(r0, segments, kernel_offset, first));
            assert forall|k: int| 0 <= k < steps.len() implies relocates(
                rela_at(file, table.0 as int, i + k),
                segments,
                kernel_offset,
                #[trigger] steps[k],
            ) by {
                if k > 0 {
                    assert(steps[k] == rest->Some_0.0[k - 1]);
                    assert(i + 1 + (k - 1) == i + k);
                } else {
                    assert(steps[0] == first);
                }
            }
        }
    }
}

/// Reads relocation entry `i` of the table at `table_offset`.
fn read_rela(file: &[u8], table_offset: u64, i: u64) -> (r: Rela)
    requires
        table_offset + 24 * i + 24 <= file@.len(),
    ensures
        r == rela_at(file@, table_offset as int, i as int),
{
    let n = file.len();
    assert(table_offset + 24 * i + 24 <= n);
    let p = (table_offset + 24 * i) as usize;
    Rela { offset: read_u64_le(file, p), info: read_u64_le(file, p + 8), addend: read_u64_le(file, p + 16) }
}

/// The relocations the table asks for, in order, up to the first one that
/// is refused, and that refusal; `None` where an entry met before cannot be
/// handled.
pub fn relocations(file: &[u8], table: (u64, u64, u64), segments: &[Segment], kernel_offset: u64) -> (r: Option<(
    Vec<Relocation>,
    Result<(), &'static str>,
)>)
    requires
        table_in_file(table, file@),
    ensures
        (match r {
            Some((v, res)) => Some((v@, res)),
            None => None,
        }) == relocation_steps(file@, table, segments@, kernel_offset as int, 0),
        r matches Some((v, _)) ==> forall|k: int|
            0 <= k < v@.len() ==> relocates(
                rela_at(file@, table.0 as int, k),
                segments@,
                kernel_offset as int,
                #[trigger] v@[k],
            ),
{
    proof {
        lemma_relocations_moved_by_offset(file@, table, segments@, kernel_offset as int, 0);
    }
    let (offset, total_size, entry_size) = table;
    let entries = total_size / entry_size;
    let mut done: Vec<Relocation> = Vec::new();
    let mut i: u64 = 0;
    while i < entries
        invariant
            relocation_steps(file@, table, segments@, kernel_offset as int, 0) is Some ==> forall|k: int|
                0 <= k < relocation_steps(file@, table, segments@, kernel_offset as int, 0)->Some_0.0.len()
                    ==> relocates(
                    rela_at(file@, table.0 as int, 0 + k),
                    segments@,
                    kernel_offset as int,
                    #[trigger] relocation_steps(file@, table, segments@, kernel_offset as int, 0)->Some_0.0[k],
                ),
            table_in_file(table, file@),
            table == (offset, total_size, entry_size),
            entries == total_size / entry_size,
            i <= entries,
            ({
                let all = relocation_steps(file@, table, segments@, kernel_offset as int, 0);
                let rest = relocation_steps(file@, table, segments@, kernel_offset as int, i as int);
                match rest {
                    None => all is None,
                    Some(t) => all == Some((done@ + t.0, t.1)),
                }
            }),
        decreases entries - i,
    {
        proof {
            assert(offset + 24 * i + 24 <= offset + 24 * entries) by (nonlinear_arith)
                requires
                    i < entries,
            ;
        }
        let rela = read_rela(file, offset, i);
        if rela.get_symbol_table_index() != 0 || rela.get_type() != 8 {
            return None;
        }
        match check_is_in_load(segments, rela.get_offset()) {
            Err(e) => {
                proof {
                    assert(done@ + Seq::<Relocation>::empty() =~= done@);
                    let all = relocation_steps(file@, table, segments@, kernel_offset as int, 0);
                    assert(all->Some_0.0 == done@);
                    assert forall|k: int| 0 <= k < done@.len() implies relocates(
                        rela_at(file@, table.0 as int, k),
                        segments@,
                        kernel_offset as int,
                        #[trigger] done@[k],
                    ) by {
                        assert(all->Some_0.0[k] == done@[k]);
                        assert(0 + k == k);
                    }
                }
                return Some((done, Err(e)));
            },
            Ok(()) => {},
        }
        if rela.get_offset() > u64::MAX - kernel_offset || rela.get_addend() > u64::MAX - kernel_offset {
            return None;
        }
        let addr = kernel_offset + rela.get_offset();
        let value = kernel_offset + rela.get_addend();
        if addr % 8 != 0 {
            proof {
                assert(done@ + Seq::<Relocation>::empty() =~= done@);
                let all = relocation_steps(file@, table, segments@, kernel_offset as int, 0);
                assert(all->Some_0.0 == done@);
                assert forall|k: int| 0 <= k < done@.len() implies relocates(
                    rela_at(file@, table.0 as int, k),
                    segments@,
                    kernel_offset as int,
                    #[trigger] done@[k],
                ) by {
                    assert(all->Some_0.0[k] == done@[k]);
                    assert(0 + k == k);
                }
            }
            return Some((done, Err("destination of relocation is not aligned")));
        }
        let ghost before = done@;
        done.push(Relocation { addr, value });
        proof {
            match relocation_steps(file@, table, segments@, kernel_offset as int, i + 1) {
                Some(next) => {
                    assert(done@ + next.0 =~= before + (seq![Relocation { addr, value }] + next.0));
                },
                None => {},
            }
        }
        i = i + 1;
    }
    proof {
        assert(done@ + Seq::<Relocation>::empty() =~= done@);
    }
    Some((done, Ok(())))
}

/// What handling a dynamic segment gives: `None` where loading cannot go
/// on (its data is not that of a 64-bit dynamic segment, its relocation
/// table does not lie in the file, or an entry met before any refusal
/// cannot be handled); else the relocations to apply, in order, and the
/// outcome.
pub open spec fn dynamic_outcome(
    data: Result<Option<Seq<DynEntry>>, &'static str>,
    file: Seq<u8>,
    segments: Seq<Segment>,
    kernel_offset: int,
) -> Option<(Seq<Relocation>, Result<(), &'static str>)> {
    match data {
        Err(e) => Some((Seq::empty(), Err(e))),
        Ok(None) => None,
        Ok(Some(entries)) => match rela_table_spec(entries) {
            Err(e) => Some((Seq::empty(), Err(e))),
            Ok(None) => Some((Seq::empty(), Ok(()))),
            Ok(Some(table)) => if table_in_file(table, file) {
                relocation_steps(file, table, segments, kernel_offset, 0)
            } else {
                None
            },
        },
    }
}

/// Whether a relocation table has entries and lies in the file.
fn check_table(file: &[u8], table: (u64, u64, u64)) -> (r: bool)
    ensures
        r == table_in_file(table, file@),
{
    let (offset, total_size, entry_size) = table;
    let n = file.len();
    assert(file@.len() == n);
    if entry_size == 0 {
        return false;
    }
    let entries = total_size / entry_size;
    if entries > (u64::MAX - offset) / 24 || offset + 24 * entries > file.len() as u64 {
        proof {
            if entries > (u64::MAX - offset) / 24 {
                vstd::arithmetic::div_mod::lemma_fundamental_div_mod((u64::MAX - offset) as int, 24);
                assert(offset + 24 * entries > u64::MAX);
            }
        }
        return false;
    }
    true
}

/// Handles the dynamic segment of index `index` of the kernel file `file`,
/// which is loaded `kernel_offset` bytes up: finds its relocation table and
/// gives the relocations to apply, up to the first one refused, with the
/// outcome. `None` where loading cannot go on.
pub fn handle_dynamic_segment(file: &[u8], index: u16, segments: &[Segment], kernel_offset: u64) -> (r: Option<
    (Vec<Relocation>, Result<(), &'static str>),
>)
    requires
        segments_safe(file@),
        ph_exists(file@, index as int) ==> seg_data_safe(file@, index as int),
    ensures
        (match r {
            Some((v, res)) => Some((v@, res)),
            None => None,
        }) == dynamic_outcome(elf_dynamic(file@, index as int), file@, segments@, kernel_offset as int),
{
    let entries = match read_dynamic(file, index) {
        Err(e) => {
            return Some((Vec::new(), Err(e)));
        },
        Ok(None) => {
            return None;
        },
        Ok(Some(entries)) => entries,
    };
    let table = match rela_table(entries.as_slice()) {
        Err(e) => {
            return Some((Vec::new(), Err(e)));
        },
        Ok(None) => {
            return Some((Vec::new(), Ok(())));
        },
        Ok(Some(table)) => table,
    };
    if !check_table(file, table) {
        return None;
    }
    relocations(file, table, segments, kernel_offset)
}

/// A step of loading the kernel: mapping a Load segment, or writing a
/// relocation.
#[derive(Clone, Copy, PartialEq, Eq, Structural, Debug)]
pub enum LoadStep {
    /// Map the Load segment of this index as the plan says.
    MapSegment(usize, LoadPlan),
    /// Write the relocation.
    Relocate(Relocation),
}

/// The plan of a Load segment.
pub open spec fn plan_of(kernel_start: int, kernel_offset: int, s: Segment) -> LoadPlan {
    LoadPlan {
        start_frame: page_floor(kernel_start + s.offset) as u64,
        end_frame: align_up(kernel_start + s.offset + s.file_size) as u64,
        start_page: page_floor(kernel_offset + s.virtual_addr) as u64,
        end_page: align_up(kernel_offset + s.virtual_addr + s.file_size) as u64,
        writable: s.writable,
        has_bss: s.mem_size > s.file_size,
    }
}

/// The first program header, from index `k` on, that fails its sanity
/// check, and why.
pub open spec fn first_insane(segments: Seq<Segment>, k: int) -> Option<&'static str>
    decreases segments.len() - k,
{
    if k < 0 || k >= segments.len() {
        None
    } else {
        match segments[k].sane {
            Err(e) => Some(e),
            Ok(()) => first_insane(segments, k + 1),
        }
    }
}

/// Going over the program headers from index `k` on, with the steps taken
/// so far and the thread local storage template found so far: each Load
/// segment is mapped, one Tls segment gives the template, a second one, or
/// an invalid type, stops with an error. `None` where a Load or Tls
/// segment's addresses overflow.
pub open spec fn map_phase(
    segments: Seq<Segment>,
    k: int,
    kernel_start: int,
    kernel_offset: int,
    tls: Option<TlsTemplate>,
    done: Seq<LoadStep>,
) -> Option<(Seq<LoadStep>, Result<Option<TlsTemplate>, &'static str>)>
    decreases segments.len() - k,
{
    if k < 0 || k >= segments.len() {
        Some((done, Ok(tls)))
    } else {
        let s = segments[k];
        match s.kind {
            Err(e) => Some((done, Err(e))),
            Ok(SegmentKind::Load) => if segment_fits(kernel_start, kernel_offset, s) {
                map_phase(
                    segments,
                    k + 1,
                    kernel_start,
                    kernel_offset,
                    tls,
                    done.push(LoadStep::MapSegment(k as usize, plan_of(kernel_start, kernel_offset, s))),
                )
            } else {
                None
            },
            Ok(SegmentKind::Tls) => if kernel_offset + s.virtual_addr > u64::MAX {
                None
            } else if tls is Some {
                Some((done, Err("multiple TLS segments not supported")))
            } else {
                map_phase(
                    segments,
                    k + 1,
                    kernel_start,
                    kernel_offset,
                    Some(
                        TlsTemplate {
                            start_addr: (kernel_offset + s.virtual_addr) as u64,
                            mem_size: s.mem_size,
                            file_size: s.file_size,
                        },
                    ),
                    done,
                )
            },
            Ok(_) => map_phase(segments, k + 1, kernel_start, kernel_offset, tls, done),
        }
    }
}

/// The relocation steps for a list of relocations.
pub open spec fn relocate_steps(rels: Seq<Relocation>) -> Seq<LoadStep> {
    rels.map_values(|r: Relocation| LoadStep::Relocate(r))
}

/// Going over the program headers from index `k` on, with the steps taken
/// so far: each dynamic segment's relocations are written, up to the first
/// error. `None` where loading cannot go on.
pub open spec fn relocate_phase(
    file: Seq<u8>,
    segments: Seq<Segment>,
    k: int,
    kernel_offset: int,
    done: Seq<LoadStep>,
) -> Option<(Seq<LoadStep>, Result<(), &'static str>)>
    decreases segments.len() - k,
{
    if k < 0 || k >= segments.len() {
        Some((done, Ok(())))
    } else {
        match segments[k].kind {
            Err(e) => Some((done, Err(e))),
            Ok(SegmentKind::Dynamic) => if k > 0xFFFF {
                None
            } else {
                match dynamic_outcome(elf_dynamic(file, k), file, segments, kernel_offset) {
                    None => None,
                    Some((rels, Err(e))) => Some((done + relocate_steps(rels), Err(e))),
                    Some((rels, Ok(()))) => relocate_phase(
                        file,
                        segments,
                        k + 1,
                        kernel_offset,
                        done + relocate_steps(rels),
                    ),
                }
            },
            Ok(_) => relocate_phase(file, segments, k + 1, kernel_offset, done),
        }
    }
}

/// What loading the kernel file `file`, found at `kernel_start` and loaded
/// `kernel_offset` bytes up, amounts to: the steps to take, in order, and
/// the outcome, the thread local storage template on success; `None` where
/// loading cannot go on.
pub open spec fn load_outcome(file: Seq<u8>, kernel_start: int, kernel_offset: int) -> Option<
    (Seq<LoadStep>, Result<Option<TlsTemplate>, &'static str>),
> {
    match elf_segments(file) {
        Err(_) => None,
        Ok(segments) => match first_insane(segments, 0) {
            Some(e) => Some((Seq::empty(), Err(e))),
            None => match map_phase(segments, 0, kernel_start, kernel_offset, None, Seq::empty()) {
                None => None,
                Some((steps, Err(e))) => Some((steps, Err(e))),
                Some((steps, Ok(tls))) => match relocate_phase(file, segments, 0, kernel_offset, steps) {
                    None => None,
                    Some((all, Err(e))) => Some((all, Err(e))),
                    Some((all, Ok(()))) => Some((all, Ok(tls))),
                },
            },
        },
    }
}

/// Whether loading a segment stays within 64 bits.
fn fits(kernel_start: u64, kernel_offset: u64, s: &Segment) -> (r: bool)
    ensures
        r == segment_fits(kernel_start as int, kernel_offset as int, *s),
{
    match kernel_start.checked_add(s.offset) {
        None => false,
        Some(a) => match a.checked_add(s.file_size) {
            None => false,
            Some(b) => match b.checked_add(4095) {
                None => false,
                Some(_) => match kernel_offset.checked_add(s.virtual_addr) {
                    None => false,
                    Some(c) => match c.checked_add(s.file_size) {
                        None => false,
                        Some(d) => match d.checked_add(4095) {
                            None => false,
                            Some(_) => match c.checked_add(s.mem_size) {
                                None => false,
                                Some(e) => e.checked_add(4095).is_some(),
                            },
                        },
                    },
                },
            },
        },
    }
}

/// The steps that map the Load segments, and the thread local storage
/// template, as `map_phase` says.
fn map_segments(segments: &Vec<Segment>, kernel_start: u64, kernel_offset: u64) -> (r: Option<
    (Vec<LoadStep>, Result<Option<TlsTemplate>, &'static str>),
>)
    ensures
        (match r {
            Some((v, res)) => Some((v@, res)),
            None => None,
        }) == map_phase(segments@, 0, kernel_start as int, kernel_offset as int, None, Seq::empty()),
{
    let mut steps: Vec<LoadStep> = Vec::new();
    let mut tls: Option<TlsTemplate> = None;
    let mut k: usize = 0;
    while k < segments.len()
        invariant
            k <= segments@.len(),
            map_phase(segments@, 0, kernel_start as int, kernel_offset as int, None, Seq::empty())
                == map_phase(segments@, k as int, kernel_start as int, kernel_offset as int, tls, steps@),
        decreases segments@.len() - k,
    {
        let s = segments[k];
        match s.kind {
            Err(e) => {
                return Some((steps, Err(e)));
            },
            Ok(SegmentKind::Load) => {
                if !fits(kernel_start, kernel_offset, &s) {
                    return None;
                }
                let plan = load_segment_plan(kernel_start, kernel_offset, &s);
                steps.push(LoadStep::MapSegment(k, plan));
            },
            Ok(SegmentKind::Tls) => {
                if s.virtual_addr > u64::MAX - kernel_offset {
                    return None;
                }
                if tls.is_some() {
                    return Some((steps, Err("multiple TLS segments not supported")));
                }
                tls = match handle_tls_segment(kernel_offset, &s) {
                    Ok(t) => Some(t),
                    Err(e) => {
                        return Some((steps, Err(e)));
                    },
                };
            },
            Ok(_) => {},
        }
        k = k + 1;
    }
    Some((steps, Ok(tls)))
}

/// Appends the relocation steps for `rels` to `steps`.
fn push_relocations(steps: &mut Vec<LoadStep>, rels: &Vec<Relocation>)
    ensures
        final(steps)@ == old(steps)@ + relocate_steps(rels@),
{
    let mut j: usize = 0;
    while j < rels.len()
        invariant
            j <= rels@.len(),
            steps@ == old(steps)@ + relocate_steps(rels@.subrange(0, j as int)),
        decreases rels@.len() - j,
    {
        steps.push(LoadStep::Relocate(rels[j]));
        proof {
            assert(relocate_steps(rels@.subrange(0, j + 1)) =~= relocate_steps(
                rels@.subrange(0, j as int),
            ).push(LoadStep::Relocate(rels@[j as int])));
        }
        j = j + 1;
    }
    proof {
        assert(rels@.subrange(0, rels@.len() as int) =~= rels@);
    }
}

/// Appends the steps that write the relocations of the dynamic segments to
/// `steps`, as `relocate_phase` says.
fn relocate_segments(file: &[u8], segments: &Vec<Segment>, kernel_offset: u64, init: Vec<LoadStep>) -> (r: Option<
    (Vec<LoadStep>, Result<(), &'static str>),
>)
    requires
        segments_safe(file@),
        dynamics_safe(file@),
        kinds_match(file@, segments@),
    ensures
        (match r {
            Some((v, res)) => Some((v@, res)),
            None => None,
        }) == relocate_phase(file@, segments@, 0, kernel_offset as int, init@),
{
    let ghost start = init@;
    let mut steps = init;
    let mut k: usize = 0;
    while k < segments.len()
        invariant
            start == init@,
            k <= segments@.len(),
            segments_safe(file@),
            dynamics_safe(file@),
            kinds_match(file@, segments@),
            relocate_phase(file@, segments@, 0, kernel_offset as int, start) == relocate_phase(
                file@,
                segments@,
                k as int,
                kernel_offset as int,
                steps@,
            ),
        decreases segments@.len() - k,
    {
        let s = segments[k];
        match s.kind {
            Err(e) => {
                return Some((steps, Err(e)));
            },
            Ok(SegmentKind::Dynamic) => {
                if k > 0xFFFF {
                    return None;
                }
                proof {
                    assert(is_dynamic(segments@[k as int]));
                    assert(seg_type(file@, k as int) == 2);
                }
                match handle_dynamic_segment(file, k as u16, segments.as_slice(), kernel_offset) {
                    None => {
                        return None;
                    },
                    Some((rels, res)) => {
                        push_relocations(&mut steps, &rels);
                        if let Err(e) = res {
                            return Some((steps, Err(e)));
                        }
                    },
                }
            },
            Ok(_) => {},
        }
        k = k + 1;
    }
    Some((steps, Ok(())))
}

/// Plans the loading of the kernel file `file`, found at `kernel_start` and
/// loaded `kernel_offset` bytes up: every program header must pass its
/// sanity check; then each Load segment is mapped and one Tls segment gives
/// the thread local storage template; then the relocations of each dynamic
/// segment are written. Gives the steps, in order, up to the first error,
/// and the outcome; `None` where loading cannot go on.
pub fn load_segments(file: &[u8], kernel_start: u64, kernel_offset: u64) -> (r: Option<
    (Vec<LoadStep>, Result<Option<TlsTemplate>, &'static str>),
>)
    requires
        segments_safe(file@),
        dynamics_safe(file@),
    ensures
        (match r {
            Some((v, res)) => Some((v@, res)),
            None => None,
        }) == load_outcome(file@, kernel_start as int, kernel_offset as int),
{
    let segments = match read_segments(file) {
        Err(_) => {
            return None;
        },
        Ok(s) => s,
    };
    let mut k: usize = 0;
    while k < segments.len()
        invariant
            elf_segments(file@) == Ok::<Seq<Segment>, &'static str>(segments@),
            segments_safe(file@),
            dynamics_safe(file@),
            kinds_match(file@, segments@),
            k <= segments@.len(),
            first_insane(segments@, 0) == first_insane(segments@, k as int),
        decreases segments@.len() - k,
    {
        if let Err(e) = segments[k].sane {
            return Some((Vec::new(), Err(e)));
        }
        k = k + 1;
    }
    let (steps, tls) = match map_segments(&segments, kernel_start, kernel_offset) {
        None => {
            return None;
        },
        Some((steps, Err(e))) => {
            return Some((steps, Err(e)));
        },
        Some((steps, Ok(tls))) => (steps, tls),
    };
    match relocate_segments(file, &segments, kernel_offset, steps) {
        None => None,
        Some((all, Err(e))) => Some((all, Err(e))),
        Some((all, Ok(()))) => Some((all, Ok(tls))),
    }
}

/// The flags the pages of a segment are mapped with: present, and writable
/// where the segment is.
pub open spec fn plan_flags(writable: bool) -> u64 {
    if writable { PRESENT | WRITABLE } else { PRESENT }
}

/// The end of the whole pages of `plan`, from its first page on.
pub open spec fn plan_end(plan: LoadPlan) -> int {
    plan.start_page + (plan.end_page - plan.start_page) / 4096 * 4096
}

/// Maps the pages of a Load segment as `plan` says: each whole page from
/// its first one on, page `k` to the frame `k` pages above its first frame,
/// with the segment's flags, the tables on the way made from frames of
/// `allocator`; stops at the first mapping that fails and gives its error.
/// Where all succeed, every address of those pages lies in a present page
/// of 4 KiB with those flags.
pub fn map_plan<A: FrameAllocator>(mapper: &mut OffsetMapper, plan: &LoadPlan, allocator: &mut A) -> (r: Result<(), FrameError>)
    requires
        old(mapper).wf(),
        plan.start_page % 4096 == 0,
        plan.start_page <= plan.end_page,
        plan.start_frame + (plan.end_page - plan.start_page) <= u64::MAX,
    ensures
        final(mapper).wf(),
        final(mapper).offset_spec() == old(mapper).offset_spec(),
        r is Ok ==> forall|x: u64|
            plan.start_page <= x < plan_end(*plan) ==> #[trigger] mapped_4k(
                final(mapper)@,
                x,
                plan_flags(plan.writable) & !ADDR_MASK,
            ),
{
    let flags: u64 = if plan.writable { PRESENT | WRITABLE } else { PRESENT };
    assert((PRESENT | WRITABLE) & PRESENT != 0) by (bit_vector);
    assert(PRESENT & PRESENT != 0) by (bit_vector);
    let ghost fl = flags & !ADDR_MASK;
    let n: u64 = (plan.end_page - plan.start_page) / 4096;
    let mut k: u64 = 0;
    while k < n
        invariant
            mapper.wf(),
            mapper.offset_spec() == old(mapper).offset_spec(),
            flags == plan_flags(plan.writable),
            (flags & PRESENT) != 0,
            fl == flags & !ADDR_MASK,
            n == (plan.end_page - plan.start_page) / 4096,
            plan.start_page % 4096 == 0,
            plan.start_page <= plan.end_page,
            plan.start_frame + (plan.end_page - plan.start_page) <= u64::MAX,
            k <= n,
            forall|x: u64| plan.start_page <= x < plan.start_page + k * 4096 ==> #[trigger] mapped_4k(mapper@, x, fl),
        decreases n - k,
    {
        assert(k * 4096 < n * 4096 <= plan.end_page - plan.start_page) by (nonlinear_arith)
            requires
                k < n,
                n == (plan.end_page - plan.start_page) / 4096,
                plan.start_page <= plan.end_page,
        ;
        let page = plan.start_page + k * 4096;
        let frame = plan.start_frame + k * 4096;
        let ghost v = mapper@;
        let res = mapper.map(page, frame, flags, PageSize::Page4Kb, allocator);
        proof {
            let (o4, o3, o2) = choose|o4: Result<u64, FrameError>, o3: Result<u64, FrameError>, o2: Result<u64, FrameError>|
                map_spec(v, page, frame, flags, PageSize::Page4Kb, o4, o3, o2) == (mapper@, res);
            assert forall|x: u64| plan.start_page <= x < plan.start_page + k * 4096 implies #[trigger] mapped_4k(mapper@, x, fl) by {
                assert(mapped_4k(v, x, fl));
                lemma_map_keeps_mapped(v, page, frame, flags, o4, o3, o2, x);
            }
            if res is Ok {
                assert(page % 4096 == 0) by (nonlinear_arith)
                    requires
                        page == plan.start_page + k * 4096,
                        plan.start_page % 4096 == 0,
                ;
                assert forall|x: u64| plan.start_page <= x < plan.start_page + (k + 1) * 4096 implies #[trigger] mapped_4k(mapper@, x, fl) by {
                    if x >= page {
                        lemma_map_4k_mapped(v, page, frame, flags, o4, o3, o2, x);
                    }
                }
            }
        }
        if let Err(e) = res {
            return Err(e);
        }
        k = k + 1;
    }
    Ok(())
}

} // verus!
