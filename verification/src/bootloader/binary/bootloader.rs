//! The kernel as the bootloader finds it, and the stack it gets.
use vstd::prelude::*;

use crate::addr::{page_floor, FrameError, PageRange, PhysicalAddr, VirtualAddr, PAGE_4KB};
use crate::bootloader::binary::elf::{
    check_elf, dynamics_safe, elf_header, elf_safe, header_safe, read_elf_header, read_segments, segments_safe, ElfHeader, ElfType, Segment,
};
use crate::bootloader::binary::load_kernel::{load_outcome, load_segments, LoadStep};
use crate::bootloader::binary::legacy_memory_region::{max_end, memory_regions};
use crate::bootloader::binary::level_4_entries::{first_free, used_by, UsedLevel4Entries};
use crate::bootloader::binary::memory::BiosFrameAllocator;
use crate::bootloader::binary::{boot_info_header, boot_info_layout, create_boot_info, BootInfoLayout};
use crate::bootloader::boot_info::{BootInfo, FrameBuffer, FrameBufferInfo, MemoryRegion};

verus! {

/// The kernel's ELF file in physical memory, and how far up it is loaded.
pub struct Kernel {
    pub start: PhysicalAddr,
    pub size: u64,
    offset: VirtualAddr,
}

/// Why the kernel cannot be booted.
#[derive(Clone, Copy, PartialEq, Eq, Structural, Debug)]
pub enum KernelError {
    MalformedKernel,
    UnsupportedKernelExecutable,
}

/// How far up a kernel of the given file kind is loaded.
pub open spec fn offset_for(kind: ElfType) -> Option<u64> {
    match kind {
        ElfType::Executable => Some(0),
        ElfType::SharedObject => Some(0x400_000),
        ElfType::Other => None,
    }
}

/// What reading a kernel whose file starts at `start`, with the given file
/// header, gives: a page aligned file whose header passes its sanity check
/// and is an executable or a shared object.
pub open spec fn kernel_outcome(start: u64, header: ElfHeader) -> Result<u64, KernelError> {
    if start % 4096 != 0 {
        Err(KernelError::MalformedKernel)
    } else if header.sane is Err {
        Err(KernelError::MalformedKernel)
    } else {
        match offset_for(header.kind) {
            Some(o) => Ok(o),
            None => Err(KernelError::UnsupportedKernelExecutable),
        }
    }
}

impl Kernel {
    /// How far up the kernel is loaded.
    pub closed spec fn spec_offset(&self) -> u64 {
        self.offset.addr
    }

    /// Where the kernel's file starts.
    pub closed spec fn spec_start(&self) -> u64 {
        self.start.addr
    }

    /// Length of the kernel's file in bytes.
    pub closed spec fn spec_size(&self) -> u64 {
        self.size
    }

    /// The kernel whose file, of `size` bytes, starts at `start` and holds
    /// `bytes`, which must be an ELF file when `start` is page aligned.
    pub fn new(start: PhysicalAddr, size: u64, bytes: &[u8]) -> (r: Result<Self, KernelError>)
        requires
            start.addr % 4096 == 0 ==> elf_header(bytes@) is Ok,
            header_safe(bytes@),
        ensures
            start.addr % 4096 != 0 ==> r == Err::<Self, KernelError>(KernelError::MalformedKernel),
            start.addr % 4096 == 0 ==> match kernel_outcome(start.addr, elf_header(bytes@)->Ok_0) {
                Ok(o) => (r matches Ok(k) && k.spec_start() == start.addr && k.spec_size() == size && k.spec_offset() == o),
                Err(e) => r == Err::<Self, KernelError>(e),
            },
    {
        let mut kernel = Kernel { start, size, offset: VirtualAddr::null() };
        if !kernel.start.is_aligned(PAGE_4KB) {
            return Err(KernelError::MalformedKernel);
        }
        let header = match read_elf_header(bytes) {
            Ok(h) => h,
            Err(_) => {
                proof {
                    assert(false);
                }
                return Err(KernelError::MalformedKernel);
            },
        };
        if header.sane.is_err() {
            return Err(KernelError::MalformedKernel);
        }
        let kernel_offset = match header.kind {
            ElfType::Executable => VirtualAddr::new(0),
            ElfType::SharedObject => VirtualAddr::new(0x400_000),
            ElfType::Other => {
                return Err(KernelError::UnsupportedKernelExecutable);
            },
        };
        kernel.offset = kernel_offset;
        Ok(kernel)
    }

    /// As [`Kernel::new`], but first refusing as malformed a file that
    /// the ELF reader cannot read without a panic (see `check_elf`), and
    /// `None` where the bytes of a page aligned kernel are not an ELF file.
    pub fn try_new(start: PhysicalAddr, size: u64, bytes: &[u8]) -> (r: Option<Result<Self, KernelError>>)
        ensures
            start.addr % 4096 != 0 || !elf_safe(bytes@) ==> r == Some(Err::<Self, KernelError>(KernelError::MalformedKernel)),
            start.addr % 4096 == 0 && elf_safe(bytes@) && elf_header(bytes@) is Err ==> r is None,
            start.addr % 4096 == 0 && elf_safe(bytes@) && elf_header(bytes@) is Ok ==> match kernel_outcome(start.addr, elf_header(bytes@)->Ok_0) {
                Ok(o) => (r matches Some(Ok(k)) && k.spec_start() == start.addr && k.spec_size() == size && k.spec_offset() == o),
                Err(e) => r == Some(Err::<Self, KernelError>(e)),
            },
    {
        if !check_elf(bytes) {
            return Some(Err(KernelError::MalformedKernel));
        }
        if start.is_aligned(PAGE_4KB) {
            if read_elf_header(bytes).is_err() {
                return None;
            }
        }
        Some(Self::new(start, size, bytes))
    }

    /// How far up the kernel is loaded.
    pub fn offset(&self) -> (r: VirtualAddr)
        ensures
            r.addr == self.spec_offset(),
    {
        self.offset
    }

    /// The frames that hold the kernel's file.
    pub fn frames(&self) -> (r: PageRange)
        ensures
            r.start == page_floor(self.spec_start() as int),
            r.len == self.spec_size() / 4096,
    {
        PageRange::with_size(self.start.addr, self.size)
    }

    /// The kernel's entry point, given its file header.
    pub fn entrypoint(&self, header: &ElfHeader) -> (r: VirtualAddr)
        requires
            self.spec_offset() + header.entry_point <= u64::MAX,
        ensures
            r.addr == self.spec_offset() + header.entry_point,
    {
        VirtualAddr::new(self.offset.addr + header.entry_point)
    }
}

/// A kernel whose segments are loaded.
pub struct LoadedKernel(pub Kernel);

/// No stack is set up yet.
pub struct NoStack;

/// The kernel's stack: `size` bytes from `start` on.
pub struct Stack {
    start: VirtualAddr,
    size: u64,
}

impl Stack {
    /// Where the stack starts.
    pub closed spec fn spec_start(&self) -> u64 {
        self.start.addr
    }

    /// Length of the stack in bytes.
    pub closed spec fn spec_size(&self) -> u64 {
        self.size
    }

    /// The page the stack starts in.
    pub fn start(&self) -> (r: u64)
        ensures
            r == page_floor(self.spec_start() as int),
    {
        crate::addr::frame_containing(self.start.addr)
    }

    /// The page the stack ends in.
    pub fn end(&self) -> (r: u64)
        requires
            self.spec_start() + self.spec_size() <= u64::MAX,
        ensures
            r == page_floor(self.spec_start() + self.spec_size()),
    {
        crate::addr::frame_containing(self.start.addr + self.size)
    }

    /// The pages of the stack, the last one excluded.
    pub fn pages(&self) -> (r: PageRange)
        requires
            self.spec_start() + self.spec_size() <= u64::MAX,
        ensures
            r.start == page_floor(self.spec_start() as int),
            r.len == (page_floor(self.spec_start() + self.spec_size()) - page_floor(self.spec_start() as int)) / 4096,
    {
        PageRange::new_addr(self.start.addr, self.start.addr + self.size)
    }
}

/// The stack the kernel gets: at `start`, or else at the first free level 4
/// entry, which is then marked as used; of `size` bytes, or else of 20
/// pages.
pub fn setup_stack(entries: &mut UsedLevel4Entries, start: Option<VirtualAddr>, size: Option<u64>) -> (r: Stack)
    requires
        start is None ==> old(entries).state().len() == 512 && exists|i: int| 0 <= i < 512 && !#[trigger] old(entries).state()[i],
    ensures
        start matches Some(s) ==> r.spec_start() == s.addr && final(entries).state() == old(entries).state(),
        start is None ==> r.spec_start() == first_free(old(entries).state()) * 0x80_0000_0000
            && final(entries).state() == old(entries).state().update(first_free(old(entries).state()), true),
        r.spec_size() == (match size {
            Some(s) => s,
            None => 81920u64,
        }),
{
    let start = match start {
        Some(s) => s,
        None => entries.get_free_address(),
    };
    let size = match size {
        Some(s) => s,
        None => 20 * PAGE_4KB,
    };
    Stack { start, size }
}

/// Why booting failed.
#[derive(Clone, Copy, PartialEq, Eq, Debug)]
pub enum BootloaderError {
    AllocatorError(FrameError),
    ElfLoader(&'static str),
}

impl From<FrameError> for BootloaderError {
    fn from(err: FrameError) -> (r: Self) {
        BootloaderError::AllocatorError(err)
    }
}

impl vstd::std_specs::convert::FromSpecImpl<FrameError> for BootloaderError {
    open spec fn obeys_from_spec() -> bool {
        true
    }

    open spec fn from_spec(err: FrameError) -> BootloaderError {
        BootloaderError::AllocatorError(err)
    }
}

/// Size of a large page, in bytes.
pub const PAGE_2MB: u64 = 0x20_0000;

/// Pages to map: `pages` pages of `page_size` bytes from `first_page` on,
/// to as many frames from `first_frame` on, or to fresh frames from the
/// allocator where there is no `first_frame`.
#[derive(Clone, Copy, PartialEq, Eq, Structural, Debug)]
pub struct MapRequest {
    pub first_page: u64,
    pub pages: u64,
    pub page_size: u64,
    pub first_frame: Option<u64>,
}

/// The bootloader's state: the level 4 entries in use, the kernel in state
/// `K`, its stack in state `S`, the page mappers of the kernel's and of
/// the bootloader's address space, the frame allocator, the boot info being
/// filled in, and where it lies.
pub struct Bootloader<KM, BM, K, S> {
    pub entries: UsedLevel4Entries,
    pub kernel: K,
    pub stack: S,
    pub bootloader_mapper: BM,
    pub kernel_mapper: KM,
    pub allocator: BiosFrameAllocator,
    pub bootinfo: BootInfo,
    pub layout: BootInfoLayout,
}

/// The entries in use before anything is mapped: entry 0 alone.
pub open spec fn fresh_entries(state: Seq<bool>) -> bool {
    &&& state.len() == 512
    &&& forall|i: int| 0 <= i < 512 ==> #[trigger] state[i] == (i == 0)
}

impl<KM, BM, K, S> Bootloader<KM, BM, K, S> {
    /// The two page mappers and the frame allocator, to map pages with.
    pub fn page_tables_alloc(&mut self) -> (r: (&mut KM, &mut BM, &mut BiosFrameAllocator))
        ensures
            *r.0 == old(self).kernel_mapper,
            *r.1 == old(self).bootloader_mapper,
            *r.2 == old(self).allocator,
            final(self).kernel_mapper == *final(r.0),
            final(self).bootloader_mapper == *final(r.1),
            final(self).allocator == *final(r.2),
            final(self).kernel == old(self).kernel,
            final(self).stack == old(self).stack,
            final(self).entries == old(self).entries,
            final(self).layout == old(self).layout,
    {
        (&mut self.kernel_mapper, &mut self.bootloader_mapper, &mut self.allocator)
    }
}

impl<KM, BM> Bootloader<KM, BM, Kernel, NoStack> {
    /// A bootloader for `kernel`: the boot info goes at `bootinfo_addr`, or
    /// else at the first free level 4 entry, laid out as `create_boot_info`
    /// says, with the bootloader's version in it. Mapping its pages is left
    /// to the caller.
    pub fn new(
        kernel: Kernel,
        allocator: BiosFrameAllocator,
        kernel_mapper: KM,
        bootloader_mapper: BM,
        bootinfo_addr: Option<u64>,
        boot_info_size: u64,
        region_align: u64,
        region_size: u64,
        version: (u16, u16, u16, bool),
    ) -> (r: Self)
        requires
            region_align > 0,
            allocator.regions().len() < usize::MAX,
            boot_info_size + region_align + (allocator.regions().len() + 1) * region_size <= 0x80_0000_0000,
            bootinfo_addr matches Some(a) ==> a + boot_info_size + region_align + (allocator.regions().len() + 1) * region_size <= u64::MAX,
        ensures
            r.kernel == kernel,
            r.kernel_mapper == kernel_mapper,
            r.bootloader_mapper == bootloader_mapper,
            r.allocator == allocator,
            r.layout == boot_info_layout(
                match bootinfo_addr {
                    Some(a) => a as int,
                    None => 0x80_0000_0000,
                },
                boot_info_size as int,
                region_align as int,
                region_size as int,
                allocator.regions().len() as int,
            ),
            bootinfo_addr is Some ==> fresh_entries(r.entries.state()),
            bootinfo_addr is None ==> r.entries.state() == Seq::new(512, |i: int| i == 0 || i == 1),
            r.bootinfo.version_major == version.0 && r.bootinfo.version_minor == version.1
                && r.bootinfo.version_patch == version.2 && r.bootinfo.pre_release == version.3,
            r.bootinfo.memory_regions@ == Seq::<MemoryRegion>::empty(),
            r.bootinfo.framebuffer is None && r.bootinfo.physical_memory_offset is None
                && r.bootinfo.rsdp_addr is None && r.bootinfo.tls_template is None,
    {
        let no_segments: Vec<crate::bootloader::binary::elf::Segment> = Vec::new();
        let mut entries = UsedLevel4Entries::new(no_segments.as_slice(), 0);
        proof {
            assert forall|i: int| 0 <= i < 512 implies #[trigger] entries.state()[i] == (i == 0) by {
                assert(entries.state()[i] == used_by(no_segments@, 0, 0, i));
            }
        }
        let addr = match bootinfo_addr {
            Some(a) => a,
            None => {
                proof {
                    assert(!entries.state()[1]);
                    assert(first_free(entries.state()) == 1) by {
                        let f = first_free(entries.state());
                        assert(0 <= f < 512 && !entries.state()[f]);
                        if f > 1 {
                            assert(entries.state()[1]);
                        }
                    }
                }
                let a = entries.get_free_address();
                proof {
                    assert(entries.state() =~= Seq::new(512, |i: int| i == 0 || i == 1));
                }
                a.addr
            },
        };
        let layout = create_boot_info(addr, boot_info_size, region_align, region_size, &allocator);
        let bootinfo = boot_info_header(version.0, version.1, version.2, version.3);
        Bootloader {
            entries,
            kernel,
            stack: NoStack,
            bootloader_mapper,
            kernel_mapper,
            allocator,
            bootinfo,
            layout,
        }
    }
}

/// Every segment, loaded `offset` bytes up, ends below the top of the
/// address space.
pub open spec fn segments_fit(segments: Seq<Segment>, offset: int) -> bool {
    forall|k: int| 0 <= k < segments.len() ==> #[trigger] segments[k].virtual_addr + offset + segments[k].mem_size <= u64::MAX
}

/// Whether every segment, loaded `offset` bytes up, ends below the top of
/// the address space.
fn all_fit(segments: &Vec<Segment>, offset: u64) -> (r: bool)
    ensures
        r == segments_fit(segments@, offset as int),
{
    let mut k: usize = 0;
    while k < segments.len()
        invariant
            k <= segments@.len(),
            forall|j: int| 0 <= j < k ==> #[trigger] segments@[j].virtual_addr + offset + segments@[j].mem_size <= u64::MAX,
        decreases segments@.len() - k,
    {
        let s = segments[k];
        if s.virtual_addr > u64::MAX - offset || s.mem_size > u64::MAX - offset - s.virtual_addr {
            return false;
        }
        k = k + 1;
    }
    true
}

impl<KM, BM, S> Bootloader<KM, BM, Kernel, S> {
    /// Loads the kernel from its file `file`: marks the level 4 entries its
    /// segments cover as used, and gives the steps `load_segments` plans,
    /// with the thread local storage template recorded in the boot info on
    /// success, or the loader's error. `None` where loading cannot go on.
    pub fn load_kernel(self, file: &[u8]) -> (r: Option<(Vec<LoadStep>, Result<Bootloader<KM, BM, LoadedKernel, S>, BootloaderError>)>)
        requires
            self.entries.state().len() == 512,
            segments_safe(file@),
            dynamics_safe(file@),
        ensures
            match load_outcome(file@, self.kernel.spec_start() as int, self.kernel.spec_offset() as int) {
                None => r is None,
                Some((steps, Err(e))) => (r matches Some((v, Err(x))) && v@ == steps && x == BootloaderError::ElfLoader(e)),
                Some((steps, Ok(tls))) => (r matches Some((v, Ok(b))) && v@ == steps && b.bootinfo.tls_template == tls
                    && b.kernel.0 == self.kernel && b.allocator == self.allocator && b.layout == self.layout
                    && b.stack == self.stack && b.entries.state().len() == 512
                    && b.bootinfo.framebuffer == self.bootinfo.framebuffer
                    && b.bootinfo.physical_memory_offset == self.bootinfo.physical_memory_offset),
            },
    {
        let offset = self.kernel.offset().addr;
        let mut this = self;
        let (steps, res) = match load_segments(file, this.kernel.start.addr, offset) {
            Some(x) => x,
            None => {
                return None;
            },
        };
        let tls = match res {
            Ok(t) => t,
            Err(e) => {
                return Some((steps, Err(BootloaderError::ElfLoader(e))));
            },
        };
        match read_segments(file) {
            Ok(segments) => {
                if all_fit(&segments, offset) {
                    this.entries.mark_segments(segments.as_slice(), offset);
                }
            },
            Err(_) => {},
        }
        this.bootinfo.tls_template = tls;
        Some((
            steps,
            Ok(Bootloader {
                entries: this.entries,
                kernel: LoadedKernel(this.kernel),
                stack: this.stack,
                bootloader_mapper: this.bootloader_mapper,
                kernel_mapper: this.kernel_mapper,
                allocator: this.allocator,
                bootinfo: this.bootinfo,
                layout: this.layout,
            }),
        ))
    }
}

impl<KM, BM, K> Bootloader<KM, BM, K, NoStack> {
    /// Sets up the kernel's stack as `setup_stack` says: the pages to map
    /// it on, to fresh frames.
    pub fn setup_stack(self, start: Option<VirtualAddr>, size: Option<u64>) -> (r: (Bootloader<KM, BM, K, Stack>, MapRequest))
        requires
            start is None ==> self.entries.state().len() == 512 && exists|i: int| 0 <= i < 512 && !#[trigger] self.entries.state()[i],
            start is None ==> first_free(self.entries.state()) * 0x80_0000_0000 + (match size {
                Some(s) => s as int,
                None => 81920,
            }) <= u64::MAX,
            start matches Some(s) ==> s.addr + (match size {
                Some(z) => z as int,
                None => 81920,
            }) <= u64::MAX,
        ensures
            start matches Some(s) ==> r.0.stack.spec_start() == s.addr && r.0.entries.state() == self.entries.state(),
            start is None ==> r.0.stack.spec_start() == first_free(self.entries.state()) * 0x80_0000_0000
                && r.0.entries.state() == self.entries.state().update(first_free(self.entries.state()), true),
            r.0.stack.spec_size() == (match size {
                Some(s) => s,
                None => 81920u64,
            }),
            r.1 == (MapRequest {
                first_page: page_floor(r.0.stack.spec_start() as int) as u64,
                pages: ((page_floor(r.0.stack.spec_start() + r.0.stack.spec_size()) - page_floor(r.0.stack.spec_start() as int)) / 4096) as u64,
                page_size: 4096,
                first_frame: None,
            }),
            r.0.kernel == self.kernel,
            r.0.allocator == self.allocator,
            r.0.layout == self.layout,
    {
        let mut this = self;
        let stack = setup_stack(&mut this.entries, start, size);
        let pages = stack.pages();
        let req = MapRequest { first_page: pages.start, pages: pages.len, page_size: PAGE_4KB, first_frame: None };
        (
            Bootloader {
                entries: this.entries,
                kernel: this.kernel,
                stack,
                bootloader_mapper: this.bootloader_mapper,
                kernel_mapper: this.kernel_mapper,
                allocator: this.allocator,
                bootinfo: this.bootinfo,
                layout: this.layout,
            },
            req,
        )
    }
}

impl<KM, BM, K, S> Bootloader<KM, BM, K, S> {
    /// Maps the framebuffer of `info.byte_len` bytes at `buffer_start` at
    /// `location`, or else at the first free level 4 entry, and records it
    /// in the boot info: the pages to map to its frames.
    pub fn map_framebuffer(&mut self, buffer_start: u64, info: FrameBufferInfo, location: Option<u64>) -> (r: MapRequest)
        requires
            location is None ==> old(self).entries.state().len() == 512
                && exists|i: int| 0 <= i < 512 && !#[trigger] old(self).entries.state()[i],
        ensures
            ({
                let loc = match location {
                    Some(l) => l as int,
                    None => first_free(old(self).entries.state()) * 0x80_0000_0000,
                };
                &&& r == (MapRequest {
                    first_page: page_floor(loc) as u64,
                    pages: (info.byte_len / 4096) as u64,
                    page_size: 4096,
                    first_frame: Some(page_floor(buffer_start as int) as u64),
                })
                &&& final(self).bootinfo.framebuffer == Some(FrameBuffer {
                    buffer_start: loc as u64,
                    buffer_byte_len: info.byte_len,
                    info,
                })
            }),
            location is Some ==> final(self).entries == old(self).entries,
            location is None ==> final(self).entries.state() == old(self).entries.state().update(first_free(old(self).entries.state()), true),
            final(self).bootinfo.physical_memory_offset == old(self).bootinfo.physical_memory_offset,
            final(self).bootinfo.memory_regions@ == old(self).bootinfo.memory_regions@,
            final(self).allocator == old(self).allocator,
            final(self).kernel == old(self).kernel,
            final(self).stack == old(self).stack,
            final(self).layout == old(self).layout,
    {
        let frames = PageRange::with_size(buffer_start, info.byte_len as u64);
        let location = match location {
            Some(l) => l,
            None => self.entries.get_free_address().addr,
        };
        let pages = PageRange::with_size(location, info.byte_len as u64);
        self.bootinfo.framebuffer = Some(FrameBuffer { buffer_start: location, buffer_byte_len: info.byte_len, info });
        MapRequest { first_page: pages.start, pages: pages.len, page_size: PAGE_4KB, first_frame: Some(frames.start) }
    }
}

/// The start of the large page that contains `a`.
pub open spec fn large_page_floor(a: int) -> int {
    a - a % (PAGE_2MB as int)
}

impl<KM, BM> Bootloader<KM, BM, Kernel, NoStack> {
    /// Identity-maps, in the bootloader's address space, the physical
    /// memory past the first gigabyte, which is mapped already: the large
    /// pages from the first gigabyte up to, not including, the one holding
    /// the end of the last region.
    pub fn id_map_virtual_memory(&self) -> (r: MapRequest)
        requires
            self.allocator.wf(),
            self.allocator.regions().len() > 0,
        ensures
            ({
                let end = large_page_floor(max_end(self.allocator.regions(), self.allocator.regions().len() as int));
                r == (MapRequest {
                    first_page: 0x4000_0000,
                    pages: (if end > 0x4000_0000 {
                        (end - 0x4000_0000) / (PAGE_2MB as int)
                    } else {
                        0
                    }) as u64,
                    page_size: PAGE_2MB,
                    first_frame: Some(0x4000_0000),
                })
            }),
    {
        let max_phys = self.allocator.max_physical_address();
        let end = max_phys.addr - max_phys.addr % PAGE_2MB;
        let pages = if end > 0x4000_0000 {
            (end - 0x4000_0000) / PAGE_2MB
        } else {
            0
        };
        MapRequest { first_page: 0x4000_0000, pages, page_size: PAGE_2MB, first_frame: Some(0x4000_0000) }
    }
}

impl<KM, BM> Bootloader<KM, BM, LoadedKernel, Stack> {
    /// Maps all physical memory, up to the end of the last region, at
    /// `offset` in large pages, and records the offset in the boot info:
    /// the pages to map to the frames from address 0 on.
    pub fn map_physical_memory(&mut self, offset: u64) -> (r: MapRequest)
        requires
            old(self).allocator.wf(),
            old(self).allocator.regions().len() > 0,
        ensures
            r == (MapRequest {
                first_page: large_page_floor(offset as int) as u64,
                pages: (large_page_floor(max_end(old(self).allocator.regions(), old(self).allocator.regions().len() as int)) / (PAGE_2MB as int)) as u64,
                page_size: PAGE_2MB,
                first_frame: Some(0),
            }),
            final(self).bootinfo.physical_memory_offset == Some(offset),
            final(self).bootinfo.framebuffer == old(self).bootinfo.framebuffer,
            final(self).bootinfo.memory_regions@ == old(self).bootinfo.memory_regions@,
            final(self).allocator == old(self).allocator,
            final(self).entries == old(self).entries,
            final(self).layout == old(self).layout,
    {
        let max_phys = self.allocator.max_physical_address();
        let frames = (max_phys.addr - max_phys.addr % PAGE_2MB) / PAGE_2MB;
        self.bootinfo.physical_memory_offset = Some(offset);
        MapRequest { first_page: offset - offset % PAGE_2MB, pages: frames, page_size: PAGE_2MB, first_frame: Some(0) }
    }

    /// Completes the boot info with the memory map the kernel gets and
    /// says where to jump: the boot info, the top of the stack, the page the
    /// stack ends in, and the kernel's entry point, given the kernel's file
    /// header. Fails where the memory map does not fit the room laid out
    /// for it.
    pub fn boot(self, header: &ElfHeader) -> (r: Result<(BootInfo, u64, u64), Bootloader<KM, BM, LoadedKernel, Stack>>)
        requires
            self.allocator.wf(),
            self.kernel.0.spec_offset() + header.entry_point <= u64::MAX,
            self.stack.spec_start() + self.stack.spec_size() <= u64::MAX,
        ensures
            ({
                let regions = memory_regions(self.allocator.regions(), self.allocator.next());
                if regions.len() <= self.layout.regions {
                    r matches Ok((info, stack_top, entry)) && info.memory_regions@ == regions
                        && info.framebuffer == self.bootinfo.framebuffer
                        && info.physical_memory_offset == self.bootinfo.physical_memory_offset
                        && info.rsdp_addr == self.bootinfo.rsdp_addr
                        && info.tls_template == self.bootinfo.tls_template
                        && info.version_major == self.bootinfo.version_major
                        && info.version_minor == self.bootinfo.version_minor
                        && info.version_patch == self.bootinfo.version_patch
                        && info.pre_release == self.bootinfo.pre_release
                        && stack_top == page_floor(self.stack.spec_start() + self.stack.spec_size())
                        && entry == self.kernel.0.spec_offset() + header.entry_point
                } else {
                    r == Err::<(BootInfo, u64, u64), Bootloader<KM, BM, LoadedKernel, Stack>>(self)
                }
            }),
    {
        let memory_regions = match self.allocator.write_memory_map(self.layout.regions) {
            Ok(m) => m,
            Err(()) => {
                return Err(self);
            },
        };
        let stack_top = self.stack.end();
        let entry_point = self.kernel.0.entrypoint(header);
        let mut bootinfo = self.bootinfo;
        bootinfo.memory_regions = memory_regions;
        Ok((bootinfo, stack_top, entry_point.addr))
    }
}

} // verus!
