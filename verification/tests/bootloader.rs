use kos::addr::{FrameError, PhysicalAddr, VirtualAddr};
use kos::bootloader::binary::bootloader::{Bootloader, Kernel, KernelError, MapRequest, NoStack, PAGE_2MB};
use kos::bootloader::binary::elf::{check_elf, read_elf_header, read_segments, ElfType, Segment, SegmentKind};
use kos::bootloader::binary::legacy_memory_region::LegacyFrameAllocator;
use kos::bootloader::binary::level_4_entries::UsedLevel4Entries;
use kos::bootloader::binary::load_kernel::{
    check_is_in_load, handle_bss_section, handle_dynamic_segment, handle_tls_segment, load_segment_plan, load_segments, LoadPlan, LoadStep,
};
use kos::bootloader::binary::memory::{construct_memory_map, BiosFrameAllocator, E820MemoryMap, E820MemoryRegion};
use kos::bootloader::binary::memory_descriptor;
use kos::bootloader::binary::{boot_info_header, create_boot_info, BootInfoLayout};
use kos::bootloader::bios::{make_framebuffer, pixel_format};
use kos::bootloader::boot_info::{FrameBuffer, FrameBufferInfo, MemoryRegion, MemoryRegionKind, PixelFormat, TlsTemplate};

struct Ph {
    kind: u32,
    flags: u32,
    offset: u64,
    vaddr: u64,
    filesz: u64,
    memsz: u64,
    align: u64,
}

/// A 64-bit little endian ELF file of the given type with these program
/// headers, `len` bytes long.
fn elf(e_type: u16, entry: u64, phs: &[Ph], len: usize) -> Vec<u8> {
    let mut b = vec![0u8; len];
    b[0..4].copy_from_slice(&[0x7f, b'E', b'L', b'F']);
    b[4] = 2;
    b[5] = 1;
    b[6] = 1;
    b[16..18].copy_from_slice(&e_type.to_le_bytes());
    b[18..20].copy_from_slice(&0x3eu16.to_le_bytes());
    b[20..24].copy_from_slice(&1u32.to_le_bytes());
    b[24..32].copy_from_slice(&entry.to_le_bytes());
    b[32..40].copy_from_slice(&64u64.to_le_bytes());
    b[52..54].copy_from_slice(&64u16.to_le_bytes());
    b[54..56].copy_from_slice(&56u16.to_le_bytes());
    b[56..58].copy_from_slice(&(phs.len() as u16).to_le_bytes());
    b[58..60].copy_from_slice(&64u16.to_le_bytes());
    for (i, p) in phs.iter().enumerate() {
        let o = 64 + 56 * i;
        b[o..o + 4].copy_from_slice(&p.kind.to_le_bytes());
        b[o + 4..o + 8].copy_from_slice(&p.flags.to_le_bytes());
        b[o + 8..o + 16].copy_from_slice(&p.offset.to_le_bytes());
        b[o + 16..o + 24].copy_from_slice(&p.vaddr.to_le_bytes());
        b[o + 24..o + 32].copy_from_slice(&p.vaddr.to_le_bytes());
        b[o + 32..o + 40].copy_from_slice(&p.filesz.to_le_bytes());
        b[o + 40..o + 48].copy_from_slice(&p.memsz.to_le_bytes());
        b[o + 48..o + 56].copy_from_slice(&p.align.to_le_bytes());
    }
    b
}

fn load_ph() -> Ph {
    Ph { kind: 1, flags: 6, offset: 0x1000, vaddr: 0x20_1000, filesz: 0x1800, memsz: 0x3000, align: 0x1000 }
}

fn tls_ph() -> Ph {
    Ph { kind: 7, flags: 4, offset: 0x2000, vaddr: 0x20_3000, filesz: 0x10, memsz: 0x20, align: 8 }
}

fn kernel_file() -> Vec<u8> {
    elf(2, 0x20_1000, &[load_ph(), tls_ph()], 0x3000)
}

#[test]
fn elf_header_is_read() {
    let f = kernel_file();
    let h = read_elf_header(&f).unwrap();
    assert_eq!(h.kind, ElfType::Executable);
    assert_eq!(h.entry_point, 0x20_1000);
    assert_eq!(h.sane, Ok(()));
    assert!(read_elf_header(&[1, 2, 3]).is_err());
}

#[test]
fn elf_files_that_cannot_be_read_safely_are_found() {
    assert!(check_elf(&kernel_file()));
    assert!(check_elf(&[1, 2, 3]));
    let mut short = kernel_file();
    short.truncate(120);
    assert!(!check_elf(&short));
    let mut far = kernel_file();
    far[32..40].copy_from_slice(&u64::MAX.to_le_bytes());
    assert!(!check_elf(&far));
    let dynamic = Ph { kind: 2, flags: 4, offset: 0x1000, vaddr: 0x20_1000, filesz: 0x18, memsz: 0x18, align: 8 };
    assert!(!check_elf(&elf(3, 0, &[dynamic], 0x2000)));
    let whole = Ph { kind: 2, flags: 4, offset: 0x1000, vaddr: 0x20_1000, filesz: 0x20, memsz: 0x20, align: 8 };
    assert!(check_elf(&elf(3, 0, &[whole], 0x2000)));
}

#[test]
fn a_file_at_any_address_is_read() {
    let mut shifted = vec![0u8];
    shifted.extend_from_slice(&kernel_file());
    let f = &shifted[1..];
    assert_eq!(read_elf_header(f).unwrap().entry_point, 0x20_1000);
    assert_eq!(read_segments(f).unwrap().len(), 2);
}

#[test]
fn misaligned_program_headers_are_refused() {
    let mut f = kernel_file();
    f[32..40].copy_from_slice(&68u64.to_le_bytes());
    assert!(!check_elf(&f));
    assert_eq!(
        Kernel::try_new(PhysicalAddr::new(0x40_0000), f.len() as u64, &f).map(|r| r.err()),
        Some(Some(KernelError::MalformedKernel))
    );
}

#[test]
fn program_headers_are_read() {
    let f = kernel_file();
    let s = read_segments(&f).unwrap();
    assert_eq!(s.len(), 2);
    assert_eq!(s[0].kind, Ok(SegmentKind::Load));
    assert!(s[0].writable);
    assert_eq!((s[0].offset, s[0].virtual_addr, s[0].file_size, s[0].mem_size), (0x1000, 0x20_1000, 0x1800, 0x3000));
    assert_eq!(s[0].sane, Ok(()));
    assert_eq!(s[1].kind, Ok(SegmentKind::Tls));
    assert!(!s[1].writable);
}

#[test]
fn kernel_kinds() {
    let f = kernel_file();
    let k = Kernel::new(PhysicalAddr::new(0x40_0000), f.len() as u64, &f).unwrap();
    assert_eq!(k.offset().as_u64(), 0);
    let h = read_elf_header(&f).unwrap();
    assert_eq!(k.entrypoint(&h).as_u64(), 0x20_1000);
    assert_eq!(k.frames().start, 0x40_0000);
    assert_eq!(k.frames().len, 3);

    let so = elf(3, 0x1000, &[], 0x100);
    let k = Kernel::new(PhysicalAddr::new(0x40_0000), 0x100, &so).unwrap();
    assert_eq!(k.offset().as_u64(), 0x40_0000);

    let rel = elf(1, 0, &[], 0x100);
    assert!(matches!(Kernel::new(PhysicalAddr::new(0x40_0000), 0x100, &rel), Err(KernelError::UnsupportedKernelExecutable)));
    assert!(matches!(Kernel::new(PhysicalAddr::new(0x40_0010), 0x100, &rel), Err(KernelError::MalformedKernel)));
    assert!(Kernel::try_new(PhysicalAddr::new(0x40_0000), 3, &[1, 2, 3]).is_none());
    assert!(matches!(Kernel::try_new(PhysicalAddr::new(0x40_0001), 3, &[1, 2, 3]), Some(Err(KernelError::MalformedKernel))));
}

#[test]
fn segments_are_planned() {
    let f = kernel_file();
    let (steps, res) = load_segments(&f, 0x40_0000, 0).unwrap();
    assert_eq!(
        steps,
        vec![LoadStep::MapSegment(
            0,
            LoadPlan {
                start_frame: 0x40_1000,
                end_frame: 0x40_3000,
                start_page: 0x20_1000,
                end_page: 0x20_3000,
                writable: true,
                has_bss: true,
            }
        )]
    );
    assert_eq!(res, Ok(Some(TlsTemplate { start_addr: 0x20_3000, file_size: 0x10, mem_size: 0x20 })));
}

#[test]
fn second_tls_segment_is_refused() {
    let f = elf(2, 0, &[tls_ph(), tls_ph()], 0x3000);
    let (steps, res) = load_segments(&f, 0x40_0000, 0).unwrap();
    assert!(steps.is_empty());
    assert_eq!(res, Err("multiple TLS segments not supported"));
}

#[test]
fn insane_segment_stops_loading() {
    let bad = Ph { kind: 1, flags: 4, offset: 0x1001, vaddr: 0x20_1000, filesz: 0x10, memsz: 0x10, align: 0x1000 };
    let f = elf(2, 0, &[load_ph(), bad], 0x3000);
    let (steps, res) = load_segments(&f, 0x40_0000, 0).unwrap();
    assert!(steps.is_empty());
    assert_eq!(res, Err("Invalid combination of virtual_addr, offset, and align"));
}

fn segment(kind: SegmentKind, vaddr: u64, file_size: u64, mem_size: u64) -> Segment {
    Segment { kind: Ok(kind), writable: false, offset: 0x1000, virtual_addr: vaddr, file_size, mem_size, sane: Ok(()) }
}

#[test]
fn segment_arithmetic() {
    let s = segment(SegmentKind::Load, 0x20_1800, 0x1000, 0x2000);
    assert_eq!(
        load_segment_plan(0x40_0000, 0x100_0000, &s),
        LoadPlan { start_frame: 0x40_1000, end_frame: 0x40_2000, start_page: 0x120_1000, end_page: 0x120_3000, writable: false, has_bss: true }
    );
    let bss = handle_bss_section(0, &s);
    assert_eq!(bss.shared_page, Some((0x20_2000, 0x800)));
    assert_eq!(bss.start_page, 0x20_3000);
    assert_eq!(bss.end_page, 0x20_3000);
    assert_eq!(
        handle_tls_segment(0x10, &s),
        Ok(TlsTemplate { start_addr: 0x20_1810, file_size: 0x1000, mem_size: 0x2000 })
    );
    let segs = [segment(SegmentKind::Tls, 0, 0x100, 0x100), s];
    assert_eq!(check_is_in_load(&segs, 0x20_2000), Ok(()));
    assert_eq!(check_is_in_load(&segs, 0x20_2800), Err("offset is not in load segment"));
}

#[test]
fn level_4_entries() {
    let segs = [segment(SegmentKind::Load, 0x80_0000_0000, 0x10, 0x80_0000_0000)];
    let mut e = UsedLevel4Entries::new(&segs, 0);
    // entry 0, and entries 1 and 2 that the segment covers
    assert_eq!(e.get_free_entry(), 3);
    assert_eq!(e.get_free_entry(), 4);
    assert_eq!(e.get_free_address().as_u64(), 5 * 0x80_0000_0000);
    e.mark_segments(&[segment(SegmentKind::Load, 6 * 0x80_0000_0000, 0, 0)], 0);
    assert_eq!(e.get_free_entry(), 7);
}

fn e820(start: u64, len: u64, t: u32) -> E820MemoryRegion {
    E820MemoryRegion { start_addr: start, len, region_type: t, acpi_extended_attributes: 0 }
}

#[test]
fn descriptors() {
    let d = memory_descriptor::E820MemoryRegion { start_addr: 0x1000, len: 0x2000, region_type: 1, acpi_extended_attributes: 0 };
    assert_eq!(d.start().as_u64(), 0x1000);
    assert_eq!(d.len(), 0x2000);
    assert_eq!(d.kind(), MemoryRegionKind::Usable);
    let r = e820(0, 0x1000, 2);
    assert_eq!(r.kind(), MemoryRegionKind::UnknownBios(2));
    assert_eq!(r.len(), 0x1000);
}

#[test]
fn max_phys_addr_takes_a_zero_length_region_at_zero() {
    let m = E820MemoryMap { memory_map: vec![e820(0, 0, 2), e820(0x1000, 0x4000, 1), e820(0x8000, 0x1000, 2)], next_frame: 0x1000 };
    assert_eq!(m.max_phys_addr().as_u64(), 0x9000);
    let z = E820MemoryMap { memory_map: vec![e820(0, 0, 1)], next_frame: 0 };
    assert_eq!(z.max_phys_addr().as_u64(), 0);
}

#[test]
fn construct_memory_map_fills_the_space_it_has() {
    let m = E820MemoryMap { memory_map: vec![e820(0, 0x1000, 2), e820(0x1000, 0x4000, 1)], next_frame: 0x3000 };
    let blank = MemoryRegion { start: 7, end: 7, kind: MemoryRegionKind::Usable };
    let all = vec![
        MemoryRegion { start: 0, end: 0x1000, kind: MemoryRegionKind::UnknownBios(2) },
        MemoryRegion { start: 0x1000, end: 0x3000, kind: MemoryRegionKind::Bootloader },
        MemoryRegion { start: 0x3000, end: 0x5000, kind: MemoryRegionKind::Usable },
    ];
    let mut space = vec![blank; 4];
    assert_eq!(construct_memory_map(&m, &mut space), Ok(3));
    assert_eq!(space[..3], all[..]);
    assert_eq!(space[3], blank);
    let mut small = vec![blank; 2];
    assert_eq!(construct_memory_map(&m, &mut small), Err(()));
    assert_eq!(small[..], all[..2]);
}

#[test]
fn legacy_allocator_walks_usable_frames() {
    let map = vec![
        memory_descriptor::E820MemoryRegion { start_addr: 0, len: 0x1000, region_type: 2, acpi_extended_attributes: 0 },
        memory_descriptor::E820MemoryRegion { start_addr: 0x1000, len: 0x4000, region_type: 1, acpi_extended_attributes: 0 },
    ];
    let mut a = LegacyFrameAllocator::new(map);
    assert_eq!(a.len(), 2);
    assert_eq!(a.max_phys_addr().as_u64(), 0x5000);
    assert_eq!(a.allocate_frame(), Ok(0x1000));
    assert_eq!(a.allocate_frame(), Ok(0x2000));
    let regions = a.construct_memory_map(4).unwrap();
    assert_eq!(
        regions,
        vec![
            MemoryRegion { start: 0, end: 0x1000, kind: MemoryRegionKind::UnknownBios(2) },
            MemoryRegion { start: 0x1000, end: 0x3000, kind: MemoryRegionKind::Bootloader },
            MemoryRegion { start: 0x3000, end: 0x5000, kind: MemoryRegionKind::Usable },
        ]
    );
}

#[test]
fn legacy_allocator_runs_out() {
    let map = vec![memory_descriptor::E820MemoryRegion { start_addr: 0x1000, len: 0x3000, region_type: 1, acpi_extended_attributes: 0 }];
    let mut a = LegacyFrameAllocator::new_starting_at(0x2000, map);
    assert_eq!(a.allocate_frame(), Ok(0x2000));
    assert_eq!(a.allocate_frame(), Err(FrameError::Alloc));
}

fn bios_allocator() -> BiosFrameAllocator {
    BiosFrameAllocator::new(E820MemoryMap { memory_map: vec![e820(0x10_0000, 0x40_0000, 1)], next_frame: 0x10_0000 }).unwrap()
}

#[test]
fn bios_allocator_and_memory_map() {
    let mut a = bios_allocator();
    assert_eq!(a.len(), 1);
    assert_eq!(a.max_physical_address().as_u64(), 0x50_0000);
    assert_eq!(a.allocate_frame(), Ok(0x10_0000));
    assert_eq!(a.allocate_frame(), Ok(0x10_1000));
    assert_eq!(
        a.write_memory_map(2),
        Ok(vec![
            MemoryRegion { start: 0x10_0000, end: 0x10_2000, kind: MemoryRegionKind::Bootloader },
            MemoryRegion { start: 0x10_2000, end: 0x50_0000, kind: MemoryRegionKind::Usable },
        ])
    );
    assert_eq!(a.write_memory_map(1), Err(()));
}

#[test]
fn boot_info_layout() {
    let a = bios_allocator();
    let l = create_boot_info(0x1_0000_0000, 0x90, 8, 24, &a);
    assert_eq!(
        l,
        BootInfoLayout { boot_info_addr: 0x1_0000_0000, memory_map_addr: 0x1_0000_0090, regions: 2, first_page: 0x1_0000_0000, last_page: 0x1_0000_0000 }
    );
    let l = create_boot_info(0x1_0000_0ff0, 0x13, 16, 24, &a);
    assert_eq!(l.memory_map_addr, 0x1_0000_1010);
    assert_eq!(l.first_page, 0x1_0000_0000);
    assert_eq!(l.last_page, 0x1_0000_1000);
    let h = boot_info_header(0, 3, 1, false);
    assert_eq!((h.version_major, h.version_minor, h.version_patch, h.pre_release), (0, 3, 1, false));
    assert!(h.memory_regions.is_empty() && h.framebuffer.is_none() && h.tls_template.is_none());
}

#[test]
fn vesa_framebuffer() {
    assert_eq!(pixel_format(0, 8, 16), Some(PixelFormat::RGB));
    assert_eq!(pixel_format(16, 8, 0), Some(PixelFormat::BGR));
    assert_eq!(pixel_format(8, 8, 8), None);
    let (addr, info) = make_framebuffer(0xfd00_0000, 4096, 1024, 768, 32, 16, 8, 0);
    assert_eq!(addr, 0xfd00_0000);
    assert_eq!(
        info,
        FrameBufferInfo {
            byte_len: 768 * 4096,
            horizontal_resolution: 1024,
            vertical_resolution: 768,
            pixel_format: PixelFormat::BGR,
            bytes_per_pixel: 4,
            stride: 1024,
        }
    );
}

#[test]
fn bootloader_flow() {
    let f = kernel_file();
    let kernel = Kernel::new(PhysicalAddr::new(0x40_0000), f.len() as u64, &f).unwrap();
    let b: Bootloader<u8, u8, Kernel, NoStack> = Bootloader::new(kernel, bios_allocator(), 1, 2, None, 0x90, 8, 24, (0, 3, 1, false));
    assert_eq!(b.layout.boot_info_addr, 0x80_0000_0000);
    assert_eq!(b.layout.regions, 2);
    // the memory ends below the first gigabyte: nothing more to identity-map
    assert_eq!(b.id_map_virtual_memory().pages, 0);
    let (steps, loaded) = b.load_kernel(&f).unwrap();
    assert_eq!(steps.len(), 1);
    let mut b = loaded.unwrap();
    assert_eq!(b.bootinfo.tls_template, Some(TlsTemplate { start_addr: 0x20_3000, file_size: 0x10, mem_size: 0x20 }));
    {
        let (km, bm, a) = b.page_tables_alloc();
        assert_eq!((*km, *bm), (1, 2));
        assert_eq!(a.allocate_frame(), Ok(0x10_0000));
    }
    let (mut b, stack) = b.setup_stack(None, None);
    assert_eq!(stack, MapRequest { first_page: 0x100_0000_0000, pages: 20, page_size: 4096, first_frame: None });
    let info = FrameBufferInfo { byte_len: 0x3000, horizontal_resolution: 16, vertical_resolution: 16, pixel_format: PixelFormat::RGB, bytes_per_pixel: 4, stride: 16 };
    let fb = b.map_framebuffer(0xfd00_0000, info, None);
    assert_eq!(fb, MapRequest { first_page: 0x180_0000_0000, pages: 3, page_size: 4096, first_frame: Some(0xfd00_0000) });
    assert_eq!(b.bootinfo.framebuffer, Some(FrameBuffer { buffer_start: 0x180_0000_0000, buffer_byte_len: 0x3000, info }));
    let pm = b.map_physical_memory(0x10_0000_0000);
    assert_eq!(pm, MapRequest { first_page: 0x10_0000_0000, pages: 2, page_size: PAGE_2MB, first_frame: Some(0) });
    let h = read_elf_header(&f).unwrap();
    let (info, stack_top, entry) = b.boot(&h).ok().unwrap();
    assert_eq!(stack_top, 0x100_0001_4000);
    assert_eq!(entry, 0x20_1000);
    assert_eq!(info.physical_memory_offset, Some(0x10_0000_0000));
    assert_eq!(
        info.memory_regions,
        vec![
            MemoryRegion { start: 0x10_0000, end: 0x10_1000, kind: MemoryRegionKind::Bootloader },
            MemoryRegion { start: 0x10_1000, end: 0x50_0000, kind: MemoryRegionKind::Usable },
        ]
    );
    let _ = VirtualAddr::new(0);
}

#[test]
fn identity_map_past_the_first_gigabyte() {
    let f = kernel_file();
    let kernel = Kernel::new(PhysicalAddr::new(0x40_0000), f.len() as u64, &f).unwrap();
    let map = E820MemoryMap { memory_map: vec![e820(0x10_0000, 0x4050_0000, 1)], next_frame: 0x10_0000 };
    let alloc = BiosFrameAllocator::new(map).unwrap();
    let b: Bootloader<u8, u8, Kernel, NoStack> = Bootloader::new(kernel, alloc, 1, 2, None, 0x90, 8, 24, (0, 3, 1, false));
    assert_eq!(
        b.id_map_virtual_memory(),
        MapRequest { first_page: 0x4000_0000, pages: 3, page_size: PAGE_2MB, first_frame: Some(0x4000_0000) }
    );
}

fn put(b: &mut [u8], at: usize, words: &[u64]) {
    for (k, w) in words.iter().enumerate() {
        b[at + 8 * k..at + 8 * k + 8].copy_from_slice(&w.to_le_bytes());
    }
}

fn relocated_file(first_info: u64) -> Vec<u8> {
    let dynamic = Ph { kind: 2, flags: 4, offset: 0x2800, vaddr: 0x20_2800, filesz: 48, memsz: 48, align: 8 };
    let mut f = elf(3, 0, &[load_ph(), dynamic], 0x3000);
    put(&mut f, 0x2800, &[7, 0x2900, 8, 48, 9, 24]);
    put(&mut f, 0x2900, &[0x10, first_info, 0, 0x20_1000, 5, 0]);
    f
}

#[test]
fn relocations_stop_at_the_first_refused_entry_in_order() {
    // entry 0 lies in no Load segment and is refused before entry 1, of a
    // kind the loader does not know, is met
    let f = relocated_file(8);
    let segments = read_segments(&f).unwrap();
    assert_eq!(
        handle_dynamic_segment(&f, 1, &segments, 0),
        Some((vec![], Err("offset is not in load segment")))
    );
    // an entry of an unknown kind met first stops the loading
    let g = relocated_file(5);
    let segments = read_segments(&g).unwrap();
    assert_eq!(handle_dynamic_segment(&g, 1, &segments, 0), None);
}
