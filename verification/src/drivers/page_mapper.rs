//! Page mappers: a four-level page table hierarchy, held as plain values,
//! walked and filled the way the processor reads it.
use crate::addr::FrameError;
use vstd::prelude::*;

verus! {

/// The entry is present.
pub const PRESENT: u64 = 0x1;
/// The page may be written.
pub const WRITABLE: u64 = 0x2;
/// The page may be reached from user mode.
pub const USER: u64 = 0x4;
/// A level 3 or level 2 entry maps a whole 1 GiB or 2 MiB page.
pub const HUGE: u64 = 0x80;
/// The bits of an entry that hold the physical address.
pub const ADDR_MASK: u64 = 0x000f_ffff_ffff_f000;
/// The flags given to an entry that links a page table.
pub const TABLE_FLAGS: u64 = 0x7;

pub open spec fn present(e: u64) -> bool {
    (e & 1u64) != 0
}

pub open spec fn huge(e: u64) -> bool {
    (e & 0x80u64) != 0
}

/// The physical address an entry holds.
pub open spec fn addr_of(e: u64) -> u64 {
    e & 0x000f_ffff_ffff_f000u64
}

/// The flag bits of an entry.
pub open spec fn flags_of(e: u64) -> u64 {
    e & !0x000f_ffff_ffff_f000u64
}

/// The entry with `frame` as address and the flag bits of `flags`.
pub open spec fn make_entry(frame: u64, flags: u64) -> u64 {
    (frame & 0x000f_ffff_ffff_f000u64) | (flags & !0x000f_ffff_ffff_f000u64)
}

proof fn lemma_entry_bits(f: u64, fl: u64, e: u64)
    by (bit_vector)
    ensures
        (f % 4096 == 0 && f <= 0x000f_ffff_ffff_f000u64) ==> ((f & 0x000f_ffff_ffff_f000u64) | (fl
            & !0x000f_ffff_ffff_f000u64)) & 0x000f_ffff_ffff_f000u64 == f,
        ((f & 0x000f_ffff_ffff_f000u64) | (fl & !0x000f_ffff_ffff_f000u64)) & !0x000f_ffff_ffff_f000u64
            == fl & !0x000f_ffff_ffff_f000u64,
        ((f & 0x000f_ffff_ffff_f000u64) | (fl & !0x000f_ffff_ffff_f000u64)) & 1u64 == fl & 1u64,
        ((f & 0x000f_ffff_ffff_f000u64) | (fl & !0x000f_ffff_ffff_f000u64)) & 0x80u64 == fl & 0x80u64,
        (fl | 0x80u64) & 0x80u64 != 0,
        (fl | 0x80u64) & 1u64 == fl & 1u64,
        (e & 0x000f_ffff_ffff_f000u64) & 0x000f_ffff_ffff_f000u64 == e & 0x000f_ffff_ffff_f000u64,
        e & 0x000f_ffff_ffff_f000u64 <= 0x000f_ffff_ffff_f000u64,
        (e & 0x000f_ffff_ffff_f000u64) % 4096 == 0,
        7u64 & 0x80u64 == 0,
        7u64 & 1u64 != 0,
        0u64 & 1u64 == 0,
        7u64 & !0x000f_ffff_ffff_f000u64 == 7u64,
{
}

/// The size of a page.
#[derive(Clone, Copy, PartialEq, Eq, Structural, Debug)]
pub enum PageSize {
    Page4Kb,
    Page2Mb,
    Page1Gb,
}

pub open spec fn page_bytes(size: PageSize) -> int {
    match size {
        PageSize::Page4Kb => 0x1000,
        PageSize::Page2Mb => 0x20_0000,
        PageSize::Page1Gb => 0x4000_0000,
    }
}

/// The level of the table whose entry maps a page of `size`.
pub open spec fn leaf_level(size: PageSize) -> int {
    match size {
        PageSize::Page4Kb => 1,
        PageSize::Page2Mb => 2,
        PageSize::Page1Gb => 3,
    }
}

/// The flags written into the entry that maps a page of `size`.
pub open spec fn leaf_flags(flags: u64, size: PageSize) -> u64 {
    match size {
        PageSize::Page4Kb => flags,
        _ => flags | 0x80u64,
    }
}

/// Where a virtual address lands: the physical address, the offset in the
/// page, and the flags of the entry that maps it.
#[derive(Clone, Copy, PartialEq, Eq, Structural, Debug)]
pub struct Translation {
    pub addr: u64,
    pub offset: u64,
    pub flags: u64,
}

/// The index, in a table of `level`, of the entry on the way to `a`.
pub open spec fn table_index(a: u64, level: int) -> int {
    let p = a as int / 4096;
    if level <= 1 {
        p % 512
    } else if level == 2 {
        p / 512 % 512
    } else if level == 3 {
        p / 512 / 512 % 512
    } else {
        p / 512 / 512 / 512 % 512
    }
}

/// The index, in a table of `level`, of the entry on the way to `a`.
pub fn index_at(a: u64, level: u8) -> (r: usize)
    requires
        1 <= level <= 4,
    ensures
        r == table_index(a, level as int),
        r < 512,
{
    let p = a / 4096;
    let q = if level == 1 {
        p % 512
    } else if level == 2 {
        p / 512 % 512
    } else if level == 3 {
        p / 512 / 512 % 512
    } else {
        p / 512 / 512 / 512 % 512
    };
    q as usize
}

/// The page tables: each table, by the frame that holds it, with its 512
/// entries; the level of each table; and the frame of the level 4 table.
#[verifier::ext_equal]
pub struct PtView {
    pub mem: Map<u64, Seq<u64>>,
    pub lv: Map<u64, int>,
    pub root: u64,
}

/// Whether an entry of a table of `level` links a table of the level below.
pub open spec fn links(level: int, e: u64) -> bool {
    level >= 2 && present(e) && (level == 4 || !huge(e))
}

/// The tables form a hierarchy: the root is a level 4 table, and every entry
/// that links a table links one that is held, one level down.
pub open spec fn leveled(v: PtView) -> bool {
    &&& v.mem.dom().contains(v.root)
    &&& v.lv[v.root] == 4
    &&& forall|f: u64| #[trigger]
        v.mem.dom().contains(f) ==> v.mem[f].len() == 512 && 1 <= v.lv[f] <= 4
    &&& forall|f: u64, i: int|
        v.mem.dom().contains(f) && 0 <= i < 512 && links(v.lv[f], #[trigger] v.mem[f][i])
            ==> v.mem.dom().contains(addr_of(v.mem[f][i])) && v.lv[addr_of(v.mem[f][i])] == v.lv[f]
            - 1
}

pub open spec fn empty_table() -> Seq<u64> {
    Seq::new(512, |i: int| 0u64)
}

pub open spec fn set_entry(v: PtView, t: u64, i: int, e: u64) -> PtView {
    PtView { mem: v.mem.insert(t, v.mem[t].update(i, e)), lv: v.lv, root: v.root }
}

pub open spec fn leaf(e: u64, off: int) -> Translation {
    Translation { addr: (addr_of(e) + off) as u64, offset: off as u64, flags: flags_of(e) }
}

/// What the processor finds for the virtual address `a`.
pub open spec fn resolve(v: PtView, a: u64) -> Result<Translation, FrameError> {
    let e4 = v.mem[v.root][table_index(a, 4)];
    if !present(e4) {
        Err(FrameError::EntryMissing)
    } else {
        let e3 = v.mem[addr_of(e4)][table_index(a, 3)];
        if !present(e3) {
            Err(FrameError::EntryMissing)
        } else if huge(e3) {
            Ok(leaf(e3, a as int % 0x4000_0000))
        } else {
            let e2 = v.mem[addr_of(e3)][table_index(a, 2)];
            if !present(e2) {
                Err(FrameError::EntryMissing)
            } else if huge(e2) {
                Ok(leaf(e2, a as int % 0x20_0000))
            } else {
                let e1 = v.mem[addr_of(e2)][table_index(a, 1)];
                if !present(e1) {
                    Err(FrameError::EntryMissing)
                } else {
                    Ok(leaf(e1, a as int % 0x1000))
                }
            }
        }
    }
}

/// The table that entry `i` of table `t`, of `level`, links.
pub open spec fn walk_spec(v: PtView, t: u64, level: int, i: int) -> Result<u64, FrameError> {
    let e = v.mem[t][i];
    if !present(e) {
        Err(FrameError::EntryMissing)
    } else if level == 4 || !huge(e) {
        Ok(addr_of(e))
    } else {
        Err(FrameError::HugePage)
    }
}

/// A frame that can hold a new table.
pub open spec fn usable(v: PtView, g: u64) -> bool {
    g % 4096 == 0 && g <= 0x000f_ffff_ffff_f000u64 && !v.mem.dom().contains(g)
}

/// The table that entry `i` of table `t`, of `level`, links, made out of
/// the frame the allocator handed out (`out`) where the entry is not present.
pub open spec fn descend_spec(v: PtView, t: u64, level: int, i: int, out: Result<u64, FrameError>) -> (
    PtView,
    Result<u64, FrameError>,
) {
    let e = v.mem[t][i];
    if present(e) {
        if level == 4 || !huge(e) {
            (v, Ok(addr_of(e)))
        } else {
            (v, Err(FrameError::HugePage))
        }
    } else {
        match out {
            Err(x) => (v, Err(x)),
            Ok(g) => if usable(v, g) {
                (
                    PtView {
                        mem: v.mem.insert(g, empty_table()).insert(t, v.mem[t].update(i, make_entry(g, 7))),
                        lv: v.lv.insert(g, level - 1),
                        root: v.root,
                    },
                    Ok(g),
                )
            } else {
                (v, Err(FrameError::Alloc))
            },
        }
    }
}

/// Mapping the page at `page` to `frame`: the tables on the way are walked
/// or made, from the frames the allocator hands out at each level (`o4`,
/// `o3`, `o2`), and the entry at the end is written.
pub open spec fn map_spec(
    v: PtView,
    page: u64,
    frame: u64,
    flags: u64,
    size: PageSize,
    o4: Result<u64, FrameError>,
    o3: Result<u64, FrameError>,
    o2: Result<u64, FrameError>,
) -> (PtView, Result<(), FrameError>) {
    let e = make_entry(frame, leaf_flags(flags, size));
    let (v3, r3) = descend_spec(v, v.root, 4, table_index(page, 4), o4);
    match r3 {
        Err(x) => (v3, Err(x)),
        Ok(t3) => if size == PageSize::Page1Gb {
            (set_entry(v3, t3, table_index(page, 3), e), Ok(()))
        } else {
            let (v2, r2) = descend_spec(v3, t3, 3, table_index(page, 3), o3);
            match r2 {
                Err(x) => (v2, Err(x)),
                Ok(t2) => if size == PageSize::Page2Mb {
                    (set_entry(v2, t2, table_index(page, 2), e), Ok(()))
                } else {
                    let (v1, r1) = descend_spec(v2, t2, 2, table_index(page, 2), o2);
                    match r1 {
                        Err(x) => (v1, Err(x)),
                        Ok(t1) => (set_entry(v1, t1, table_index(page, 1), e), Ok(())),
                    }
                },
            }
        },
    }
}

/// The table that holds the entry mapping the page of `size` at `page`.
pub open spec fn leaf_table(v: PtView, page: u64, size: PageSize) -> Result<u64, FrameError> {
    match walk_spec(v, v.root, 4, table_index(page, 4)) {
        Err(x) => Err(x),
        Ok(t3) => if size == PageSize::Page1Gb {
            Ok(t3)
        } else {
            match walk_spec(v, t3, 3, table_index(page, 3)) {
                Err(x) => Err(x),
                Ok(t2) => if size == PageSize::Page2Mb {
                    Ok(t2)
                } else {
                    walk_spec(v, t2, 2, table_index(page, 2))
                },
            }
        },
    }
}

/// The entry that maps the page, as it is before a change.
pub open spec fn leaf_entry(v: PtView, page: u64, size: PageSize) -> u64 {
    v.mem[leaf_table(v, page, size)->Ok_0][table_index(page, leaf_level(size))]
}

/// Giving the entry that maps the page new flags; its address stays.
pub open spec fn update_flags_spec(v: PtView, page: u64, flags: u64, size: PageSize) -> (
    PtView,
    Result<(), FrameError>,
) {
    match leaf_table(v, page, size) {
        Err(x) => (v, Err(x)),
        Ok(t) => (
            set_entry(
                v,
                t,
                table_index(page, leaf_level(size)),
                make_entry(addr_of(leaf_entry(v, page, size)), leaf_flags(flags, size)),
            ),
            Ok(()),
        ),
    }
}

/// Clearing the entry that maps the page.
pub open spec fn unmap_spec(v: PtView, page: u64, size: PageSize) -> (PtView, Result<(), FrameError>) {
    match leaf_table(v, page, size) {
        Err(x) => (v, Err(x)),
        Ok(t) => (set_entry(v, t, table_index(page, leaf_level(size)), 0), Ok(())),
    }
}

proof fn lemma_same_page(page: u64, addr: u64, size: PageSize)
    requires
        page as int % page_bytes(size) == 0,
        page <= addr < page + page_bytes(size),
    ensures
        forall|l: int| leaf_level(size) <= l <= 4 ==> #[trigger] table_index(addr, l) == table_index(page, l),
        addr as int % page_bytes(size) == addr - page,
{
    let pa = addr as int / 4096;
    let pp = page as int / 4096;
    match size {
        PageSize::Page4Kb => {
            assert(pa == pp);
        },
        PageSize::Page2Mb => {
            vstd::arithmetic::div_mod::lemma_div_denominator(addr as int, 4096, 512);
            vstd::arithmetic::div_mod::lemma_div_denominator(page as int, 4096, 512);
            assert(addr as int / 0x20_0000 == page as int / 0x20_0000);
            assert(pa / 512 == pp / 512);
        },
        PageSize::Page1Gb => {
            vstd::arithmetic::div_mod::lemma_div_denominator(addr as int, 4096, 512);
            vstd::arithmetic::div_mod::lemma_div_denominator(page as int, 4096, 512);
            vstd::arithmetic::div_mod::lemma_div_denominator(addr as int, 0x20_0000, 512);
            vstd::arithmetic::div_mod::lemma_div_denominator(page as int, 0x20_0000, 512);
            assert(addr as int / 0x4000_0000 == page as int / 0x4000_0000);
            assert(pa / 512 / 512 == pp / 512 / 512);
        },
    }
}

/// Once a page is mapped, every address in it lands in the frame it was
/// mapped to, at the same offset, with the flags it was mapped with.
pub proof fn lemma_map_translate(
    v: PtView,
    page: u64,
    frame: u64,
    flags: u64,
    size: PageSize,
    o4: Result<u64, FrameError>,
    o3: Result<u64, FrameError>,
    o2: Result<u64, FrameError>,
    addr: u64,
)
    requires
        leveled(v),
        page as int % page_bytes(size) == 0,
        page <= addr < page + page_bytes(size),
        frame as int % page_bytes(size) == 0,
        frame <= ADDR_MASK,
        (flags & PRESENT) != 0,
        map_spec(v, page, frame, flags, size, o4, o3, o2).1 is Ok,
    ensures
        resolve(map_spec(v, page, frame, flags, size, o4, o3, o2).0, addr) == Ok::<Translation, FrameError>(
            Translation {
                addr: (frame + (addr - page)) as u64,
                offset: (addr - page) as u64,
                flags: leaf_flags(flags, size) & !ADDR_MASK,
            },
        ),
{
    let w = map_spec(v, page, frame, flags, size, o4, o3, o2).0;
    let e = make_entry(frame, leaf_flags(flags, size));
    match size {
        PageSize::Page4Kb => {},
        PageSize::Page2Mb => {
            vstd::arithmetic::div_mod::lemma_mod_mod(frame as int, 4096, 512);
        },
        PageSize::Page1Gb => {
            vstd::arithmetic::div_mod::lemma_mod_mod(frame as int, 4096, 0x40000);
        },
    }
    assert(frame % 4096 == 0);
    lemma_entry_bits(frame, leaf_flags(flags, size), 0);
    lemma_entry_bits(0, flags, 0);
    lemma_same_page(page, addr, size);
    assert(table_index(addr, 4) == table_index(page, 4));
    assert(table_index(addr, 3) == table_index(page, 3));
    let root = v.root;
    let (i4, i3, i2, i1) = (table_index(page, 4), table_index(page, 3), table_index(page, 2), table_index(page, 1));
    lemma_descend(v, root, 4, i4, o4);
    let (v3, r3) = descend_spec(v, root, 4, i4, o4);
    let t3 = r3->Ok_0;
    assert(v3.lv[root] == 4);
    if size == PageSize::Page1Gb {
        assert(w == set_entry(v3, t3, i3, e));
        assert(w.mem[root] == v3.mem[root]);
    } else {
        lemma_descend(v3, t3, 3, i3, o3);
        let (v2, r2) = descend_spec(v3, t3, 3, i3, o3);
        let t2 = r2->Ok_0;
        assert(table_index(addr, 2) == table_index(page, 2));
        assert(v2.lv[root] == 4 && v2.lv[t3] == 3);
        assert(v2.mem[root] == v3.mem[root]);
        if size == PageSize::Page2Mb {
            assert(w == set_entry(v2, t2, i2, e));
            assert(w.mem[root] == v2.mem[root]);
            assert(w.mem[t3] == v2.mem[t3]);
        } else {
            lemma_descend(v2, t2, 2, i2, o2);
            let (v1, r1) = descend_spec(v2, t2, 2, i2, o2);
            let t1 = r1->Ok_0;
            assert(table_index(addr, 1) == table_index(page, 1));
            assert(v1.lv[root] == 4 && v1.lv[t3] == 3 && v1.lv[t2] == 2);
            assert(v1.mem[root] == v2.mem[root]);
            assert(v1.mem[t3] == v2.mem[t3]);
            assert(w == set_entry(v1, t1, i1, e));
            assert(w.mem[root] == v1.mem[root]);
            assert(w.mem[t3] == v1.mem[t3]);
            assert(w.mem[t2] == v1.mem[t2]);
        }
    }
}

proof fn lemma_leaf_path(v: PtView, page: u64, size: PageSize)
    requires
        leveled(v),
        leaf_table(v, page, size) is Ok,
    ensures
        ({
            let t = leaf_table(v, page, size)->Ok_0;
            &&& v.mem.dom().contains(t)
            &&& v.lv[t] == leaf_level(size)
            &&& links(4, v.mem[v.root][table_index(page, 4)])
            &&& size != PageSize::Page1Gb ==> links(3, v.mem[addr_of(v.mem[v.root][table_index(page, 4)])][table_index(
                page,
                3,
            )])
            &&& size == PageSize::Page4Kb ==> links(
                2,
                v.mem[addr_of(v.mem[addr_of(v.mem[v.root][table_index(page, 4)])][table_index(page, 3)])][table_index(
                    page,
                    2,
                )],
            )
        }),
{
    let e4 = v.mem[v.root][table_index(page, 4)];
    assert(links(4, e4));
    if size != PageSize::Page1Gb {
        let e3 = v.mem[addr_of(e4)][table_index(page, 3)];
        assert(links(3, e3));
        if size == PageSize::Page4Kb {
            let e2 = v.mem[addr_of(e3)][table_index(page, 2)];
            assert(links(2, e2));
        }
    }
}

/// Once a page is unmapped, no address in it lands anywhere.
pub proof fn lemma_unmap_translate(v: PtView, page: u64, size: PageSize, addr: u64)
    requires
        leveled(v),
        page as int % page_bytes(size) == 0,
        page <= addr < page + page_bytes(size),
        unmap_spec(v, page, size).1 is Ok,
    ensures
        resolve(unmap_spec(v, page, size).0, addr) == Err::<Translation, FrameError>(FrameError::EntryMissing),
{
    let w = unmap_spec(v, page, size).0;
    lemma_entry_bits(0, 0, 0);
    lemma_same_page(page, addr, size);
    assert(table_index(addr, 4) == table_index(page, 4));
    assert(table_index(addr, 3) == table_index(page, 3));
    lemma_leaf_path(v, page, size);
    let t = leaf_table(v, page, size)->Ok_0;
    let root = v.root;
    let t3 = addr_of(v.mem[root][table_index(page, 4)]);
    assert(w.mem[root] == v.mem[root]);
    if size != PageSize::Page1Gb {
        assert(table_index(addr, 2) == table_index(page, 2));
        assert(w.mem[t3] == v.mem[t3]);
        if size == PageSize::Page4Kb {
            assert(table_index(addr, 1) == table_index(page, 1));
            let t2 = addr_of(v.mem[t3][table_index(page, 3)]);
            assert(w.mem[t2] == v.mem[t2]);
        }
    }
}

/// Once a page is given new flags that keep it present, every address in
/// it lands where it did before, at the same offset, with the new flags.
pub proof fn lemma_update_flags_translate(v: PtView, page: u64, flags: u64, size: PageSize, addr: u64)
    requires
        leveled(v),
        page as int % page_bytes(size) == 0,
        page <= addr < page + page_bytes(size),
        (flags & PRESENT) != 0,
        update_flags_spec(v, page, flags, size).1 is Ok,
    ensures
        resolve(update_flags_spec(v, page, flags, size).0, addr) == Ok::<Translation, FrameError>(
            Translation {
                addr: (addr_of(leaf_entry(v, page, size)) + (addr - page)) as u64,
                offset: (addr - page) as u64,
                flags: leaf_flags(flags, size) & !ADDR_MASK,
            },
        ),
{
    let w = update_flags_spec(v, page, flags, size).0;
    let old_e = leaf_entry(v, page, size);
    lemma_entry_bits(0, 0, old_e);
    lemma_entry_bits(addr_of(old_e), leaf_flags(flags, size), 0);
    lemma_entry_bits(0, flags, 0);
    lemma_same_page(page, addr, size);
    assert(table_index(addr, 4) == table_index(page, 4));
    assert(table_index(addr, 3) == table_index(page, 3));
    lemma_leaf_path(v, page, size);
    let root = v.root;
    let t3 = addr_of(v.mem[root][table_index(page, 4)]);
    assert(w.mem[root] == v.mem[root]);
    if size != PageSize::Page1Gb {
        assert(table_index(addr, 2) == table_index(page, 2));
        assert(w.mem[t3] == v.mem[t3]);
        if size == PageSize::Page4Kb {
            assert(table_index(addr, 1) == table_index(page, 1));
            let t2 = addr_of(v.mem[t3][table_index(page, 3)]);
            assert(w.mem[t2] == v.mem[t2]);
        }
    }
}

/// Mapping a page, whether it succeeds or not, keeps the tables a hierarchy.
pub proof fn lemma_map_leveled(
    v: PtView,
    page: u64,
    frame: u64,
    flags: u64,
    size: PageSize,
    o4: Result<u64, FrameError>,
    o3: Result<u64, FrameError>,
    o2: Result<u64, FrameError>,
)
    requires
        leveled(v),
    ensures
        leveled(map_spec(v, page, frame, flags, size, o4, o3, o2).0),
{
    let e = make_entry(frame, leaf_flags(flags, size));
    lemma_entry_bits(frame, leaf_flags(flags, size), 0);
    lemma_entry_bits(0, flags, 0);
    let (i4, i3, i2, i1) = (table_index(page, 4), table_index(page, 3), table_index(page, 2), table_index(page, 1));
    lemma_descend(v, v.root, 4, i4, o4);
    let (v3, r3) = descend_spec(v, v.root, 4, i4, o4);
    if let Ok(t3) = r3 {
        if size == PageSize::Page1Gb {
            lemma_set_leaf(v3, t3, i3, e);
        } else {
            lemma_descend(v3, t3, 3, i3, o3);
            let (v2, r2) = descend_spec(v3, t3, 3, i3, o3);
            if let Ok(t2) = r2 {
                if size == PageSize::Page2Mb {
                    lemma_set_leaf(v2, t2, i2, e);
                } else {
                    lemma_descend(v2, t2, 2, i2, o2);
                    let (v1, r1) = descend_spec(v2, t2, 2, i2, o2);
                    if let Ok(t1) = r1 {
                        lemma_set_leaf(v1, t1, i1, e);
                    }
                }
            }
        }
    }
}

/// The address `a` lies in a page of 4 KiB that is present, with `flags`
/// as the flag bits of its entry.
pub open spec fn mapped_4k(v: PtView, a: u64, flags: u64) -> bool {
    let e4 = v.mem[v.root][table_index(a, 4)];
    let e3 = v.mem[addr_of(e4)][table_index(a, 3)];
    let e2 = v.mem[addr_of(e3)][table_index(a, 2)];
    let e1 = v.mem[addr_of(e2)][table_index(a, 1)];
    &&& links(4, e4)
    &&& links(3, e3)
    &&& links(2, e2)
    &&& present(e1)
    &&& flags_of(e1) == flags
}

/// An address in a present page of 4 KiB lands somewhere, with the flags
/// of the page.
pub proof fn lemma_mapped_4k_resolves(v: PtView, a: u64, flags: u64)
    requires
        mapped_4k(v, a, flags),
    ensures
        resolve(v, a) is Ok,
        resolve(v, a)->Ok_0.flags == flags,
{
}

proof fn lemma_descend_keeps_mapped(v: PtView, t: u64, level: int, i: int, o: Result<u64, FrameError>, a: u64, flags: u64)
    requires
        leveled(v),
        v.mem.dom().contains(t),
        v.lv[t] == level,
        2 <= level <= 4,
        0 <= i < 512,
        mapped_4k(v, a, flags),
    ensures
        mapped_4k(descend_spec(v, t, level, i, o).0, a, flags),
{
    lemma_descend(v, t, level, i, o);
    let w = descend_spec(v, t, level, i, o).0;
    let t3 = addr_of(v.mem[v.root][table_index(a, 4)]);
    let t2 = addr_of(v.mem[t3][table_index(a, 3)]);
    let t1 = addr_of(v.mem[t2][table_index(a, 2)]);
    assert(v.lv[t1] == 1);
    assert(w.mem[t1] == v.mem[t1]);
    if !present(v.mem[t][i]) {
        assert(w.mem[v.root][table_index(a, 4)] == v.mem[v.root][table_index(a, 4)]);
        assert(w.mem[t3][table_index(a, 3)] == v.mem[t3][table_index(a, 3)]);
        assert(w.mem[t2][table_index(a, 2)] == v.mem[t2][table_index(a, 2)]);
    }
}

proof fn lemma_leaf_keeps_mapped(v: PtView, t: u64, i: int, e: u64, a: u64, flags: u64)
    requires
        leveled(v),
        v.mem.dom().contains(t),
        v.lv[t] == 1,
        0 <= i < 512,
        present(e),
        flags_of(e) == flags,
        mapped_4k(v, a, flags),
    ensures
        mapped_4k(set_entry(v, t, i, e), a, flags),
{
    let w = set_entry(v, t, i, e);
    let t3 = addr_of(v.mem[v.root][table_index(a, 4)]);
    let t2 = addr_of(v.mem[t3][table_index(a, 3)]);
    assert(w.mem[v.root] == v.mem[v.root]);
    assert(w.mem[t3] == v.mem[t3]);
    assert(w.mem[t2] == v.mem[t2]);
}

/// Mapping a page of 4 KiB with `flags` leaves every address that lay in a
/// present page of 4 KiB with those flags in one still.
pub proof fn lemma_map_keeps_mapped(
    v: PtView,
    page: u64,
    frame: u64,
    flags: u64,
    o4: Result<u64, FrameError>,
    o3: Result<u64, FrameError>,
    o2: Result<u64, FrameError>,
    a: u64,
)
    requires
        leveled(v),
        (flags & PRESENT) != 0,
        mapped_4k(v, a, flags & !ADDR_MASK),
    ensures
        mapped_4k(map_spec(v, page, frame, flags, PageSize::Page4Kb, o4, o3, o2).0, a, flags & !ADDR_MASK),
{
    let fl = flags & !ADDR_MASK;
    let e = make_entry(frame, flags);
    lemma_entry_bits(frame, flags, 0);
    let (i4, i3, i2, i1) = (table_index(page, 4), table_index(page, 3), table_index(page, 2), table_index(page, 1));
    lemma_descend(v, v.root, 4, i4, o4);
    lemma_descend_keeps_mapped(v, v.root, 4, i4, o4, a, fl);
    let (v3, r3) = descend_spec(v, v.root, 4, i4, o4);
    if let Ok(t3) = r3 {
        lemma_descend(v3, t3, 3, i3, o3);
        lemma_descend_keeps_mapped(v3, t3, 3, i3, o3, a, fl);
        let (v2, r2) = descend_spec(v3, t3, 3, i3, o3);
        if let Ok(t2) = r2 {
            lemma_descend(v2, t2, 2, i2, o2);
            lemma_descend_keeps_mapped(v2, t2, 2, i2, o2, a, fl);
            let (v1, r1) = descend_spec(v2, t2, 2, i2, o2);
            if let Ok(t1) = r1 {
                lemma_leaf_keeps_mapped(v1, t1, i1, e, a, fl);
            }
        }
    }
}

/// Mapping a page of 4 KiB that succeeds leaves every address in it in a
/// present page of 4 KiB with the flags it was mapped with.
pub proof fn lemma_map_4k_mapped(
    v: PtView,
    page: u64,
    frame: u64,
    flags: u64,
    o4: Result<u64, FrameError>,
    o3: Result<u64, FrameError>,
    o2: Result<u64, FrameError>,
    a: u64,
)
    requires
        leveled(v),
        page % 4096 == 0,
        page <= a < page + 4096,
        (flags & PRESENT) != 0,
        map_spec(v, page, frame, flags, PageSize::Page4Kb, o4, o3, o2).1 is Ok,
    ensures
        mapped_4k(map_spec(v, page, frame, flags, PageSize::Page4Kb, o4, o3, o2).0, a, flags & !ADDR_MASK),
{
    let w = map_spec(v, page, frame, flags, PageSize::Page4Kb, o4, o3, o2).0;
    let e = make_entry(frame, flags);
    lemma_entry_bits(frame, flags, 0);
    lemma_same_page(page, a, PageSize::Page4Kb);
    assert(table_index(a, 4) == table_index(page, 4));
    assert(table_index(a, 3) == table_index(page, 3));
    assert(table_index(a, 2) == table_index(page, 2));
    assert(table_index(a, 1) == table_index(page, 1));
    let root = v.root;
    let (i4, i3, i2, i1) = (table_index(page, 4), table_index(page, 3), table_index(page, 2), table_index(page, 1));
    lemma_descend(v, root, 4, i4, o4);
    let (v3, r3) = descend_spec(v, root, 4, i4, o4);
    let t3 = r3->Ok_0;
    lemma_descend(v3, t3, 3, i3, o3);
    let (v2, r2) = descend_spec(v3, t3, 3, i3, o3);
    let t2 = r2->Ok_0;
    lemma_descend(v2, t2, 2, i2, o2);
    let (v1, r1) = descend_spec(v2, t2, 2, i2, o2);
    let t1 = r1->Ok_0;
    assert(v1.lv[root] == 4 && v1.lv[t3] == 3 && v1.lv[t2] == 2);
    assert(v1.mem[root] == v3.mem[root]);
    assert(v1.mem[t3] == v2.mem[t3]);
    assert(w == set_entry(v1, t1, i1, e));
    assert(w.mem[root] == v1.mem[root]);
    assert(w.mem[t3] == v1.mem[t3]);
    assert(w.mem[t2] == v1.mem[t2]);
}

/// Giving a page new flags keeps the tables a hierarchy.
pub proof fn lemma_update_flags_leveled(v: PtView, page: u64, flags: u64, size: PageSize)
    requires
        leveled(v),
    ensures
        leveled(update_flags_spec(v, page, flags, size).0),
{
    if leaf_table(v, page, size) is Ok {
        lemma_leaf_path(v, page, size);
        let e = make_entry(addr_of(leaf_entry(v, page, size)), leaf_flags(flags, size));
        lemma_entry_bits(addr_of(leaf_entry(v, page, size)), leaf_flags(flags, size), 0);
        lemma_entry_bits(0, flags, 0);
        lemma_set_leaf(v, leaf_table(v, page, size)->Ok_0, table_index(page, leaf_level(size)), e);
    }
}

/// Unmapping a page keeps the tables a hierarchy.
pub proof fn lemma_unmap_leveled(v: PtView, page: u64, size: PageSize)
    requires
        leveled(v),
    ensures
        leveled(unmap_spec(v, page, size).0),
{
    if leaf_table(v, page, size) is Ok {
        lemma_leaf_path(v, page, size);
        lemma_entry_bits(0, 0, 0);
        lemma_set_leaf(v, leaf_table(v, page, size)->Ok_0, table_index(page, leaf_level(size)), 0);
    }
}

proof fn lemma_mask_bits(fl: u64, mask: u64, e: u64)
    by (bit_vector)
    ensures
        (fl & mask) == 0 ==> ((fl & !0x000f_ffff_ffff_f000u64) & mask) == 0,
        ((e & !0x000f_ffff_ffff_f000u64) & 1u64) == e & 1u64,
{
}

/// Giving a page of 4 KiB new flags that keep it present and leave out the
/// bits of `mask` leaves every address that landed somewhere, without
/// those bits, landing somewhere without them.
pub proof fn lemma_update_keeps_clear(v: PtView, page: u64, flags: u64, mask: u64, addr: u64)
    requires
        leveled(v),
        (flags & PRESENT) != 0,
        (flags & mask) == 0,
        resolve(v, addr) is Ok,
        (resolve(v, addr)->Ok_0.flags & mask) == 0,
    ensures
        resolve(update_flags_spec(v, page, flags, PageSize::Page4Kb).0, addr) is Ok,
        (resolve(update_flags_spec(v, page, flags, PageSize::Page4Kb).0, addr)->Ok_0.flags & mask) == 0,
{
    let w = update_flags_spec(v, page, flags, PageSize::Page4Kb).0;
    if leaf_table(v, page, PageSize::Page4Kb) is Ok {
        lemma_leaf_path(v, page, PageSize::Page4Kb);
        let t = leaf_table(v, page, PageSize::Page4Kb)->Ok_0;
        let ne = make_entry(addr_of(leaf_entry(v, page, PageSize::Page4Kb)), flags);
        lemma_entry_bits(addr_of(leaf_entry(v, page, PageSize::Page4Kb)), flags, 0);
        lemma_mask_bits(flags, mask, 0);
        let root = v.root;
        let e4 = v.mem[root][table_index(addr, 4)];
        let t3 = addr_of(e4);
        assert(links(4, e4));
        assert(w.mem[root] == v.mem[root]);
        assert(w.mem[t3] == v.mem[t3]);
        let e3 = v.mem[t3][table_index(addr, 3)];
        if !huge(e3) {
            assert(links(3, e3));
            let t2 = addr_of(e3);
            assert(w.mem[t2] == v.mem[t2]);
            let e2 = v.mem[t2][table_index(addr, 2)];
            if !huge(e2) {
                assert(links(2, e2));
                let t1 = addr_of(e2);
                let i1 = table_index(addr, 1);
                if t1 == t && i1 == table_index(page, 1) {
                    assert(w.mem[t1][i1] == ne);
                } else {
                    assert(w.mem[t1][i1] == v.mem[t1][i1]);
                }
            }
        }
    }
}

/// An address that lands somewhere lands in a present page.
pub proof fn lemma_resolve_present(v: PtView, addr: u64)
    requires
        resolve(v, addr) is Ok,
    ensures
        (resolve(v, addr)->Ok_0.flags & PRESENT) != 0,
{
    let e4 = v.mem[v.root][table_index(addr, 4)];
    let e3 = v.mem[addr_of(e4)][table_index(addr, 3)];
    let e2 = v.mem[addr_of(e3)][table_index(addr, 2)];
    let e1 = v.mem[addr_of(e2)][table_index(addr, 1)];
    lemma_mask_bits(0, 0, e3);
    lemma_mask_bits(0, 0, e2);
    lemma_mask_bits(0, 0, e1);
}

/// A page mapper that reports each mapping it makes before handing it to
/// the mapper it wraps.
pub struct TracingMapper<M>(pub M);

impl<M> TracingMapper<M> {
    /// The mapper wrapped.
    pub fn inner(&mut self) -> (r: &mut M)
        ensures
            *r == old(self).0,
            final(self).0 == *final(r),
    {
        &mut self.0
    }

    /// Wraps `mapper`.
    pub fn from(mapper: M) -> (r: Self)
        ensures
            r.0 == mapper,
    {
        TracingMapper(mapper)
    }
}

impl TracingMapper<OffsetMapper> {
    /// `OffsetMapper::map` on the mapper wrapped.
    pub fn map<A: FrameAllocator>(
        &mut self,
        page: u64,
        frame: u64,
        flags: u64,
        size: PageSize,
        allocator: &mut A,
    ) -> (r: Result<(), FrameError>)
        requires
            old(self).0.wf(),
        ensures
            final(self).0.wf(),
            final(self).0.offset_spec() == old(self).0.offset_spec(),
            exists|o4: Result<u64, FrameError>, o3: Result<u64, FrameError>, o2: Result<u64, FrameError>|
                map_spec(old(self).0@, page, frame, flags, size, o4, o3, o2) == (final(self).0@, r),
    {
        self.0.map(page, frame, flags, size, allocator)
    }

    /// `OffsetMapper::update_flags` on the mapper wrapped.
    pub fn update_flags(&mut self, page: u64, flags: u64, size: PageSize) -> (r: Result<(), FrameError>)
        requires
            old(self).0.wf(),
        ensures
            final(self).0.wf(),
            final(self).0.offset_spec() == old(self).0.offset_spec(),
            (final(self).0@, r) == update_flags_spec(old(self).0@, page, flags, size),
    {
        self.0.update_flags(page, flags, size)
    }

    /// `OffsetMapper::unmap` on the mapper wrapped.
    pub fn unmap(&mut self, page: u64, size: PageSize) -> (r: Result<(), FrameError>)
        requires
            old(self).0.wf(),
        ensures
            final(self).0.wf(),
            final(self).0.offset_spec() == old(self).0.offset_spec(),
            (final(self).0@, r) == unmap_spec(old(self).0@, page, size),
    {
        self.0.unmap(page, size)
    }

    /// `OffsetMapper::try_translate` on the mapper wrapped.
    pub fn try_translate(&self, addr: u64) -> (r: Result<Translation, FrameError>)
        requires
            self.0.wf(),
        ensures
            r == resolve(self.0@, addr),
    {
        self.0.try_translate(addr)
    }
}

/// Hands out frames for new page tables; nothing is assumed of what it
/// hands out.
pub trait FrameAllocator {
    fn allocate_frame(&mut self) -> Result<u64, FrameError>;
}

/// Page tables held as plain values: the frame of each table, and the
/// entries of all tables one after the other, 512 to a table.
pub struct PageTables {
    frames: Vec<u64>,
    entries: Vec<u64>,
    root: u64,
    mem: Ghost<Map<u64, Seq<u64>>>,
    lv: Ghost<Map<u64, int>>,
}

impl View for PageTables {
    type V = PtView;

    closed spec fn view(&self) -> PtView {
        PtView { mem: self.mem@, lv: self.lv@, root: self.root }
    }
}

impl PageTables {
    pub closed spec fn inv(&self) -> bool {
        let n = self.frames@.len();
        &&& self.entries@.len() == 512 * n
        &&& forall|k: int|
            0 <= k < n ==> self.mem@.dom().contains(#[trigger] self.frames@[k]) && self.mem@[self.frames@[k]].len()
                == 512
        &&& forall|f: u64| #[trigger] self.mem@.dom().contains(f) ==> self.frames@.contains(f)
        &&& forall|k: int, l: int|
            0 <= k < n && 0 <= l < n && k != l ==> #[trigger] self.frames@[k] != #[trigger] self.frames@[l]
        &&& forall|k: int, j: int|
            0 <= k < n && 0 <= j < 512 ==> #[trigger] self.mem@[self.frames@[k]][j] == self.entries@[512 * k
                + j]
    }

    /// The tables are held consistently and form a hierarchy.
    pub open spec fn wf(&self) -> bool {
        self.inv() && leveled(self@)
    }

    /// Page tables made of one empty level 4 table, held in `root`.
    pub fn new(root: u64) -> (r: Self)
        ensures
            r.wf(),
            r@.root == root,
            r@.mem == Map::<u64, Seq<u64>>::empty().insert(root, empty_table()),
    {
        let mut t = PageTables {
            frames: Vec::new(),
            entries: Vec::new(),
            root,
            mem: Ghost(Map::empty()),
            lv: Ghost(Map::empty()),
        };
        t.add_table(root, Ghost(4));
        proof {
            assert(t.mem@[root] == empty_table());
            assert(t.mem@.dom() =~= set![root]);
            assert forall|f: u64| #[trigger] t.mem@.dom().contains(f) implies t.mem@[f].len() == 512 && 1 <= t.lv@[f]
                <= 4 by {
                assert(f == root);
            }
            assert forall|f: u64, i: int|
                t.mem@.dom().contains(f) && 0 <= i < 512 && links(t.lv@[f], #[trigger] t.mem@[f][i])
                implies t.mem@.dom().contains(addr_of(t.mem@[f][i])) && t.lv@[addr_of(t.mem@[f][i])] == t.lv@[f] - 1 by {
                lemma_entry_bits(0, 0, 0);
                assert(t.mem@[f][i] == 0);
            }
            assert(t.inv());
            assert(t@.mem.dom().contains(t@.root));
            assert(t@.lv[t@.root] == 4);
        }
        t
    }

    /// The frames that hold the tables.
    pub fn frames(&self) -> (r: &Vec<u64>)
        requires
            self.inv(),
        ensures
            forall|k: int| 0 <= k < r@.len() ==> self@.mem.dom().contains(#[trigger] r@[k]),
            forall|f: u64| #[trigger] self@.mem.dom().contains(f) ==> r@.contains(f),
    {
        &self.frames
    }

    /// Entry `i` of the table held in frame `t`.
    pub fn entry(&self, t: u64, i: usize) -> (r: u64)
        requires
            self.inv(),
            self@.mem.dom().contains(t),
            i < 512,
        ensures
            r == self@.mem[t][i as int],
    {
        self.read(t, i)
    }

    /// The frame of the level 4 table.
    pub fn root(&self) -> (r: u64)
        ensures
            r == self@.root,
    {
        self.root
    }

    fn find(&self, f: u64) -> (r: Option<usize>)
        requires
            self.inv(),
        ensures
            match r {
                Some(k) => k < self.frames@.len() && self.frames@[k as int] == f,
                None => !self.mem@.dom().contains(f),
            },
    {
        let mut k: usize = 0;
        while k < self.frames.len()
            invariant
                k <= self.frames@.len(),
                forall|j: int| 0 <= j < k ==> self.frames@[j] != f,
            decreases self.frames@.len() - k,
        {
            if self.frames[k] == f {
                return Some(k);
            }
            k += 1;
        }
        proof {
            if self.mem@.dom().contains(f) {
                assert(self.frames@.contains(f));
            }
        }
        None
    }

    /// Entry `i` of the table held in frame `t`.
    fn read(&self, t: u64, i: usize) -> (r: u64)
        requires
            self.inv(),
            self.mem@.dom().contains(t),
            i < 512,
        ensures
            r == self.mem@[t][i as int],
    {
        match self.find(t) {
            Some(k) => {
                assert(self.mem@[self.frames@[k as int]][i as int] == self.entries@[512 * k + i]);
                assert(512 * k + i < 512 * self.frames@.len());
                let len = self.entries.len();
                assert(512 * k + i < len);
                self.entries[512 * k + i]
            },
            None => 0,
        }
    }

    /// Sets entry `i` of the table held in frame `t`.
    fn write(&mut self, t: u64, i: usize, e: u64)
        requires
            old(self).inv(),
            old(self).mem@.dom().contains(t),
            i < 512,
        ensures
            final(self).inv(),
            final(self)@ == set_entry(old(self)@, t, i as int, e),
    {
        let k = match self.find(t) {
            Some(k) => k,
            None => {
                return ;
            },
        };
        let ghost old_t = *self;
        assert(512 * k + i < 512 * self.frames@.len());
        let len = self.entries.len();
        assert(512 * k + i < len);
        self.entries.set(512 * k + i, e);
        self.mem = Ghost(self.mem@.insert(t, self.mem@[t].update(i as int, e)));
        proof {
            let n = self.frames@.len();
            assert forall|a: int, j: int| 0 <= a < n && 0 <= j < 512 implies #[trigger] self.mem@[self.frames@[a]][j]
                == self.entries@[512 * a + j] by {
                assert(old_t.mem@[old_t.frames@[a]][j] == old_t.entries@[512 * a + j]);
                if a != k {
                    assert(self.frames@[a] != self.frames@[k as int]);
                    assert(512 * a + j != 512 * k + i);
                }
            }
            assert forall|f: u64| #[trigger] self.mem@.dom().contains(f) implies self.frames@.contains(f) by {
                assert(old_t.mem@.dom().contains(f));
            }
            assert(self@ =~= set_entry(old_t@, t, i as int, e));
        }
    }

    /// Holds a new table of zero entries in frame `g`, at `level`.
    fn add_table(&mut self, g: u64, level: Ghost<int>)
        requires
            old(self).inv(),
            !old(self).mem@.dom().contains(g),
        ensures
            final(self).inv(),
            final(self)@ == (PtView {
                mem: old(self)@.mem.insert(g, empty_table()),
                lv: old(self)@.lv.insert(g, level@),
                root: old(self)@.root,
            }),
    {
        let ghost old_t = *self;
        let mut z: Vec<u64> = vec![0u64; 512];
        assert(forall|j: int| 0 <= j < 512 ==> z@[j] == 0u64);
        self.frames.push(g);
        self.entries.append(&mut z);
        self.mem = Ghost(self.mem@.insert(g, empty_table()));
        self.lv = Ghost(self.lv@.insert(g, level@));
        proof {
            let n = old_t.frames@.len();
            assert forall|a: int, j: int| 0 <= a < n + 1 && 0 <= j < 512 implies #[trigger] self.mem@[self.frames@[a]][j]
                == self.entries@[512 * a + j] by {
                if a < n {
                    assert(old_t.mem@[old_t.frames@[a]][j] == old_t.entries@[512 * a + j]);
                    assert(self.frames@[a] == old_t.frames@[a]);
                    assert(old_t.frames@[a] != g);
                } else {
                    assert(self.frames@[a] == g);
                }
            }
            assert forall|f: u64| #[trigger] self.mem@.dom().contains(f) implies self.frames@.contains(f) by {
                if f == g {
                    assert(self.frames@[n as int] == g);
                } else {
                    assert(old_t.mem@.dom().contains(f));
                    let k = choose|k: int| 0 <= k < n && old_t.frames@[k] == f;
                    assert(self.frames@[k] == f);
                }
            }
            assert forall|k: int| 0 <= k < n + 1 implies self.mem@.dom().contains(#[trigger] self.frames@[k]) by {
                if k < n {
                    assert(old_t.mem@.dom().contains(old_t.frames@[k]));
                }
            }
            assert forall|k: int, l: int| 0 <= k < n + 1 && 0 <= l < n + 1 && k != l implies #[trigger] self.frames@[k]
                != #[trigger] self.frames@[l] by {
                if k < n && l < n {
                    assert(old_t.frames@[k] != old_t.frames@[l]);
                } else if k < n {
                    assert(old_t.mem@.dom().contains(old_t.frames@[k]));
                } else {
                    assert(old_t.mem@.dom().contains(old_t.frames@[l]));
                }
            }
        }
    }

    /// The table that entry `i` of table `t`, of `level`, links.
    fn walk(&self, t: u64, level: u8, i: usize) -> (r: Result<u64, FrameError>)
        requires
            self.wf(),
            self@.mem.dom().contains(t),
            self@.lv[t] == level as int,
            2 <= level <= 4,
            i < 512,
        ensures
            r == walk_spec(self@, t, level as int, i as int),
            r is Ok ==> self@.mem.dom().contains(r->Ok_0) && self@.lv[r->Ok_0] == level - 1,
    {
        let e = self.read(t, i);
        proof {
            lemma_entry_bits(0, 0, e);
        }
        if (e & PRESENT) == 0 {
            Err(FrameError::EntryMissing)
        } else if level == 4 || (e & HUGE) == 0 {
            assert(links(level as int, self@.mem[t][i as int]));
            Ok(e & ADDR_MASK)
        } else {
            Err(FrameError::HugePage)
        }
    }

    /// The table that entry `i` of table `t`, of `level`, links; where the
    /// entry is not present, a table is made in a frame from `allocator`.
    fn descend<A: FrameAllocator>(&mut self, t: u64, level: u8, i: usize, allocator: &mut A) -> (r: Result<
        u64,
        FrameError,
    >)
        requires
            old(self).wf(),
            old(self)@.mem.dom().contains(t),
            old(self)@.lv[t] == level as int,
            2 <= level <= 4,
            i < 512,
        ensures
            final(self).wf(),
            exists|o: Result<u64, FrameError>| descend_spec(old(self)@, t, level as int, i as int, o) == (final(self)@, r),
    {
        let ghost v = self@;
        proof {
            lemma_descend(v, t, level as int, i as int, Err(FrameError::Alloc));
        }
        let e = self.read(t, i);
        proof {
            lemma_entry_bits(0, 0, e);
        }
        if (e & PRESENT) != 0 {
            let r = if level == 4 || (e & HUGE) == 0 {
                Ok(e & ADDR_MASK)
            } else {
                Err(FrameError::HugePage)
            };
            assert(descend_spec(v, t, level as int, i as int, Err(FrameError::Alloc)) == (self@, r));
            return r;
        }
        let out = allocator.allocate_frame();
        proof {
            lemma_descend(v, t, level as int, i as int, out);
        }
        match out {
            Err(x) => {
                assert(descend_spec(v, t, level as int, i as int, out) == (self@, Err::<u64, FrameError>(x)));
                Err(x)
            },
            Ok(g) => {
                if g % 4096 == 0 && g <= ADDR_MASK && self.find(g).is_none() {
                    self.add_table(g, Ghost(level - 1));
                    let entry = make_entry_exec(g, TABLE_FLAGS);
                    self.write(t, i, entry);
                    assert(self@ =~= descend_spec(v, t, level as int, i as int, out).0);
                    Ok(g)
                } else {
                    assert(descend_spec(v, t, level as int, i as int, out) == (self@, Err::<u64, FrameError>(FrameError::Alloc)));
                    Err(FrameError::Alloc)
                }
            },
        }
    }
}

/// The entry with `frame` as address and the flag bits of `flags`.
pub fn make_entry_exec(frame: u64, flags: u64) -> (r: u64)
    ensures
        r == make_entry(frame, flags),
{
    (frame & ADDR_MASK) | (flags & !ADDR_MASK)
}

proof fn lemma_descend(v: PtView, t: u64, level: int, i: int, o: Result<u64, FrameError>)
    requires
        leveled(v),
        v.mem.dom().contains(t),
        v.lv[t] == level,
        2 <= level <= 4,
        0 <= i < 512,
    ensures
        ({
            let (w, r) = descend_spec(v, t, level, i, o);
            &&& leveled(w)
            &&& w.root == v.root
            &&& forall|f: u64| #[trigger]
                v.mem.dom().contains(f) ==> w.mem.dom().contains(f) && w.lv[f] == v.lv[f] && (f != t
                    ==> w.mem[f] == v.mem[f])
            &&& r is Ok ==> links(level, w.mem[t][i]) && addr_of(w.mem[t][i]) == r->Ok_0
                && w.mem.dom().contains(r->Ok_0) && w.lv[r->Ok_0] == level - 1
            &&& r is Err ==> w == v
            &&& present(v.mem[t][i]) ==> w == v
            &&& w.mem[t] == v.mem[t].update(i, w.mem[t][i])
        }),
{
    assert(v.mem[t].update(i, v.mem[t][i]) =~= v.mem[t]);
    let e = v.mem[t][i];
    if !present(e) {
        if let Ok(g) = o {
            if usable(v, g) {
                let (w, r) = descend_spec(v, t, level, i, o);
                let ne = make_entry(g, 7);
                lemma_entry_bits(g, 7, 0);
                assert(w.mem[t][i] == ne);
                assert(links(level, ne));
                assert forall|f: u64| #[trigger] w.mem.dom().contains(f) implies w.mem[f].len() == 512 && 1 <= w.lv[f]
                    <= 4 by {
                    if f != g && f != t {
                        assert(v.mem.dom().contains(f));
                    }
                }
                assert forall|f: u64, j: int|
                    w.mem.dom().contains(f) && 0 <= j < 512 && links(w.lv[f], #[trigger] w.mem[f][j]) implies w.mem.dom().contains(
                    addr_of(w.mem[f][j])) && w.lv[addr_of(w.mem[f][j])] == w.lv[f] - 1 by {
                    if f == g {
                        lemma_entry_bits(0, 0, 0);
                        assert(w.mem[f][j] == 0);
                    } else if f == t && j == i {
                    } else {
                        assert(v.mem.dom().contains(f));
                        assert(w.mem[f][j] == v.mem[f][j]);
                        assert(links(v.lv[f], v.mem[f][j]));
                        assert(addr_of(v.mem[f][j]) != g);
                    }
                }
            }
        }
    }
}


proof fn lemma_set_leaf(v: PtView, t: u64, i: int, e: u64)
    requires
        leveled(v),
        v.mem.dom().contains(t),
        0 <= i < 512,
        !links(v.lv[t], e),
    ensures
        leveled(set_entry(v, t, i, e)),
{
    let w = set_entry(v, t, i, e);
    assert forall|f: u64| #[trigger] w.mem.dom().contains(f) implies w.mem[f].len() == 512 && 1 <= w.lv[f] <= 4 by {
        assert(v.mem.dom().contains(f));
    }
    assert forall|f: u64, j: int|
        w.mem.dom().contains(f) && 0 <= j < 512 && links(w.lv[f], #[trigger] w.mem[f][j]) implies w.mem.dom().contains(
        addr_of(w.mem[f][j])) && w.lv[addr_of(w.mem[f][j])] == w.lv[f] - 1 by {
        if !(f == t && j == i) {
            assert(w.mem[f][j] == v.mem[f][j]);
        }
    }
}

/// The level of the table whose entry maps a page of `size`.
fn leaf_level_exec(size: PageSize) -> (r: u8)
    ensures
        r == leaf_level(size),
{
    match size {
        PageSize::Page4Kb => 1,
        PageSize::Page2Mb => 2,
        PageSize::Page1Gb => 3,
    }
}

/// The flags written into the entry that maps a page of `size`.
fn leaf_flags_exec(flags: u64, size: PageSize) -> (r: u64)
    ensures
        r == leaf_flags(flags, size),
{
    match size {
        PageSize::Page4Kb => flags,
        _ => flags | HUGE,
    }
}

/// A page mapper over page tables whose frames are reached at a fixed
/// offset in virtual memory.
pub struct OffsetMapper {
    offset: u64,
    tables: PageTables,
}

impl View for OffsetMapper {
    type V = PtView;

    closed spec fn view(&self) -> PtView {
        self.tables@
    }
}

impl OffsetMapper {
    pub closed spec fn held(&self) -> bool {
        self.tables.inv()
    }

    pub closed spec fn offset_spec(&self) -> u64 {
        self.offset
    }

    /// The tables are held consistently and form a hierarchy.
    pub open spec fn wf(&self) -> bool {
        self.held() && leveled(self@)
    }

    /// A mapper over `tables`, whose frames are reached at `offset`.
    pub fn new(offset: u64, tables: PageTables) -> (r: Self)
        requires
            tables.wf(),
        ensures
            r.wf(),
            r@ == tables@,
            r.offset_spec() == offset,
    {
        OffsetMapper { offset, tables }
    }

    /// The offset at which the frames of the tables are reached.
    pub fn offset(&self) -> (r: u64)
        ensures
            r == self.offset_spec(),
    {
        self.offset
    }

    /// The tables.
    pub fn tables(&self) -> (r: &PageTables)
        ensures
            r@ == self@,
            self.wf() ==> r.wf(),
    {
        &self.tables
    }

    /// Where the virtual address `addr` lands.
    pub fn try_translate(&self, addr: u64) -> (r: Result<Translation, FrameError>)
        requires
            self.wf(),
        ensures
            r == resolve(self@, addr),
    {
        let root = self.tables.root();
        let t3 = match self.tables.walk(root, 4, index_at(addr, 4)) {
            Ok(t) => t,
            Err(x) => {
                return Err(x);
            },
        };
        let e3 = self.tables.read(t3, index_at(addr, 3));
        proof {
            lemma_entry_bits(0, 0, e3);
        }
        if (e3 & PRESENT) == 0 {
            return Err(FrameError::EntryMissing);
        }
        if (e3 & HUGE) != 0 {
            let off = addr % 0x4000_0000;
            return Ok(Translation { addr: (e3 & ADDR_MASK) + off, offset: off, flags: e3 & !ADDR_MASK });
        }
        assert(links(3, e3));
        let t2 = e3 & ADDR_MASK;
        let e2 = self.tables.read(t2, index_at(addr, 2));
        proof {
            lemma_entry_bits(0, 0, e2);
        }
        if (e2 & PRESENT) == 0 {
            return Err(FrameError::EntryMissing);
        }
        if (e2 & HUGE) != 0 {
            let off = addr % 0x20_0000;
            return Ok(Translation { addr: (e2 & ADDR_MASK) + off, offset: off, flags: e2 & !ADDR_MASK });
        }
        assert(links(2, e2));
        let t1 = e2 & ADDR_MASK;
        let e1 = self.tables.read(t1, index_at(addr, 1));
        proof {
            lemma_entry_bits(0, 0, e1);
        }
        if (e1 & PRESENT) == 0 {
            return Err(FrameError::EntryMissing);
        }
        let off = addr % 0x1000;
        Ok(Translation { addr: (e1 & ADDR_MASK) + off, offset: off, flags: e1 & !ADDR_MASK })
    }

    /// The table that holds the entry mapping the page of `size` at `page`.
    fn leaf_table_exec(&self, page: u64, size: PageSize) -> (r: Result<u64, FrameError>)
        requires
            self.wf(),
        ensures
            r == leaf_table(self@, page, size),
            r is Ok ==> self@.mem.dom().contains(r->Ok_0) && self@.lv[r->Ok_0] == leaf_level(size),
    {
        let root = self.tables.root();
        let t3 = match self.tables.walk(root, 4, index_at(page, 4)) {
            Ok(t) => t,
            Err(x) => {
                return Err(x);
            },
        };
        if size == PageSize::Page1Gb {
            return Ok(t3);
        }
        let t2 = match self.tables.walk(t3, 3, index_at(page, 3)) {
            Ok(t) => t,
            Err(x) => {
                return Err(x);
            },
        };
        if size == PageSize::Page2Mb {
            return Ok(t2);
        }
        self.tables.walk(t2, 2, index_at(page, 2))
    }

    /// Gives the entry that maps the page of `size` at `page` the flags
    /// `flags`; its address stays. The tables on the way must be there.
    pub fn update_flags(&mut self, page: u64, flags: u64, size: PageSize) -> (r: Result<(), FrameError>)
        requires
            old(self).wf(),
        ensures
            final(self).wf(),
            final(self).offset_spec() == old(self).offset_spec(),
            (final(self)@, r) == update_flags_spec(old(self)@, page, flags, size),
    {
        let t = match self.leaf_table_exec(page, size) {
            Ok(t) => t,
            Err(x) => {
                return Err(x);
            },
        };
        let i = index_at(page, leaf_level_exec(size));
        let e = self.tables.read(t, i);
        let fl = leaf_flags_exec(flags, size);
        let ne = make_entry_exec(e & ADDR_MASK, fl);
        proof {
            lemma_entry_bits(e & ADDR_MASK, fl, 0);
            lemma_entry_bits(0, flags, 0);
            lemma_set_leaf(self@, t, i as int, ne);
        }
        self.tables.write(t, i, ne);
        Ok(())
    }

    /// Clears the entry that maps the page of `size` at `page`. The tables
    /// on the way must be there.
    pub fn unmap(&mut self, page: u64, size: PageSize) -> (r: Result<(), FrameError>)
        requires
            old(self).wf(),
        ensures
            final(self).wf(),
            final(self).offset_spec() == old(self).offset_spec(),
            (final(self)@, r) == unmap_spec(old(self)@, page, size),
    {
        let t = match self.leaf_table_exec(page, size) {
            Ok(t) => t,
            Err(x) => {
                return Err(x);
            },
        };
        let i = index_at(page, leaf_level_exec(size));
        proof {
            lemma_entry_bits(0, 0, 0);
            lemma_set_leaf(self@, t, i as int, 0);
        }
        self.tables.write(t, i, 0);
        Ok(())
    }

    /// Maps the page of `size` at `page` to `frame` with `flags`. The tables
    /// on the way are made where missing, in frames from `allocator`; a frame
    /// it hands out that is not aligned to 4 KiB, lies above the physical
    /// address bits or already holds a table is refused with
    /// `FrameError::Alloc`.
    pub fn map<A: FrameAllocator>(
        &mut self,
        page: u64,
        frame: u64,
        flags: u64,
        size: PageSize,
        allocator: &mut A,
    ) -> (r: Result<(), FrameError>)
        requires
            old(self).wf(),
        ensures
            final(self).wf(),
            final(self).offset_spec() == old(self).offset_spec(),
            exists|o4: Result<u64, FrameError>, o3: Result<u64, FrameError>, o2: Result<u64, FrameError>|
                map_spec(old(self)@, page, frame, flags, size, o4, o3, o2) == (final(self)@, r),
    {
        let ghost v = self@;
        let ghost alt = Err::<u64, FrameError>(FrameError::Alloc);
        let fl = leaf_flags_exec(flags, size);
        let e = make_entry_exec(frame, fl);
        proof {
            lemma_entry_bits(frame, fl, 0);
            lemma_entry_bits(0, flags, 0);
        }
        let root = self.tables.root();
        let i4 = index_at(page, 4);
        let r3 = self.tables.descend(root, 4, i4, allocator);
        let ghost v3 = self@;
        let ghost o4 = choose|o: Result<u64, FrameError>| descend_spec(v, root, 4, i4 as int, o) == (v3, r3);
        proof {
            lemma_descend(v, root, 4, i4 as int, o4);
        }
        let t3 = match r3 {
            Ok(t) => t,
            Err(x) => {
                assert(map_spec(v, page, frame, flags, size, o4, alt, alt) == (self@, Err::<(), FrameError>(x)));
                return Err(x);
            },
        };
        let i3 = index_at(page, 3);
        if size == PageSize::Page1Gb {
            proof {
                lemma_set_leaf(v3, t3, i3 as int, e);
            }
            self.tables.write(t3, i3, e);
            assert(map_spec(v, page, frame, flags, size, o4, alt, alt) == (self@, Ok::<(), FrameError>(())));
            return Ok(());
        }
        let r2 = self.tables.descend(t3, 3, i3, allocator);
        let ghost v2 = self@;
        let ghost o3 = choose|o: Result<u64, FrameError>| descend_spec(v3, t3, 3, i3 as int, o) == (v2, r2);
        proof {
            lemma_descend(v3, t3, 3, i3 as int, o3);
        }
        let t2 = match r2 {
            Ok(t) => t,
            Err(x) => {
                assert(map_spec(v, page, frame, flags, size, o4, o3, alt) == (self@, Err::<(), FrameError>(x)));
                return Err(x);
            },
        };
        let i2 = index_at(page, 2);
        if size == PageSize::Page2Mb {
            proof {
                lemma_set_leaf(v2, t2, i2 as int, e);
            }
            self.tables.write(t2, i2, e);
            assert(map_spec(v, page, frame, flags, size, o4, o3, alt) == (self@, Ok::<(), FrameError>(())));
            return Ok(());
        }
        let r1 = self.tables.descend(t2, 2, i2, allocator);
        let ghost v1 = self@;
        let ghost o2 = choose|o: Result<u64, FrameError>| descend_spec(v2, t2, 2, i2 as int, o) == (v1, r1);
        proof {
            lemma_descend(v2, t2, 2, i2 as int, o2);
        }
        let t1 = match r1 {
            Ok(t) => t,
            Err(x) => {
                assert(map_spec(v, page, frame, flags, size, o4, o3, o2) == (self@, Err::<(), FrameError>(x)));
                return Err(x);
            },
        };
        let i1 = index_at(page, 1);
        proof {
            lemma_set_leaf(v1, t1, i1 as int, e);
        }
        self.tables.write(t1, i1, e);
        assert(map_spec(v, page, frame, flags, size, o4, o3, o2) == (self@, Ok::<(), FrameError>(())));
        Ok(())
    }
}

} // verus!
