//! What the bootloader reads of the kernel's ELF file, read with `xmas_elf`.
use vstd::prelude::*;
use xmas_elf::dynamic::Tag;
use xmas_elf::program::{SegmentData, Type};

verus! {

/// The kind of a program header, as far as loading cares.
#[derive(Clone, Copy, PartialEq, Eq, Structural, Debug)]
pub enum SegmentKind {
    Load,
    Tls,
    Dynamic,
    /// Any other valid kind; such segments are skipped.
    Other,
}

/// A program header of the kernel's ELF file.
#[derive(Clone, Copy, Debug)]
pub struct Segment {
    /// Its kind, or why its type field is invalid.
    pub kind: Result<SegmentKind, &'static str>,
    /// Its memory is writable.
    pub writable: bool,
    /// Offset of its bytes in the file.
    pub offset: u64,
    /// Virtual address of its memory.
    pub virtual_addr: u64,
    /// Bytes of it in the file.
    pub file_size: u64,
    /// Bytes of it in memory.
    pub mem_size: u64,
    /// The outcome of the header's sanity check.
    pub sane: Result<(), &'static str>,
}

/// The kind of an ELF file, as far as booting cares.
#[derive(Clone, Copy, PartialEq, Eq, Structural, Debug)]
pub enum ElfType {
    Executable,
    SharedObject,
    /// Any other kind of file.
    Other,
}

/// The file header of the kernel's ELF file.
#[derive(Clone, Copy, Debug)]
pub struct ElfHeader {
    /// The outcome of the header's sanity check.
    pub sane: Result<(), &'static str>,
    /// The kind of file.
    pub kind: ElfType,
    /// The entry point.
    pub entry_point: u64,
}

/// The tag of an entry of a dynamic segment, as far as relocation cares.
#[derive(Clone, Copy, PartialEq, Eq, Structural, Debug)]
pub enum DynTag {
    Rela,
    RelaSize,
    RelaEnt,
    /// Any other valid tag.
    Other,
}

/// An entry of a dynamic segment: its tag and its field read as a value and
/// as a pointer, each or why it cannot be.
#[derive(Clone, Copy, Debug)]
pub struct DynEntry {
    pub tag: Result<DynTag, &'static str>,
    pub val: Result<u64, &'static str>,
    pub ptr: Result<u64, &'static str>,
}

/// The file header `xmas_elf` reads from `bytes`.
pub uninterp spec fn elf_header(bytes: Seq<u8>) -> Result<ElfHeader, &'static str>;

/// How many program headers the file header of `bytes` announces, as
/// `xmas_elf` reads it.
pub uninterp spec fn elf_ph_count(bytes: Seq<u8>) -> Result<u16, &'static str>;

/// What `xmas_elf` reads of the program header of index `index` of `bytes`.
pub uninterp spec fn elf_ph(bytes: Seq<u8>, index: int) -> Result<PhFields, &'static str>;

/// The outcome of `xmas_elf`'s sanity check of the program header of index
/// `index` of `bytes`.
pub uninterp spec fn elf_ph_sanity(bytes: Seq<u8>, index: int) -> Result<(), &'static str>;

/// The program header of index `index` that `xmas_elf` reads from `bytes`,
/// with the outcome of its sanity check.
pub open spec fn elf_segment(bytes: Seq<u8>, index: int) -> Result<Segment, &'static str> {
    match elf_ph(bytes, index) {
        Ok(f) => Ok(Segment {
            kind: f.0,
            writable: f.1,
            offset: f.2,
            virtual_addr: f.3,
            file_size: f.4,
            mem_size: f.5,
            sane: elf_ph_sanity(bytes, index),
        }),
        Err(e) => Err(e),
    }
}

/// How many entries the data of the program header of index `index` holds,
/// as `xmas_elf` reads it; `None` when that data is not that of a 64-bit
/// dynamic segment.
pub uninterp spec fn elf_dynamic_len(bytes: Seq<u8>, index: int) -> Result<Option<usize>, &'static str>;

/// Entry `k` of the data of the program header of index `index`, as
/// `xmas_elf` reads it; `None` when that data is not that of a 64-bit
/// dynamic segment or holds no entry `k`.
pub uninterp spec fn elf_dynamic_entry(bytes: Seq<u8>, index: int, k: int) -> Result<Option<DynEntry>, &'static str>;

/// The little-endian integer of two bytes at `at`. The fields below are read
/// as `xmas_elf` reads them on a little-endian machine, which this library
/// targets.
pub open spec fn le16(b: Seq<u8>, at: int) -> int {
    b[at] + 256 * b[at + 1]
}

/// The little-endian integer of four bytes at `at`.
pub open spec fn le32(b: Seq<u8>, at: int) -> int {
    le16(b, at) + 0x10000 * le16(b, at + 2)
}

/// The little-endian integer of eight bytes at `at`.
pub open spec fn le64(b: Seq<u8>, at: int) -> int {
    le32(b, at) + 0x1_0000_0000 * le32(b, at + 4)
}

/// The file's class byte says 64 bits.
pub open spec fn is64(b: Seq<u8>) -> bool {
    b[4] == 2
}

/// Size of the class-dependent part of the file header.
pub open spec fn pt2_size(b: Seq<u8>) -> int {
    if is64(b) { 48 } else { 36 }
}

/// `ElfFile::new` finds a file header in `b`: the magic number, a class of
/// 32 or 64 bits, and room for the whole header.
pub open spec fn hdr_parses(b: Seq<u8>) -> bool {
    &&& b.len() >= 16
    &&& b[0] == 0x7f && b[1] == 0x45 && b[2] == 0x4c && b[3] == 0x46
    &&& (b[4] == 1 || b[4] == 2)
    &&& b.len() >= 16 + pt2_size(b)
}

/// Offset of the program header table.
pub open spec fn ph_offset(b: Seq<u8>) -> int {
    if is64(b) { le64(b, 32) } else { le32(b, 28) }
}

/// Offset of the section header table.
pub open spec fn sh_offset(b: Seq<u8>) -> int {
    if is64(b) { le64(b, 40) } else { le32(b, 32) }
}

/// The header size the file header announces.
pub open spec fn header_size(b: Seq<u8>) -> int {
    if is64(b) { le16(b, 52) } else { le16(b, 40) }
}

/// Size of an entry of the program header table.
pub open spec fn ph_entry_size(b: Seq<u8>) -> int {
    if is64(b) { le16(b, 54) } else { le16(b, 42) }
}

/// Number of program headers.
pub open spec fn ph_count(b: Seq<u8>) -> int {
    if is64(b) { le16(b, 56) } else { le16(b, 44) }
}

/// Size of an entry of the section header table.
pub open spec fn sh_entry_size(b: Seq<u8>) -> int {
    if is64(b) { le16(b, 58) } else { le16(b, 46) }
}

/// Number of section headers.
pub open spec fn sh_count(b: Seq<u8>) -> int {
    if is64(b) { le16(b, 60) } else { le16(b, 48) }
}

/// The entry point.
pub open spec fn entry_field(b: Seq<u8>) -> int {
    if is64(b) { le64(b, 24) } else { le32(b, 24) }
}

/// The file type the header's type field gives.
pub open spec fn type_kind(t: int) -> ElfType {
    if t == 2 {
        ElfType::Executable
    } else if t == 3 {
        ElfType::SharedObject
    } else {
        ElfType::Other
    }
}

/// `header::sanity_check` cannot overflow: where it gets as far as adding
/// up the extent of a header table of a 64-bit file, that sum fits in 64 bits.
pub open spec fn header_safe(b: Seq<u8>) -> bool {
    hdr_parses(b) && is64(b) && header_size(b) == 16 + pt2_size(b) && b[6] != 0 && b[5] != 0 ==> {
        let ph_end = ph_offset(b) + ph_entry_size(b) * ph_count(b);
        &&& ph_end <= u64::MAX
        &&& ph_end <= b.len() ==> sh_offset(b) + sh_entry_size(b) * sh_count(b) <= u64::MAX
    }
}

/// The file header announces a program header table.
pub open spec fn ph_table(b: Seq<u8>) -> bool {
    ph_offset(b) > 0 && ph_entry_size(b) > 0
}

/// The file header announces a program header table with an entry of
/// index `i`.
pub open spec fn ph_exists(b: Seq<u8>, i: int) -> bool {
    hdr_parses(b) && ph_table(b) && 0 <= i < ph_count(b)
}

/// Size of a program header of the file's class.
pub open spec fn ph_size(b: Seq<u8>) -> int {
    if is64(b) { 56 } else { 32 }
}

/// Where the program header of index `i` starts.
pub open spec fn ph_at(b: Seq<u8>, i: int) -> int {
    ph_offset(b) + i * ph_entry_size(b)
}

/// The type field of the program header of index `i`.
pub open spec fn seg_type(b: Seq<u8>, i: int) -> int {
    le32(b, ph_at(b, i))
}

/// The offset field of the program header of index `i`.
pub open spec fn seg_offset(b: Seq<u8>, i: int) -> int {
    if is64(b) { le64(b, ph_at(b, i) + 8) } else { le32(b, ph_at(b, i) + 4) }
}

/// The file size field of the program header of index `i`.
pub open spec fn seg_file_size(b: Seq<u8>, i: int) -> int {
    if is64(b) { le64(b, ph_at(b, i) + 32) } else { le32(b, ph_at(b, i) + 16) }
}

/// The largest value of a field of the file's class.
pub open spec fn word_max(b: Seq<u8>) -> int {
    if is64(b) { u64::MAX as int } else { u32::MAX as int }
}

/// The alignment of a program header or of a dynamic entry of the file's
/// class in memory: that of its widest field.
pub open spec fn word_align(b: Seq<u8>) -> int {
    if is64(b) { 8 } else { 4 }
}

/// Size of an entry of a dynamic segment of the file's class.
pub open spec fn dyn_entry_size(b: Seq<u8>) -> int {
    if is64(b) { 16 } else { 8 }
}

/// The program header of index `i` can be read without a panic: it lies
/// inside the file at an offset aligned for it, its entry is large enough
/// for a program header, and `program::sanity_check` cannot overflow adding
/// its offset and file size.
pub open spec fn ph_sound(b: Seq<u8>, i: int) -> bool {
    &&& ph_offset(b) + (i + 1) * ph_entry_size(b) <= b.len()
    &&& ph_at(b, i) % word_align(b) == 0
    &&& ph_entry_size(b) >= ph_size(b)
    &&& ph_entry_size(b) == ph_size(b) ==> seg_offset(b, i) + seg_file_size(b, i) <= word_max(b)
}

/// Every program header that `program_header` reads can be read without a
/// panic.
pub open spec fn segments_safe(b: Seq<u8>) -> bool {
    hdr_parses(b) && ph_table(b) ==> forall|i: int| 0 <= i < ph_count(b) ==> #[trigger] ph_sound(b, i)
}

/// `get_data` on the program header of index `i` does not panic: for a
/// valid type other than the null one its bytes lie inside the file, a
/// dynamic segment holds whole entries and starts aligned for them, and a
/// note is that of a 64-bit file with room for its header, which starts
/// 4-aligned.
pub open spec fn seg_data_safe(b: Seq<u8>, i: int) -> bool {
    let t = seg_type(b, i);
    let end = seg_offset(b, i) + seg_file_size(b, i);
    ((1 <= t <= 7 || 0x6000_0000 <= t <= 0x7fff_ffff) ==> end <= b.len() && end <= word_max(b))
        && (t == 2 ==> seg_file_size(b, i) % dyn_entry_size(b) == 0 && seg_offset(b, i) % word_align(b) == 0)
        && (t == 4 ==> is64(b) && seg_file_size(b, i) >= 12 && seg_offset(b, i) % 4 == 0)
}

/// The data of every dynamic segment can be read without a panic.
pub open spec fn dynamics_safe(b: Seq<u8>) -> bool {
    hdr_parses(b) && ph_table(b) ==> forall|i: int|
        0 <= i < ph_count(b) && #[trigger] seg_type(b, i) == 2 ==> seg_data_safe(b, i)
}

/// Every reader of this module can read `b` without a panic, as far as the
/// bytes decide it.
pub open spec fn elf_safe(b: Seq<u8>) -> bool {
    header_safe(b) && segments_safe(b) && dynamics_safe(b)
}

/// The segment is a valid dynamic one.
pub open spec fn is_dynamic(s: Segment) -> bool {
    s.kind == Ok::<SegmentKind, &'static str>(SegmentKind::Dynamic)
}

/// The segments `v`, read from `b`, are its program headers of index 0 up,
/// and a segment is dynamic exactly where its type field is 2.
pub open spec fn kinds_match(b: Seq<u8>, v: Seq<Segment>) -> bool {
    forall|j: int| 0 <= j < v.len() ==> {
        &&& ph_exists(b, j)
        &&& (is_dynamic(#[trigger] v[j]) <==> seg_type(b, j) == 2)
    }
}

/// The little-endian integer of the two bytes at `at`.
fn read_le16(bytes: &[u8], at: usize) -> (r: u16)
    requires
        at + 2 <= bytes.len(),
    ensures
        r == le16(bytes@, at as int),
{
    bytes[at] as u16 + 256 * (bytes[at + 1] as u16)
}

/// The little-endian integer of the four bytes at `at`.
fn read_le32(bytes: &[u8], at: usize) -> (r: u32)
    requires
        at + 4 <= bytes.len(),
    ensures
        r == le32(bytes@, at as int),
{
    let lo = read_le16(bytes, at) as u32;
    let hi = read_le16(bytes, at + 2) as u32;
    lo + 0x10000 * hi
}

/// The little-endian integer of the eight bytes at `at`.
fn read_le64(bytes: &[u8], at: usize) -> (r: u64)
    requires
        at + 8 <= bytes.len(),
    ensures
        r == le64(bytes@, at as int),
{
    let lo = read_le32(bytes, at) as u64;
    let hi = read_le32(bytes, at + 4) as u64;
    lo + 0x1_0000_0000 * hi
}

/// Whether `ElfFile::new` finds a file header in `bytes`.
fn header_parses(bytes: &[u8]) -> (r: bool)
    ensures
        r == hdr_parses(bytes@),
{
    if bytes.len() < 16 {
        return false;
    }
    if bytes[0] != 0x7f || bytes[1] != 0x45 || bytes[2] != 0x4c || bytes[3] != 0x46 {
        return false;
    }
    if bytes[4] == 2 {
        bytes.len() >= 64
    } else if bytes[4] == 1 {
        bytes.len() >= 52
    } else {
        false
    }
}

/// Whether the program header of index `i` can be read without a panic and,
/// if it is that of a dynamic segment, so can its data.
fn ph_checks(bytes: &[u8], wide: bool, ph_off: u64, pes: u16, i: u16) -> (r: bool)
    requires
        hdr_parses(bytes@),
        wide == is64(bytes@),
        ph_off == ph_offset(bytes@),
        pes == ph_entry_size(bytes@),
    ensures
        r == (ph_sound(bytes@, i as int) && (seg_type(bytes@, i as int) == 2 ==> seg_data_safe(bytes@, i as int))),
{
    let ghost b = bytes@;
    let len = bytes.len() as u64;
    let es = pes as u64;
    assert((i as u64 + 1) * es <= 0x1_0000_0000) by (nonlinear_arith)
        requires
            i < 0x10000,
            es < 0x10000,
    ;
    let ext: u64 = (i as u64 + 1) * es;
    if ph_off > len || ext > len - ph_off {
        return false;
    }
    let phs: u64 = if wide { 56 } else { 32 };
    if es < phs {
        return false;
    }
    assert(i as u64 * es + es == ext) by (nonlinear_arith)
        requires
            ext == (i as u64 + 1) * es,
    ;
    let p64: u64 = ph_off + i as u64 * es;
    assert(p64 == ph_at(b, i as int));
    let al: u64 = if wide { 8 } else { 4 };
    if p64 % al != 0 {
        return false;
    }
    let p = p64 as usize;
    let off: u64 = if wide { read_le64(bytes, p + 8) } else { read_le32(bytes, p + 4) as u64 };
    let fs: u64 = if wide { read_le64(bytes, p + 32) } else { read_le32(bytes, p + 16) as u64 };
    let wmax: u64 = if wide { u64::MAX } else { 0xffff_ffff };
    assert(off == seg_offset(b, i as int) && fs == seg_file_size(b, i as int) && wmax == word_max(b));
    if es == phs && fs > wmax - off {
        return false;
    }
    let t = read_le32(bytes, p);
    assert(t == seg_type(b, i as int));
    if t == 2 {
        if fs > wmax - off || off + fs > len {
            return false;
        }
        let d: u64 = if wide { 16 } else { 8 };
        if fs % d != 0 || off % al != 0 {
            return false;
        }
    }
    true
}

/// Whether every reader of this module can read `bytes` without a panic, as
/// far as the bytes decide it.
pub fn check_elf(bytes: &[u8]) -> (r: bool)
    ensures
        r == elf_safe(bytes@),
{
    let ghost b = bytes@;
    if !header_parses(bytes) {
        return true;
    }
    let wide = bytes[4] == 2;
    let len = bytes.len() as u64;
    let ph_off: u64 = if wide { read_le64(bytes, 32) } else { read_le32(bytes, 28) as u64 };
    let sh_off: u64 = if wide { read_le64(bytes, 40) } else { read_le32(bytes, 32) as u64 };
    let hs = if wide { read_le16(bytes, 52) } else { read_le16(bytes, 40) };
    let pes = if wide { read_le16(bytes, 54) } else { read_le16(bytes, 42) };
    let pcnt = if wide { read_le16(bytes, 56) } else { read_le16(bytes, 44) };
    let ses = if wide { read_le16(bytes, 58) } else { read_le16(bytes, 46) };
    let scnt = if wide { read_le16(bytes, 60) } else { read_le16(bytes, 48) };
    assert(ph_off == ph_offset(b) && sh_off == sh_offset(b) && hs == header_size(b));
    assert(pes == ph_entry_size(b) && pcnt == ph_count(b) && ses == sh_entry_size(b) && scnt == sh_count(b));
    if wide && hs == 64 && bytes[6] != 0 && bytes[5] != 0 {
        assert(pes as u64 * pcnt as u64 <= 0x1_0000_0000) by (nonlinear_arith)
            requires
                pes < 0x10000,
                pcnt < 0x10000,
        ;
        let ph_ext: u64 = pes as u64 * pcnt as u64;
        if ph_off > u64::MAX - ph_ext {
            return false;
        }
        if ph_off + ph_ext <= len {
            assert(ses as u64 * scnt as u64 <= 0x1_0000_0000) by (nonlinear_arith)
                requires
                    ses < 0x10000,
                    scnt < 0x10000,
            ;
            let sh_ext: u64 = ses as u64 * scnt as u64;
            if sh_off > u64::MAX - sh_ext {
                return false;
            }
        }
    }
    assert(header_safe(b));
    if !(ph_off > 0 && pes > 0) {
        return true;
    }
    let mut i: u16 = 0;
    while i < pcnt
        invariant
            b == bytes@,
            hdr_parses(b),
            ph_table(b),
            wide == is64(b),
            ph_off == ph_offset(b),
            pes == ph_entry_size(b),
            pcnt == ph_count(b),
            i <= pcnt,
            forall|j: int|
                0 <= j < i ==> #[trigger] ph_sound(b, j) && (seg_type(b, j) == 2 ==> seg_data_safe(b, j)),
        decreases pcnt - i,
    {
        if !ph_checks(bytes, wide, ph_off, pes, i) {
            proof {
                assert(!segments_safe(b) || !dynamics_safe(b)) by {
                    if segments_safe(b) {
                        assert(ph_sound(b, i as int));
                    }
                }
            }
            return false;
        }
        i = i + 1;
    }
    proof {
        assert forall|j: int| 0 <= j < ph_count(b) implies #[trigger] ph_sound(b, j) by {
            assert(ph_sound(b, j));
        }
        assert forall|j: int| 0 <= j < ph_count(b) && #[trigger] seg_type(b, j) == 2 implies seg_data_safe(b, j) by {
            assert(ph_sound(b, j));
        }
    }
    true
}

/// The program headers from index `i` up to `n`, up to the first one that
/// cannot be read.
pub open spec fn segments_from(bytes: Seq<u8>, i: int, n: int) -> Seq<Segment>
    decreases n - i,
{
    if i >= n {
        Seq::empty()
    } else {
        match elf_segment(bytes, i) {
            Ok(s) => seq![s] + segments_from(bytes, i + 1, n),
            Err(_) => Seq::empty(),
        }
    }
}

/// The program headers of `bytes`, in order, up to the first one that
/// cannot be read.
pub open spec fn elf_segments(bytes: Seq<u8>) -> Result<Seq<Segment>, &'static str> {
    match elf_ph_count(bytes) {
        Ok(n) => Ok(segments_from(bytes, 0, n as int)),
        Err(e) => Err(e),
    }
}

/// The entries from `k` up to `n` of the dynamic segment of index `index`:
/// the first error met, or the entries up to the first one missing.
pub open spec fn dynamic_from(bytes: Seq<u8>, index: int, k: int, n: int) -> Result<Seq<DynEntry>, &'static str>
    decreases n - k,
{
    if k >= n {
        Ok(Seq::empty())
    } else {
        match elf_dynamic_entry(bytes, index, k) {
            Ok(Some(e)) => match dynamic_from(bytes, index, k + 1, n) {
                Ok(rest) => Ok(seq![e] + rest),
                Err(x) => Err(x),
            },
            Ok(None) => Ok(Seq::empty()),
            Err(x) => Err(x),
        }
    }
}

/// The entries of the dynamic segment of index `index` of `bytes`; `None`
/// when its data is not that of a 64-bit dynamic segment.
pub open spec fn elf_dynamic(bytes: Seq<u8>, index: int) -> Result<Option<Seq<DynEntry>>, &'static str> {
    match elf_dynamic_len(bytes, index) {
        Ok(Some(n)) => match dynamic_from(bytes, index, 0, n as int) {
            Ok(v) => Ok(Some(v)),
            Err(e) => Err(e),
        },
        Ok(None) => Ok(None),
        Err(e) => Err(e),
    }
}

/// `ptr::align_offset` on the start of `buf`: how many bytes on from it the
/// first 8-aligned address lies. On a byte pointer, at run time, that is
/// always possible, so it is below 8. Not stated: that the place it points
/// to is 8-aligned, a fact about addresses.
#[verifier::external_body]
fn align_offset8(buf: &Vec<u8>) -> (r: usize)
    ensures
        r < 8,
{
    buf.as_ptr().align_offset(8)
}

/// The bytes of a file, copied to a place in memory that is 8-aligned, so
/// that what `zero::read` asserts of the alignment of what `xmas_elf`
/// reads is decided by the offsets inside the file alone. Only
/// [`AlignedBytes::new`] makes one, and nothing changes it after.
pub struct AlignedBytes {
    buf: Vec<u8>,
    at: usize,
    len: usize,
}

impl AlignedBytes {
    /// The bytes held.
    pub closed spec fn bytes(&self) -> Seq<u8> {
        self.buf@.subrange(self.at as int, self.at + self.len)
    }

    /// A copy of `bytes`, moved up to the first 8-aligned place of its
    /// buffer.
    pub fn new(bytes: &[u8]) -> (r: Self)
        ensures
            r.bytes() == bytes@,
    {
        let n = bytes.len();
        let mut buf: Vec<u8> = Vec::new();
        let mut i: usize = 0;
        while i < n
            invariant
                n == bytes@.len(),
                i <= n,
                buf@ == bytes@.take(i as int),
            decreases n - i,
        {
            buf.push(bytes[i]);
            proof {
                assert(buf@ =~= bytes@.take(i + 1));
            }
            i = i + 1;
        }
        let mut j: usize = 0;
        while j < 7
            invariant
                n == bytes@.len(),
                j <= 7,
                buf@.len() == n + j,
                buf@.take(n as int) == bytes@,
            decreases 7 - j,
        {
            buf.push(0u8);
            proof {
                assert(buf@.take(n as int) =~= bytes@);
            }
            j = j + 1;
        }
        let total = buf.len();
        let at = align_offset8(&buf);
        let mut k: usize = n;
        while k > 0
            invariant
                n == bytes@.len(),
                total == n + 7,
                at < 8,
                k <= n,
                buf@.len() == total,
                forall|m: int| 0 <= m < k ==> #[trigger] buf@[m] == bytes@[m],
                forall|m: int| k <= m < n ==> buf@[m + at] == #[trigger] bytes@[m],
            decreases k,
        {
            let x = buf[k - 1];
            buf.set(k - 1 + at, x);
            k = k - 1;
        }
        let r = AlignedBytes { buf, at, len: n };
        proof {
            assert(r.bytes() =~= bytes@);
        }
        r
    }
}

/// `xmas_elf::ElfFile::new` on the bytes of `a`, then `header::sanity_check`, the file
/// type and the entry point of its header. The result is named, as a
/// function of the bytes alone; stated of it: it is `Ok` exactly where
/// `ElfFile::new` finds a header, with the type and entry point that header
/// holds. `requires` leaves out the files on which the sanity check
/// overflows. `zero::read` asserts that what it reads is aligned in memory
/// for its type: `a` holds the bytes at an 8-aligned place, and the header
/// lies at offsets aligned for it.
#[verifier::external_body]
fn read_header(a: &AlignedBytes) -> (r: Result<ElfHeader, &'static str>)
    requires
        header_safe(a.bytes()),
    ensures
        r == elf_header(a.bytes()),
        r is Ok <==> hdr_parses(a.bytes()),
        r matches Ok(h) ==> h.kind == type_kind(le16(a.bytes(), 16)) && h.entry_point == entry_field(a.bytes()),
{
    let elf = xmas_elf::ElfFile::new(&a.buf[a.at..a.at + a.len])?;
    let kind = match elf.header.pt2.type_().as_type() {
        xmas_elf::header::Type::Executable => ElfType::Executable,
        xmas_elf::header::Type::SharedObject => ElfType::SharedObject,
        _ => ElfType::Other,
    };
    let sane = xmas_elf::header::sanity_check(&elf);
    Ok(ElfHeader { sane, kind, entry_point: elf.header.pt2.entry_point() })
}

/// The file header of `bytes`, as [`read_header`] reads it.
pub fn read_elf_header(bytes: &[u8]) -> (r: Result<ElfHeader, &'static str>)
    requires
        header_safe(bytes@),
    ensures
        r == elf_header(bytes@),
        r is Ok <==> hdr_parses(bytes@),
        r matches Ok(h) ==> h.kind == type_kind(le16(bytes@, 16)) && h.entry_point == entry_field(bytes@),
{
    let a = AlignedBytes::new(bytes);
    read_header(&a)
}

/// `xmas_elf::ElfFile::new` on the bytes of `a`, then `ph_count` of its header: `Ok`
/// with the count field exactly where a header is found; the error is
/// named, as a function of the bytes alone. The bytes are read from an
/// 8-aligned place of `a`, as in [`read_header`].
#[verifier::external_body]
fn read_ph_count(a: &AlignedBytes) -> (r: Result<u16, &'static str>)
    ensures
        r == elf_ph_count(a.bytes()),
        r is Ok <==> hdr_parses(a.bytes()),
        r matches Ok(n) ==> n == ph_count(a.bytes()),
{
    let elf = xmas_elf::ElfFile::new(&a.buf[a.at..a.at + a.len])?;
    Ok(elf.header.pt2.ph_count())
}

/// What `program_header(index)` gives of a program header: its type, write
/// flag, offset, virtual address, file size and memory size.
pub type PhFields = (Result<SegmentKind, &'static str>, bool, u64, u64, u64, u64);

/// The kind is that of a valid dynamic segment.
pub open spec fn is_dynamic_kind(k: Result<SegmentKind, &'static str>) -> bool {
    k == Ok::<SegmentKind, &'static str>(SegmentKind::Dynamic)
}

/// `xmas_elf::ElfFile::new` on the bytes of `a`, then
/// `program_header(index)`: its type, write flag, offset, virtual address
/// and sizes. The result is named, as a function of its arguments alone;
/// stated of it: it is `Ok` exactly where a header is found that announces
/// a program header table with an entry of this index, and the kind is
/// dynamic exactly where the type field is 2. `requires` leaves out the
/// files whose program headers lie outside the file, are too small or are
/// not aligned for their type, which `zero::read` asserts.
#[verifier::external_body]
fn read_ph(a: &AlignedBytes, index: u16) -> (r: Result<PhFields, &'static str>)
    requires
        segments_safe(a.bytes()),
    ensures
        r == elf_ph(a.bytes(), index as int),
        r is Ok <==> ph_exists(a.bytes(), index as int),
        r matches Ok(f) ==> (is_dynamic_kind(f.0) <==> seg_type(a.bytes(), index as int) == 2),
{
    let elf = xmas_elf::ElfFile::new(&a.buf[a.at..a.at + a.len])?;
    let ph = elf.program_header(index)?;
    let kind = match ph.get_type() {
        Ok(Type::Load) => Ok(SegmentKind::Load),
        Ok(Type::Tls) => Ok(SegmentKind::Tls),
        Ok(Type::Dynamic) => Ok(SegmentKind::Dynamic),
        Ok(_) => Ok(SegmentKind::Other),
        Err(e) => Err(e),
    };
    Ok((kind, ph.flags().is_write(), ph.offset(), ph.virtual_addr(), ph.file_size(), ph.mem_size()))
}

/// `xmas_elf::ElfFile::new` on the bytes of `a`, then
/// `program::sanity_check` of `program_header(index)`. The result is named,
/// as a function of its arguments alone. `requires` leaves out, besides the
/// files of [`read_ph`], those on which the check overflows adding offset
/// and file size.
#[verifier::external_body]
fn read_ph_sanity(a: &AlignedBytes, index: u16) -> (r: Result<(), &'static str>)
    requires
        segments_safe(a.bytes()),
    ensures
        r == elf_ph_sanity(a.bytes(), index as int),
{
    let elf = xmas_elf::ElfFile::new(&a.buf[a.at..a.at + a.len])?;
    xmas_elf::program::sanity_check(elf.program_header(index)?, &elf)
}

/// The program header of index `index`, with the outcome of its sanity
/// check.
fn read_segment(a: &AlignedBytes, index: u16) -> (r: Result<Segment, &'static str>)
    requires
        segments_safe(a.bytes()),
    ensures
        r == elf_segment(a.bytes(), index as int),
        r is Ok <==> ph_exists(a.bytes(), index as int),
        r matches Ok(s) ==> (is_dynamic(s) <==> seg_type(a.bytes(), index as int) == 2),
{
    let f = match read_ph(a, index) {
        Ok(f) => f,
        Err(e) => {
            return Err(e);
        },
    };
    let sane = read_ph_sanity(a, index);
    Ok(Segment { kind: f.0, writable: f.1, offset: f.2, virtual_addr: f.3, file_size: f.4, mem_size: f.5, sane })
}

/// The program headers of `bytes`, in order, as `program_iter` gives them:
/// it stops at the first one that cannot be read.
pub fn read_segments(bytes: &[u8]) -> (r: Result<Vec<Segment>, &'static str>)
    requires
        segments_safe(bytes@),
    ensures
        elf_segments(bytes@) == (match r {
            Ok(v) => Ok::<Seq<Segment>, &'static str>(v@),
            Err(e) => Err(e),
        }),
        r is Ok <==> hdr_parses(bytes@),
        r matches Ok(v) ==> kinds_match(bytes@, v@),
{
    let a = AlignedBytes::new(bytes);
    let n = match read_ph_count(&a) {
        Ok(n) => n,
        Err(e) => {
            return Err(e);
        },
    };
    let mut v: Vec<Segment> = Vec::new();
    let mut i: u16 = 0;
    while i < n
        invariant
            i <= n,
            a.bytes() == bytes@,
            elf_ph_count(bytes@) == Ok::<u16, &'static str>(n),
            segments_safe(bytes@),
            hdr_parses(bytes@),
            n == ph_count(bytes@),
            v.len() == i,
            kinds_match(bytes@, v@),
            v@ + segments_from(bytes@, i as int, n as int) == segments_from(bytes@, 0, n as int),
        decreases n - i,
    {
        match read_segment(&a, i) {
            Ok(s) => {
                proof {
                    assert(v@.push(s) + segments_from(bytes@, i + 1, n as int) =~= v@ + segments_from(bytes@, i as int, n as int));
                }
                v.push(s);
            },
            Err(_) => {
                proof {
                    assert(v@ + segments_from(bytes@, i as int, n as int) =~= v@);
                }
                return Ok(v);
            },
        }
        i = i + 1;
    }
    proof {
        assert(v@ + segments_from(bytes@, n as int, n as int) =~= v@);
    }
    Ok(v)
}

/// `xmas_elf::ElfFile::new` on the bytes of `a`, `program_header(index)` and its
/// `get_data`: the number of entries of a 64-bit dynamic segment, `None`
/// for other data. The result is named, as a function of its arguments
/// alone. `requires` leaves out the files on which reading the header or
/// the data panics, alignment included: `a` holds the bytes at an 8-aligned
/// place, so that the offsets inside the file decide it.
#[verifier::external_body]
fn read_dynamic_len(a: &AlignedBytes, index: u16) -> (r: Result<Option<usize>, &'static str>)
    requires
        segments_safe(a.bytes()),
        ph_exists(a.bytes(), index as int) ==> seg_data_safe(a.bytes(), index as int),
    ensures
        r == elf_dynamic_len(a.bytes(), index as int),
{
    let elf = xmas_elf::ElfFile::new(&a.buf[a.at..a.at + a.len])?;
    match elf.program_header(index)?.get_data(&elf)? {
        SegmentData::Dynamic64(data) => Ok(Some(data.len())),
        _ => Ok(None),
    }
}

/// `xmas_elf::ElfFile::new` on the bytes of `a`, `program_header(index)`, its
/// `get_data`, and of entry `k` of a 64-bit dynamic segment the tag and the
/// field read by `get_val` and `get_ptr`. The result is named, as a
/// function of its arguments alone. `requires` and what is not stated are
/// those of [`read_dynamic_len`].
#[verifier::external_body]
fn read_dynamic_entry(a: &AlignedBytes, index: u16, k: usize) -> (r: Result<Option<DynEntry>, &'static str>)
    requires
        segments_safe(a.bytes()),
        ph_exists(a.bytes(), index as int) ==> seg_data_safe(a.bytes(), index as int),
    ensures
        r == elf_dynamic_entry(a.bytes(), index as int, k as int),
{
    let elf = xmas_elf::ElfFile::new(&a.buf[a.at..a.at + a.len])?;
    let SegmentData::Dynamic64(data) = elf.program_header(index)?.get_data(&elf)? else { return Ok(None) };
    let Some(d) = data.get(k) else { return Ok(None) };
    let tag = match d.get_tag() {
        Ok(Tag::Rela) => Ok(DynTag::Rela),
        Ok(Tag::RelaSize) => Ok(DynTag::RelaSize),
        Ok(Tag::RelaEnt) => Ok(DynTag::RelaEnt),
        Ok(_) => Ok(DynTag::Other),
        Err(e) => Err(e),
    };
    Ok(Some(DynEntry { tag, val: d.get_val(), ptr: d.get_ptr() }))
}

/// The entries of the dynamic segment of index `index`, in order; `None`
/// when its data is not that of a 64-bit dynamic segment.
pub fn read_dynamic(bytes: &[u8], index: u16) -> (r: Result<Option<Vec<DynEntry>>, &'static str>)
    requires
        segments_safe(bytes@),
        ph_exists(bytes@, index as int) ==> seg_data_safe(bytes@, index as int),
    ensures
        elf_dynamic(bytes@, index as int) == (match r {
            Ok(Some(v)) => Ok::<Option<Seq<DynEntry>>, &'static str>(Some(v@)),
            Ok(None) => Ok(None),
            Err(e) => Err(e),
        }),
{
    let a = AlignedBytes::new(bytes);
    let n = match read_dynamic_len(&a, index) {
        Ok(Some(n)) => n,
        Ok(None) => {
            return Ok(None);
        },
        Err(e) => {
            return Err(e);
        },
    };
    let mut v: Vec<DynEntry> = Vec::new();
    let mut k: usize = 0;
    while k < n
        invariant
            k <= n,
            a.bytes() == bytes@,
            elf_dynamic_len(bytes@, index as int) == Ok::<Option<usize>, &'static str>(Some(n)),
            segments_safe(bytes@),
            ph_exists(bytes@, index as int) ==> seg_data_safe(bytes@, index as int),
            dynamic_from(bytes@, index as int, 0, n as int) == (match dynamic_from(bytes@, index as int, k as int, n as int) {
                Ok(rest) => Ok::<Seq<DynEntry>, &'static str>(v@ + rest),
                Err(x) => Err(x),
            }),
        decreases n - k,
    {
        match read_dynamic_entry(&a, index, k) {
            Ok(Some(e)) => {
                proof {
                    match dynamic_from(bytes@, index as int, k + 1, n as int) {
                        Ok(rest) => {
                            assert(v@.push(e) + rest =~= v@ + (seq![e] + rest));
                        },
                        Err(_) => {},
                    }
                }
                v.push(e);
            },
            Ok(None) => {
                proof {
                    assert(v@ + Seq::<DynEntry>::empty() =~= v@);
                }
                return Ok(Some(v));
            },
            Err(e) => {
                return Err(e);
            },
        }
        k = k + 1;
    }
    proof {
        assert(v@ + Seq::<DynEntry>::empty() =~= v@);
    }
    Ok(Some(v))
}

} // verus!
