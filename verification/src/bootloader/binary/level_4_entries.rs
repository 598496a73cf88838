//! The entries of the level 4 page table that the kernel's address space
//! uses, and free ones to map more data at.
use vstd::prelude::*;

use crate::addr::{frame_containing, VirtualAddr};
use crate::bootloader::binary::elf::Segment;

verus! {

/// Number of entries of a level 4 page table.
pub const ENTRIES: usize = 512;

/// The level 4 page table entry an address falls in.
pub open spec fn p4_index(addr: int) -> int {
    (addr / 0x80_0000_0000) % 512
}

/// Entry `i` covers part of `segment` loaded `offset` bytes up.
pub open spec fn covers(segment: Segment, offset: int, i: int) -> bool {
    let start = segment.virtual_addr + offset;
    p4_index(start) <= i <= p4_index(start + segment.mem_size)
}

/// Entry `i` is used once the first `n` segments are loaded: entry 0 always,
/// and every entry that covers part of a segment.
pub open spec fn used_by(segments: Seq<Segment>, n: int, offset: int, i: int) -> bool {
    i == 0 || exists|k: int| 0 <= k < n && #[trigger] covers(segments[k], offset, i)
}

/// The first unused entry.
pub open spec fn first_free(state: Seq<bool>) -> int {
    choose|i: int| 0 <= i < state.len() && !state[i] && forall|j: int| 0 <= j < i ==> state[j]
}

/// Keeps track of used entries in a level 4 page table.
pub struct UsedLevel4Entries {
    entry_state: Vec<bool>,
}

/// The level 4 page table entry of an address.
fn page_table_index(addr: u64) -> (r: usize)
    ensures
        r == p4_index(addr as int),
        r < 512,
{
    ((addr / 0x80_0000_0000) % 512) as usize
}

impl UsedLevel4Entries {
    /// Whether each entry is in use.
    pub closed spec fn state(&self) -> Seq<bool> {
        self.entry_state@
    }

    /// Marks entry 0 and the entries that the segments, loaded `offset`
    /// bytes up, cover as used.
    pub fn new(segments: &[Segment], virtual_address_offset: u64) -> (r: Self)
        requires
            forall|k: int|
                0 <= k < segments@.len() ==> #[trigger] segments@[k].virtual_addr + virtual_address_offset
                    + segments@[k].mem_size <= u64::MAX,
        ensures
            r.state().len() == 512,
            forall|i: int| 0 <= i < 512 ==> #[trigger] r.state()[i] == used_by(segments@, segments@.len() as int, virtual_address_offset as int, i),
    {
        let mut state: Vec<bool> = Vec::new();
        let mut k: usize = 0;
        while k < ENTRIES
            invariant
                k <= 512,
                state@.len() == k,
                forall|i: int| 0 <= i < k ==> !#[trigger] state@[i],
            decreases 512 - k,
        {
            state.push(false);
            k = k + 1;
        }
        state.set(0, true);
        let mut n: usize = 0;
        while n < segments.len()
            invariant
                n <= segments@.len(),
                state@.len() == 512,
                forall|k: int|
                    0 <= k < segments@.len() ==> #[trigger] segments@[k].virtual_addr + virtual_address_offset
                        + segments@[k].mem_size <= u64::MAX,
                forall|i: int| 0 <= i < 512 ==> #[trigger] state@[i] == used_by(segments@, n as int, virtual_address_offset as int, i),
            decreases segments@.len() - n,
        {
            let segment = segments[n];
            let start = frame_containing(segment.virtual_addr + virtual_address_offset);
            let end = frame_containing(segment.virtual_addr + virtual_address_offset + segment.mem_size);
            let p4_start = page_table_index(start);
            let p4_end = page_table_index(end);
            proof {
                lemma_p4_of_floor((segment.virtual_addr + virtual_address_offset) as int);
                lemma_p4_of_floor((segment.virtual_addr + virtual_address_offset + segment.mem_size) as int);
            }
            let mut p = p4_start;
            while p <= p4_end
                invariant
                    n < segments@.len(),
                    segment == segments@[n as int],
                    p4_start == p4_index(segment.virtual_addr + virtual_address_offset),
                    p4_end == p4_index(segment.virtual_addr + virtual_address_offset + segment.mem_size),
                    p4_end < 512,
                    p4_start <= p,
                    state@.len() == 512,
                    forall|i: int|
                        0 <= i < 512 ==> #[trigger] state@[i] == (used_by(segments@, n as int, virtual_address_offset as int, i)
                            || (p4_start <= i < p && covers(segment, virtual_address_offset as int, i))),
                decreases p4_end + 1 - p,
            {
                state.set(p, true);
                p = p + 1;
            }
            proof {
                assert forall|i: int| 0 <= i < 512 implies #[trigger] state@[i] == used_by(
                    segments@,
                    n + 1,
                    virtual_address_offset as int,
                    i,
                ) by {
                    if covers(segments@[n as int], virtual_address_offset as int, i) {
                        assert(0 <= n < n + 1);
                    }
                    if used_by(segments@, n + 1, virtual_address_offset as int, i) && i != 0 {
                        let k = choose|k: int| 0 <= k < n + 1 && #[trigger] covers(segments@[k], virtual_address_offset as int, i);
                        if k < n {
                            assert(used_by(segments@, n as int, virtual_address_offset as int, i));
                        }
                    }
                }
            }
            n = n + 1;
        }
        UsedLevel4Entries { entry_state: state }
    }

    /// Marks the entries that the segments, loaded `offset` bytes up, cover
    /// as used.
    pub fn mark_segments(&mut self, segments: &[Segment], offset: u64)
        requires
            old(self).state().len() == 512,
            forall|k: int|
                0 <= k < segments@.len() ==> #[trigger] segments@[k].virtual_addr + offset + segments@[k].mem_size <= u64::MAX,
        ensures
            final(self).state().len() == 512,
            forall|i: int| 0 <= i < 512 ==> #[trigger] final(self).state()[i] == (old(self).state()[i]
                || exists|k: int| 0 <= k < segments@.len() && #[trigger] covers(segments@[k], offset as int, i)),
    {
        let mut n: usize = 0;
        while n < segments.len()
            invariant
                n <= segments@.len(),
                self.entry_state@.len() == 512,
                forall|k: int|
                    0 <= k < segments@.len() ==> #[trigger] segments@[k].virtual_addr + offset + segments@[k].mem_size <= u64::MAX,
                forall|i: int| 0 <= i < 512 ==> #[trigger] self.entry_state@[i] == (old(self).state()[i]
                    || exists|k: int| 0 <= k < n && #[trigger] covers(segments@[k], offset as int, i)),
            decreases segments@.len() - n,
        {
            let segment = segments[n];
            let start = frame_containing(segment.virtual_addr + offset);
            let end = frame_containing(segment.virtual_addr + offset + segment.mem_size);
            let p4_start = page_table_index(start);
            let p4_end = page_table_index(end);
            proof {
                lemma_p4_of_floor((segment.virtual_addr + offset) as int);
                lemma_p4_of_floor((segment.virtual_addr + offset + segment.mem_size) as int);
            }
            let mut p = p4_start;
            while p <= p4_end
                invariant
                    n < segments@.len(),
                    segment == segments@[n as int],
                    p4_start == p4_index(segment.virtual_addr + offset),
                    p4_end == p4_index(segment.virtual_addr + offset + segment.mem_size),
                    p4_end < 512,
                    p4_start <= p,
                    self.entry_state@.len() == 512,
                    forall|i: int| 0 <= i < 512 ==> #[trigger] self.entry_state@[i] == ((old(self).state()[i]
                        || exists|k: int| 0 <= k < n && #[trigger] covers(segments@[k], offset as int, i))
                        || (p4_start <= i < p && covers(segment, offset as int, i))),
                decreases p4_end + 1 - p,
            {
                self.entry_state.set(p, true);
                p = p + 1;
            }
            proof {
                assert forall|i: int| 0 <= i < 512 implies #[trigger] self.entry_state@[i] == (old(self).state()[i]
                    || exists|k: int| 0 <= k < n + 1 && #[trigger] covers(segments@[k], offset as int, i)) by {
                    if covers(segments@[n as int], offset as int, i) {
                        assert(0 <= n < n + 1);
                    }
                    if exists|k: int| 0 <= k < n + 1 && #[trigger] covers(segments@[k], offset as int, i) {
                        let k = choose|k: int| 0 <= k < n + 1 && #[trigger] covers(segments@[k], offset as int, i);
                        if k < n {
                            assert(exists|k: int| 0 <= k < n && #[trigger] covers(segments@[k], offset as int, i));
                        }
                    }
                }
            }
            n = n + 1;
        }
    }

    /// Whether there are the 512 entries of a table and one of them is
    /// unused.
    pub fn has_free_entry(&self) -> (r: bool)
        ensures
            r == (self.state().len() == 512 && exists|i: int| 0 <= i < 512 && !#[trigger] self.state()[i]),
    {
        if self.entry_state.len() != ENTRIES {
            return false;
        }
        let mut i: usize = 0;
        while i < ENTRIES
            invariant
                self.state().len() == 512,
                i <= 512,
                forall|j: int| 0 <= j < i ==> self.state()[j],
            decreases 512 - i,
        {
            if !self.entry_state[i] {
                assert(!self.state()[i as int]);
                return true;
            }
            i = i + 1;
        }
        false
    }

    /// Returns the first unused entry and marks it as used, so that several
    /// calls give several entries.
    pub fn get_free_entry(&mut self) -> (r: u16)
        requires
            old(self).state().len() == 512,
            exists|i: int| 0 <= i < 512 && !#[trigger] old(self).state()[i],
        ensures
            r == first_free(old(self).state()),
            r < 512,
            final(self).state() == old(self).state().update(r as int, true),
    {
        let mut i: usize = 0;
        while i < ENTRIES
            invariant
                self.state().len() == 512,
                self == old(self),
                i <= 512,
                forall|j: int| 0 <= j < i ==> self.state()[j],
                exists|k: int| i <= k < 512 && !#[trigger] self.state()[k],
            decreases 512 - i,
        {
            if !self.entry_state[i] {
                proof {
                    let ghost s = self.state();
                    assert(0 <= i < s.len() && !s[i as int] && forall|j: int| 0 <= j < i ==> s[j]);
                    let f = first_free(s);
                    assert(f == i) by {
                        if f < i {
                            assert(s[f]);
                        } else if f > i {
                            assert(s[i as int]);
                        }
                    }
                }
                self.entry_state.set(i, true);
                return i as u16;
            }
            i = i + 1;
        }
        proof {
            assert(false);
        }
        0
    }

    /// The virtual address at which the first unused entry starts, marking
    /// the entry as used.
    pub fn get_free_address(&mut self) -> (r: VirtualAddr)
        requires
            old(self).state().len() == 512,
            exists|i: int| 0 <= i < 512 && !#[trigger] old(self).state()[i],
        ensures
            r.addr == first_free(old(self).state()) * 0x80_0000_0000,
            final(self).state() == old(self).state().update(first_free(old(self).state()), true),
    {
        let idx = self.get_free_entry();
        assert((idx as u64) * 0x80_0000_0000 <= u64::MAX) by (nonlinear_arith)
            requires
                idx < 512,
        ;
        VirtualAddr::new((idx as u64) * 0x80_0000_0000)
    }
}

/// The page of an address lies in the same level 4 entry.
proof fn lemma_p4_of_floor(a: int)
    requires
        0 <= a,
    ensures
        p4_index(crate::addr::page_floor(a)) == p4_index(a),
{
    vstd::arithmetic::div_mod::lemma_fundamental_div_mod(a, 4096);
    vstd::arithmetic::div_mod::lemma_fundamental_div_mod(a, 0x80_0000_0000);
    let q = a / 0x80_0000_0000;
    let r = a % 0x80_0000_0000;
    let f = crate::addr::page_floor(a);
    assert(f == a - a % 4096);
    assert(r % 4096 == a % 4096) by {
        vstd::arithmetic::div_mod::lemma_mod_mod(a, 4096, 0x80_0000_0);
        assert(0x80_0000_0000int == 4096 * 0x80_0000_0);
    }
    assert(f / 0x80_0000_0000 == q) by {
        assert(f == 0x80_0000_0000 * q + (r - r % 4096));
        assert(0 <= r - r % 4096 < 0x80_0000_0000);
        vstd::arithmetic::div_mod::lemma_fundamental_div_mod_converse(f, 0x80_0000_0000, q, r - r % 4096);
    }
}

} // verus!
