//! Where each loaded kernel segment sits: virtual pages and the physical
//! pages backing them.
use vstd::prelude::*;

verus! {

/// A run of `pages` 4 KiB pages mapped from `virtual_page_base` to `physical_base_address`.
#[derive(Copy, Clone, Debug, PartialEq, Eq, Structural)]
pub struct SegmentMapping {
    pub virtual_page_base: u64,
    pub physical_base_address: u64,
    pub pages: usize,
}

/// `va` falls inside the pages of `m`.
pub open spec fn covers(m: SegmentMapping, va: int) -> bool {
    m.virtual_page_base <= va < m.virtual_page_base + m.pages * 0x1000
}

/// The physical address of `va` by the first mapping from `i` on that
/// covers it, or 0 when none does.
pub open spec fn physical_from(ms: Seq<SegmentMapping>, va: u64, i: int) -> int
    decreases ms.len() - i,
{
    if i < 0 || i >= ms.len() {
        0
    } else if covers(ms[i], va as int) {
        ms[i].physical_base_address + (va - ms[i].virtual_page_base)
    } else {
        physical_from(ms, va, i + 1)
    }
}

/// An address is translated by the first mapping whose pages hold it: the
/// mapping's physical base plus the address's distance from its virtual
/// base; when no mapping holds it, the lookup gives 0.
pub proof fn lemma_first_holding_mapping(ms: Seq<SegmentMapping>, va: u64, k: int)
    requires
        0 <= k < ms.len(),
        ms[k].virtual_page_base <= va < ms[k].virtual_page_base + ms[k].pages * 0x1000,
        forall|l: int|
            0 <= l < k ==> !((#[trigger] ms[l]).virtual_page_base <= va < ms[l].virtual_page_base
                + ms[l].pages * 0x1000),
    ensures
        physical_from(ms, va, 0) == ms[k].physical_base_address + (va - ms[k].virtual_page_base),
{
    lemma_lookup_from(ms, va, 0, k);
}

/// No mapping holds the address: the lookup gives 0.
pub proof fn lemma_no_holding_mapping(ms: Seq<SegmentMapping>, va: u64)
    requires
        forall|l: int|
            0 <= l < ms.len() ==> !((#[trigger] ms[l]).virtual_page_base <= va
                < ms[l].virtual_page_base + ms[l].pages * 0x1000),
    ensures
        physical_from(ms, va, 0) == 0,
{
    lemma_lookup_none(ms, va, 0);
}

proof fn lemma_lookup_from(ms: Seq<SegmentMapping>, va: u64, i: int, k: int)
    requires
        0 <= i <= k < ms.len(),
        covers(ms[k], va as int),
        forall|l: int| 0 <= l < k ==> !covers(#[trigger] ms[l], va as int),
    ensures
        physical_from(ms, va, i) == ms[k].physical_base_address + (va - ms[k].virtual_page_base),
    decreases k - i,
{
    if i < k {
        lemma_lookup_from(ms, va, i + 1, k);
    }
}

proof fn lemma_lookup_none(ms: Seq<SegmentMapping>, va: u64, i: int)
    requires
        0 <= i,
        forall|l: int| 0 <= l < ms.len() ==> !covers(#[trigger] ms[l], va as int),
    ensures
        physical_from(ms, va, i) == 0,
    decreases ms.len() - i,
{
    if i < ms.len() {
        lemma_lookup_none(ms, va, i + 1);
    }
}

/// The lookup from `i` on computes without overflow: each mapping it
/// consults has its end below 2^64, and the one that covers `va` gives an
/// address below 2^64.
pub open spec fn lookup_fits(ms: Seq<SegmentMapping>, va: u64, i: int) -> bool
    decreases ms.len() - i,
{
    if i < 0 || i >= ms.len() {
        true
    } else {
        &&& ms[i].pages * 0x1000 < 0x1_0000_0000_0000_0000
        &&& ms[i].virtual_page_base + ms[i].pages * 0x1000 < 0x1_0000_0000_0000_0000
        &&& if covers(ms[i], va as int) {
            ms[i].physical_base_address + (va - ms[i].virtual_page_base) < 0x1_0000_0000_0000_0000
        } else {
            lookup_fits(ms, va, i + 1)
        }
    }
}

/// The physical address the first mapping that covers `virtual_address`
/// sends it to; 0 when no mapping covers it.
pub fn virtual_to_physical_address(virtual_address: u64, mappings: &[SegmentMapping]) -> (pa: u64)
    requires
        lookup_fits(mappings@, virtual_address, 0),
    ensures
        pa == physical_from(mappings@, virtual_address, 0),
{
    let mut i: usize = 0;
    while i < mappings.len()
        invariant
            i <= mappings@.len(),
            lookup_fits(mappings@, virtual_address, i as int),
            physical_from(mappings@, virtual_address, 0) == physical_from(
                mappings@,
                virtual_address,
                i as int,
            ),
        decreases mappings@.len() - i,
    {
        let mapping = mappings[i];
        let end = mapping.virtual_page_base + mapping.pages as u64 * 0x1000;
        if virtual_address >= mapping.virtual_page_base && virtual_address < end {
            return mapping.physical_base_address + (virtual_address - mapping.virtual_page_base);
        }
        i = i + 1;
    }
    0
}

/// The physical address of `virtual_address` as `virtual_to_physical_address`
/// gives it, or `None` when that lookup would leave 64 bits.
pub fn checked_virtual_to_physical(virtual_address: u64, mappings: &[SegmentMapping]) -> (pa: Option<u64>)
    ensures
        pa == if lookup_fits(mappings@, virtual_address, 0) {
            Some(physical_from(mappings@, virtual_address, 0) as u64)
        } else {
            None::<u64>
        },
{
    let mut i: usize = 0;
    while i < mappings.len()
        invariant
            i <= mappings@.len(),
            lookup_fits(mappings@, virtual_address, 0) == lookup_fits(mappings@, virtual_address, i as int),
            physical_from(mappings@, virtual_address, 0) == physical_from(
                mappings@,
                virtual_address,
                i as int,
            ),
        decreases mappings@.len() - i,
    {
        let mapping = mappings[i];
        if mapping.pages as u128 * 0x1000 >= 0x1_0000_0000_0000_0000 {
            return None;
        }
        if (mapping.virtual_page_base as u128) + (mapping.pages as u128) * 0x1000
            >= 0x1_0000_0000_0000_0000 {
            return None;
        }
        let end = mapping.virtual_page_base + mapping.pages as u64 * 0x1000;
        if virtual_address >= mapping.virtual_page_base && virtual_address < end {
            let offset = virtual_address - mapping.virtual_page_base;
            if (mapping.physical_base_address as u128) + (offset as u128) >= 0x1_0000_0000_0000_0000 {
                return None;
            }
            return Some(mapping.physical_base_address + offset);
        }
        i = i + 1;
    }
    Some(0)
}

} // verus!
