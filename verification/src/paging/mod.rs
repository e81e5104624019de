//! Four-level x86-64 page tables: an identity map of the first 4 GiB in
//! 2 MiB pages, with the kernel's segments mapped in 4 KiB pages on top.
//!
//! The tables are built in a model of the physical memory they occupy
//! (`PhysicalMemory`): every page the firmware hands out is recorded, and
//! every 64-bit entry written is kept by its physical address, so that the
//! caller can copy the finished tables into place before loading CR3.
use vstd::prelude::*;
use vstd::hash_map::HashMapWithView;
use crate::firmware::{Firmware, FirmwareInterface, FirmwareRequest};
use crate::segment_mapping::SegmentMapping;
use lemmas::{lemma_frame_good, lemma_wf_facts, lemma_slot_injective, lemma_walk_owned, lemma_table_entry, lemma_leaf_entry, lemma_entry_masks, lemma_indices, lemma_frames_push, lemma_attach, lemma_walk_to_owned_survives, lemma_set_leaf, lemma_huge_entry, lemma_frames_prefix, lemma_extend_push, lemma_extend_trans, lemma_outside_page, lemma_page_outside_tree, lemma_split_step, lemma_walk_start, lemma_step_down, lemma_wf_root, lemma_identity_entry};

mod lemmas;

verus! {

broadcast use vstd::std_specs::hash::group_hash_axioms;

pub const PRESENT: u64 = 1;
pub const WRITABLE: u64 = 0x2;
pub const HUGE: u64 = 0x80;
pub const PAGE_TABLE_INDEX_MASK: u64 = 0x1FF;
pub const PML4_SHIFT: u64 = 39;
pub const PDPT_SHIFT: u64 = 30;
pub const PD_SHIFT: u64 = 21;
pub const PT_SHIFT: u64 = 12;
pub const HUGE_PAGE_OFFSET_MASK: u64 = 0x1FFFFF;
pub const PAGE_TABLE_ENTRY_COUNT: usize = 512;
pub const PAGE_SIZE: u64 = 0x1000;
pub const PAGE_OFFSET_MASK: u64 = 0xFFF;
pub const HUGE_PAGE_SIZE: u64 = 0x200000;
pub const PDPT_SPAN: u64 = 0x40000000;

/// The highest physical address an x86-64 processor can reach (2^52).
pub open spec fn max_physical() -> int {
    0x10_0000_0000_0000
}

/// The 64-bit word at physical address `a`: what was last written there, or
/// zero.
pub open spec fn word(m: Map<u64, u64>, a: int) -> u64 {
    if 0 <= a < 0x1_0000_0000_0000_0000 && m.contains_key(a as u64) {
        m[a as u64]
    } else {
        0
    }
}

/// Bit 0 of an entry: the entry maps something.
pub open spec fn present(e: u64) -> bool {
    e % 2 == 1
}

/// Bit 7 of a page-directory entry: the entry maps a 2 MiB page.
pub open spec fn huge(e: u64) -> bool {
    (e / 0x80) % 2 == 1
}

/// Bit 1 of an entry: what it maps may be written.
pub open spec fn writable(e: u64) -> bool {
    (e / 2) % 2 == 1
}

/// Every entry in `m` that maps something allows writes.
pub open spec fn all_writable(m: Map<u64, u64>) -> bool {
    forall|a: int| present(#[trigger] word(m, a)) ==> writable(word(m, a))
}

/// Every entry the walk for `va` goes through allows writes.
pub open spec fn walk_writable(m: Map<u64, u64>, pml4: u64, va: u64) -> bool {
    &&& writable(entry_at(m, pml4, va, 0))
    &&& writable(entry_at(m, pml4, va, 1))
    &&& writable(entry_at(m, pml4, va, 2))
    &&& (huge(entry_at(m, pml4, va, 2)) || writable(entry_at(m, pml4, va, 3)))
}

/// The low bits of an entry are exactly those the loader sets: present and
/// writable, and for a 2 MiB page also the page-size bit, with nothing else
/// set below the address field.
pub open spec fn flags_exact(e: u64) -> bool {
    if huge(e) {
        e % 0x20_0000 == 0x83
    } else {
        e % 0x1000 == 3
    }
}

/// Every entry in `m` that maps something carries exactly the loader's flags.
pub open spec fn all_flags_exact(m: Map<u64, u64>) -> bool {
    forall|a: int| present(#[trigger] word(m, a)) ==> flags_exact(word(m, a))
}

/// Every entry the walk for `va` goes through carries exactly the loader's flags.
pub open spec fn walk_flags_exact(m: Map<u64, u64>, pml4: u64, va: u64) -> bool {
    &&& flags_exact(entry_at(m, pml4, va, 0))
    &&& flags_exact(entry_at(m, pml4, va, 1))
    &&& flags_exact(entry_at(m, pml4, va, 2))
    &&& (huge(entry_at(m, pml4, va, 2)) || flags_exact(entry_at(m, pml4, va, 3)))
}

/// Every page handed out is 4 KiB aligned.
pub open spec fn frames_aligned(frames: Seq<u64>) -> bool {
    forall|i: int| 0 <= i < frames.len() ==> #[trigger] frames[i] % 0x1000 == 0
}

/// Every mapping is backed by 4 KiB-aligned physical pages.
pub open spec fn mappings_aligned(ms: Seq<SegmentMapping>) -> bool {
    forall|j: int| 0 <= j < ms.len() ==> (#[trigger] ms[j]).physical_base_address % 0x1000 == 0
}

/// The 4 KiB-aligned address an entry holds.
pub open spec fn table_address(e: u64) -> u64 {
    (e - e % 0x1000) as u64
}

/// The 2 MiB-aligned address a huge entry holds.
pub open spec fn huge_base(e: u64) -> int {
    e - e % 0x20_0000
}

/// The physical address of entry `k` of the table at `t`.
pub open spec fn slot(t: u64, k: int) -> int {
    t + 8 * k
}

/// Bits 39..48 of a virtual address: its index in the PML4.
pub open spec fn pml4_index(va: u64) -> int {
    (va as int / 0x80_0000_0000) % 512
}

/// Bits 30..39: the index in the page-directory-pointer table.
pub open spec fn pdpt_index(va: u64) -> int {
    (va as int / 0x4000_0000) % 512
}

/// Bits 21..30: the index in the page directory.
pub open spec fn pd_index(va: u64) -> int {
    (va as int / 0x20_0000) % 512
}

/// Bits 12..21: the index in the page table.
pub open spec fn pt_index(va: u64) -> int {
    (va as int / 0x1000) % 512
}

/// The index of `va` in the table of the given level (0 is the PML4).
pub open spec fn level_index(va: u64, level: int) -> int {
    if level == 0 {
        pml4_index(va)
    } else if level == 1 {
        pdpt_index(va)
    } else if level == 2 {
        pd_index(va)
    } else {
        pt_index(va)
    }
}

/// The table that entry `k` of table `t` points to.
pub open spec fn next_table(m: Map<u64, u64>, t: u64, k: int) -> u64 {
    table_address(word(m, slot(t, k)))
}

#[verifier::opaque]
/// The table the walk for `va` consults at `level`.
pub open spec fn table_at(m: Map<u64, u64>, pml4: u64, va: u64, level: int) -> u64 {
    let t1 = next_table(m, pml4, pml4_index(va));
    let t2 = next_table(m, t1, pdpt_index(va));
    let t3 = next_table(m, t2, pd_index(va));
    if level == 0 {
        pml4
    } else if level == 1 {
        t1
    } else if level == 2 {
        t2
    } else {
        t3
    }
}

/// The entry the walk for `va` reads at `level`.
pub open spec fn entry_at(m: Map<u64, u64>, pml4: u64, va: u64, level: int) -> u64 {
    word(m, slot(table_at(m, pml4, va, level), level_index(va, level)))
}

#[verifier::opaque]
/// Whether the walk for `va` gets as far as `level`.
pub open spec fn reaches(m: Map<u64, u64>, pml4: u64, va: u64, level: int) -> bool {
    level == 0 || (present(entry_at(m, pml4, va, 0)) && (level == 1 || (present(
        entry_at(m, pml4, va, 1),
    ) && (level == 2 || (present(entry_at(m, pml4, va, 2)) && !huge(
        entry_at(m, pml4, va, 2),
    ))))))
}

#[verifier::opaque]
/// The physical address the processor reaches for `va` by walking the tables
/// rooted at `pml4`, as the tables are read here: the address field of each
/// entry is the entry with its low 12 bits cleared, and bit 7 marks a 2 MiB
/// page in a page directory.
pub open spec fn translate(m: Map<u64, u64>, pml4: u64, va: u64) -> Option<int> {
    if !present(entry_at(m, pml4, va, 0)) {
        None
    } else if !present(entry_at(m, pml4, va, 1)) {
        None
    } else if !present(entry_at(m, pml4, va, 2)) {
        None
    } else if huge(entry_at(m, pml4, va, 2)) {
        Some(huge_base(entry_at(m, pml4, va, 2)) + va % 0x20_0000)
    } else if !present(entry_at(m, pml4, va, 3)) {
        None
    } else {
        Some(table_address(entry_at(m, pml4, va, 3)) + va % 0x1000)
    }
}

/// The indices of `va` at the levels above `n`.
pub open spec fn path_of(va: u64, n: int) -> Seq<int> {
    if n <= 0 {
        seq![]
    } else if n == 1 {
        seq![pml4_index(va)]
    } else if n == 2 {
        seq![pml4_index(va), pdpt_index(va)]
    } else {
        seq![pml4_index(va), pdpt_index(va), pd_index(va)]
    }
}

/// A page usable as a table: 4 KiB aligned and below the physical limit.
pub open spec fn good_frame(f: u64) -> bool {
    f % 0x1000 == 0 && f + 0x1000 <= max_physical()
}

#[verifier::opaque]
/// The pages the firmware handed out were usable as tables and all distinct.
pub open spec fn frames_ok(frames: Seq<u64>) -> bool {
    &&& forall|i: int| 0 <= i < frames.len() ==> #[trigger] good_frame(frames[i])
    &&& forall|i: int, j: int| 0 <= i < j < frames.len() ==> frames[i] != frames[j]
}

/// Entry `k` of table `t`, if it points to a table, points to the table
/// that `owner` assigns to the path of `t` extended by `k`.
pub open spec fn owns_child(m: Map<u64, u64>, owner: Map<u64, Seq<int>>, t: u64, k: int) -> bool {
    let e = word(m, slot(t, k));
    &&& (present(e) || e == 0)
    &&& (present(e) && !(owner[t].len() == 2 && huge(e))) ==> (owner.contains_key(
        table_address(e),
    ) && owner[table_address(e)] == owner[t].push(k))
}

#[verifier::opaque]
/// The tables form a tree rooted at `pml4`: `owner` gives each table the
/// path of indices that leads to it, and each table sits in its own page.
pub open spec fn tables_wf(
    m: Map<u64, u64>,
    frames: Seq<u64>,
    pml4: u64,
    owner: Map<u64, Seq<int>>,
) -> bool {
    &&& owner.contains_key(pml4)
    &&& owner[pml4] == Seq::<int>::empty()
    &&& forall|t: u64| #[trigger]
        owner.contains_key(t) ==> frames.contains(t) && owner[t].len() <= 3
    &&& forall|t: u64, k: int|
        #![trigger owns_child(m, owner, t, k)]
        owner.contains_key(t) && owner[t].len() < 3 && 0 <= k < 512 ==> owns_child(m, owner, t, k)
}

/// `va` and `vb` lie in the same 4 KiB page as the tables see it (bits 12..48).
pub open spec fn same_page(va: u64, vb: u64) -> bool {
    &&& pml4_index(va) == pml4_index(vb)
    &&& pdpt_index(va) == pdpt_index(vb)
    &&& pd_index(va) == pd_index(vb)
    &&& pt_index(va) == pt_index(vb)
}

#[verifier::opaque]
/// `a` extends `b`: `b`'s pages first, in order.
pub open spec fn frames_extend(a: Seq<u64>, b: Seq<u64>) -> bool {
    &&& a.len() <= b.len()
    &&& forall|i: int| 0 <= i < a.len() ==> a[i] == b[i]
}

/// The identity map of the first 4 GiB in 2 MiB pages that the tables start with.
pub open spec fn identity_map(va: u64) -> Option<int> {
    if pml4_index(va) == 0 && pdpt_index(va) < 4 {
        Some(pdpt_index(va) * 0x4000_0000 + pd_index(va) * 0x20_0000 + va % 0x20_0000)
    } else {
        None
    }
}

/// The identity map as far as it is built: the page directories before the
/// `i`-th complete, and the first `j` entries of the `i`-th.
pub open spec fn identity_map_upto(i: int, j: int, va: u64) -> Option<int> {
    if pml4_index(va) == 0 && (pdpt_index(va) < i || (pdpt_index(va) == i && pd_index(va) < j)) {
        Some(pdpt_index(va) * 0x4000_0000 + pd_index(va) * 0x20_0000 + va % 0x20_0000)
    } else {
        None
    }
}

/// The virtual address of page `i` of a mapping.
pub open spec fn page_virtual(m: SegmentMapping, i: int) -> u64 {
    (m.virtual_page_base + i * 0x1000) as u64
}

/// The physical address page `i` of a mapping is backed by.
pub open spec fn page_physical(m: SegmentMapping, i: int) -> int {
    m.physical_base_address + i * 0x1000
}

/// Where the first `n` pages of `m` send `va`: the last of them that shares
/// `va`'s page decides.
pub open spec fn lookup_pages(m: SegmentMapping, va: u64, n: int) -> Option<int>
    decreases n,
{
    if n <= 0 {
        None
    } else if same_page(va, page_virtual(m, n - 1)) {
        Some(page_physical(m, n - 1) - page_physical(m, n - 1) % 0x1000 + va % 0x1000)
    } else {
        lookup_pages(m, va, n - 1)
    }
}

/// Where the finished tables send `va`: the last mapping page that shares
/// `va`'s page, else the identity map of the first 4 GiB.
pub open spec fn mapped_address(ms: Seq<SegmentMapping>, va: u64) -> Option<int>
    decreases ms.len(),
{
    if ms.len() == 0 {
        identity_map(va)
    } else {
        match lookup_pages(ms.last(), va, ms.last().pages as int) {
            Some(pa) => Some(pa),
            None => mapped_address(ms.drop_last(), va),
        }
    }
}

/// Every page of every mapping has a virtual and a physical address below 2^64.
pub open spec fn mappings_fit(ms: Seq<SegmentMapping>) -> bool {
    forall|j: int|
        0 <= j < ms.len() ==> (#[trigger] ms[j]).pages == 0 || (ms[j].virtual_page_base + (
        ms[j].pages - 1) * 0x1000 < 0x1_0000_0000_0000_0000 && ms[j].physical_base_address + (
        ms[j].pages - 1) * 0x1000 < 0x1_0000_0000_0000_0000)
}

/// The physical memory the page tables are written to.
pub struct PhysicalMemory {
    words: HashMapWithView<u64, u64>,
    frames: Vec<u64>,
}

impl PhysicalMemory {
    /// The words written so far, by physical address.
    pub closed spec fn words(&self) -> Map<u64, u64> {
        self.words@
    }

    /// The pages allocated so far, in order.
    pub closed spec fn frames(&self) -> Seq<u64> {
        self.frames@
    }

    /// Memory in which nothing has been written or allocated yet.
    pub fn new() -> (m: Self)
        ensures
            m.words() == Map::<u64, u64>::empty(),
            m.frames() == Seq::<u64>::empty(),
            all_writable(m.words()),
            all_flags_exact(m.words()),
    {
        PhysicalMemory { words: HashMapWithView::new(), frames: Vec::new() }
    }

    /// The word at `address`.
    pub fn read(&self, address: u64) -> (v: u64)
        ensures
            v == word(self.words(), address as int),
    {
        match self.words.get(&address) {
            Some(v) => *v,
            None => 0,
        }
    }

    /// Writes `value` at `address`.
    pub fn write(&mut self, address: u64, value: u64)
        ensures
            final(self).words() == old(self).words().insert(address, value),
            final(self).frames() == old(self).frames(),
            (present(value) ==> writable(value)) ==> (all_writable(old(self).words())
                ==> all_writable(final(self).words())),
            (present(value) ==> flags_exact(value)) ==> (all_flags_exact(old(self).words())
                ==> all_flags_exact(final(self).words())),
    {
        let ghost m = self.words@;
        self.words.insert(address, value);
        proof {
            if (present(value) ==> flags_exact(value)) && all_flags_exact(m) {
                assert forall|a: int| present(#[trigger] word(self.words@, a)) implies flags_exact(
                    word(self.words@, a),
                ) by {
                    if a != address as int {
                        assert(word(self.words@, a) == word(m, a));
                    }
                }
            }
            if (present(value) ==> writable(value)) && all_writable(m) {
                assert forall|a: int| present(#[trigger] word(self.words@, a)) implies writable(
                    word(self.words@, a),
                ) by {
                    if a != address as int {
                        assert(word(self.words@, a) == word(m, a));
                    }
                }
            }
        }
    }

    /// The number of pages allocated.
    pub fn frame_count(&self) -> (n: usize)
        ensures
            n == self.frames().len(),
    {
        self.frames.len()
    }

    /// The `i`-th page allocated.
    pub fn frame(&self, i: usize) -> (f: u64)
        requires
            i < self.frames().len(),
        ensures
            f == self.frames()[i as int],
    {
        self.frames[i]
    }
}

/// The address of entry `index` of the table at `table`.
pub fn entry_address(table: u64, index: usize) -> (a: u64)
    requires
        index < 512,
    ensures
        a == (table as int + 8 * index) % 0x1_0000_0000_0000_0000,
{
    table.wrapping_add((index as u64) * 8)
}

/// Entries the tables are built from allow writes.
proof fn lemma_writable_bits(x: u64)
    ensures
        writable(x | PRESENT | WRITABLE),
        writable(x | PRESENT | WRITABLE | HUGE),
{
    assert(((x | 1u64 | 2u64) / 2) % 2 == 1) by (bit_vector);
    assert(((x | 1u64 | 2u64 | 0x80u64) / 2) % 2 == 1) by (bit_vector);
}

/// The pages handed out before a later point were aligned if all were.
proof fn lemma_aligned_prefix(a: Seq<u64>, b: Seq<u64>)
    requires
        frames_extend(a, b),
        frames_aligned(b),
    ensures
        frames_aligned(a),
{
    reveal(frames_extend);
    assert forall|i: int| 0 <= i < a.len() implies #[trigger] a[i] % 0x1000 == 0 by {
        assert(a[i] == b[i]);
    }
}

/// Every entry the walk goes through allows writes, where every entry that
/// maps something does.
pub proof fn lemma_walk_writable(m: Map<u64, u64>, pml4: u64, va: u64)
    requires
        all_writable(m),
        translate(m, pml4, va) is Some,
    ensures
        walk_writable(m, pml4, va),
{
    reveal(translate);
    assert(present(word(m, slot(table_at(m, pml4, va, 0), level_index(va, 0)))));
    assert(present(word(m, slot(table_at(m, pml4, va, 1), level_index(va, 1)))));
    assert(present(word(m, slot(table_at(m, pml4, va, 2), level_index(va, 2)))));
    if !huge(entry_at(m, pml4, va, 2)) {
        assert(present(word(m, slot(table_at(m, pml4, va, 3), level_index(va, 3)))));
    }
}

/// Every entry the walk goes through carries exactly the loader's flags,
/// where every entry that maps something does.
pub proof fn lemma_walk_flags_exact(m: Map<u64, u64>, pml4: u64, va: u64)
    requires
        all_flags_exact(m),
        translate(m, pml4, va) is Some,
    ensures
        walk_flags_exact(m, pml4, va),
{
    reveal(translate);
    assert(present(word(m, slot(table_at(m, pml4, va, 0), level_index(va, 0)))));
    assert(present(word(m, slot(table_at(m, pml4, va, 1), level_index(va, 1)))));
    assert(present(word(m, slot(table_at(m, pml4, va, 2), level_index(va, 2)))));
    if !huge(entry_at(m, pml4, va, 2)) {
        assert(present(word(m, slot(table_at(m, pml4, va, 3), level_index(va, 3)))));
    }
}

/// One single-page request per page, in order.
pub open spec fn page_requests(frames: Seq<u64>) -> Seq<FirmwareRequest> {
    Seq::new(frames.len(), |i: int| FirmwareRequest::AllocatePages { count: 1, address: frames[i] })
}

/// From requests `r0` and pages `f0` to requests `r1` and pages `f1`, the
/// firmware was asked for exactly one page for each page added, in order.
pub open spec fn requests_follow(
    r0: Seq<FirmwareRequest>,
    f0: Seq<u64>,
    r1: Seq<FirmwareRequest>,
    f1: Seq<u64>,
) -> bool {
    r1 == r0 + page_requests(f1.skip(f0.len() as int))
}

/// Nothing asked, nothing added.
proof fn lemma_requests_none(r: Seq<FirmwareRequest>, f: Seq<u64>)
    ensures
        requests_follow(r, f, r, f),
{
    assert(page_requests(f.skip(f.len() as int)) =~= Seq::<FirmwareRequest>::empty());
    assert(r + Seq::<FirmwareRequest>::empty() =~= r);
}

/// Two stretches of single-page requests make one.
proof fn lemma_requests_chain(
    r0: Seq<FirmwareRequest>,
    f0: Seq<u64>,
    r1: Seq<FirmwareRequest>,
    f1: Seq<u64>,
    r2: Seq<FirmwareRequest>,
    f2: Seq<u64>,
)
    requires
        frames_extend(f0, f1),
        frames_extend(f1, f2),
        requests_follow(r0, f0, r1, f1),
        requests_follow(r1, f1, r2, f2),
    ensures
        requests_follow(r0, f0, r2, f2),
{
    let a = page_requests(f2.skip(f0.len() as int));
    let b = page_requests(f1.skip(f0.len() as int)) + page_requests(f2.skip(f1.len() as int));
    let l0 = f0.len() as int;
    let l1 = f1.len() as int;
    reveal(frames_extend);
    assert(f2.skip(l0).len() == f2.len() - l0);
    assert(f1.skip(l0).len() == f1.len() - l0);
    assert(f2.skip(l1).len() == f2.len() - l1);
    assert(a.len() == f2.len() - l0);
    assert(b.len() == f2.len() - l0);
    assert forall|i: int| 0 <= i < a.len() implies a[i] == b[i] by {
        assert(a[i] == FirmwareRequest::AllocatePages { count: 1, address: f2[l0 + i] });
        if i < l1 - l0 {
            assert(f2[l0 + i] == f1[l0 + i]);
            assert(b[i] == page_requests(f1.skip(l0))[i]);
        } else {
            assert(b[i] == page_requests(f2.skip(l1))[i - (l1 - l0)]);
        }
    }
    assert(a =~= b);
    assert(r0 + page_requests(f2.skip(f0.len() as int)) =~= r0 + page_requests(
        f1.skip(f0.len() as int),
    ) + page_requests(f2.skip(f1.len() as int)));
}

/// Allocates one page from the firmware and zeroes it.
fn alloc_page<F: FirmwareInterface>(firmware: &mut Firmware<F>, memory: &mut PhysicalMemory) -> (p: u64)
    ensures
        all_writable(old(memory).words()) ==> all_writable(final(memory).words()),
        all_flags_exact(old(memory).words()) ==> all_flags_exact(final(memory).words()),
        final(firmware).requests() == old(firmware).requests().push(
            FirmwareRequest::AllocatePages { count: 1, address: p },
        ),
        requests_follow(
            old(firmware).requests(),
            old(memory).frames(),
            final(firmware).requests(),
            final(memory).frames(),
        ),
        final(memory).frames() == old(memory).frames().push(p),
        p as int + 0x1000 <= 0x1_0000_0000_0000_0000 ==> forall|a: int|
            #![trigger word(final(memory).words(), a)]
            word(final(memory).words(), a) == if p <= a < p + 0x1000 && (a - p) % 8 == 0 {
                0
            } else {
                word(old(memory).words(), a)
            },
{
    let p = firmware.allocate_pages(1);
    let ghost m0 = memory.words();
    let mut i: usize = 0;
    while i < PAGE_TABLE_ENTRY_COUNT
        invariant
            all_writable(old(memory).words()) ==> all_writable(memory.words()),
            all_flags_exact(old(memory).words()) ==> all_flags_exact(memory.words()),
            i <= 512,
            memory.frames() == old(memory).frames(),
            m0 == old(memory).words(),
            p as int + 0x1000 <= 0x1_0000_0000_0000_0000 ==> forall|a: int|
                #![trigger word(memory.words(), a)]
                word(memory.words(), a) == if p <= a < p + 8 * i && (a - p) % 8 == 0 {
                    0
                } else {
                    word(m0, a)
                },
        decreases 512 - i,
    {
        let a = entry_address(p, i);
        let ghost before = memory.words();
        memory.write(a, 0);
        proof {
            if p as int + 0x1000 <= 0x1_0000_0000_0000_0000 {
                assert forall|x: int| #![trigger word(memory.words(), x)]
                    word(memory.words(), x) == if p <= x < p + 8 * (i + 1) && (x - p) % 8 == 0 {
                        0
                    } else {
                        word(m0, x)
                    } by {
                    assert(a == p + 8 * i);
                    if x != a as int {
                        assert(word(memory.words(), x) == word(before, x));
                    }
                    assert(word(before, x) == word(m0, x) || (p <= x < p + 8 * i && (x - p) % 8
                        == 0));
                }
            }
        }
        i = i + 1;
    }
    let ghost before = memory.words();
    memory.frames.push(p);
    assert(memory.words() == before);
    proof {
        let f0 = old(memory).frames();
        let q = FirmwareRequest::AllocatePages { count: 1, address: p };
        assert(memory.frames().skip(f0.len() as int) =~= seq![p]);
        assert(page_requests(memory.frames().skip(f0.len() as int)) =~= seq![q]);
        assert(old(firmware).requests() + seq![q] =~= old(firmware).requests().push(q));
    }
    p
}

/// Returns the table that `entry` points to; when the entry is absent,
/// first allocates a zeroed page and points the entry at it.
fn ensure_table<F: FirmwareInterface>(
    firmware: &mut Firmware<F>,
    memory: &mut PhysicalMemory,
    entry: u64,
    Ghost(pml4): Ghost<u64>,
    Ghost(owner): Ghost<Map<u64, Seq<int>>>,
    Ghost(va): Ghost<u64>,
    Ghost(level): Ghost<int>,
) -> (res: (u64, Ghost<Map<u64, Seq<int>>>))
    requires
        0 <= level < 3,
        frames_ok(old(memory).frames()) ==> {
            &&& tables_wf(old(memory).words(), old(memory).frames(), pml4, owner)
            &&& reaches(old(memory).words(), pml4, va, level)
            &&& entry == slot(table_at(old(memory).words(), pml4, va, level), level_index(va, level))
            &&& (level == 2 ==> !huge(entry_at(old(memory).words(), pml4, va, 2)))
        },
    ensures
        all_writable(old(memory).words()) ==> all_writable(final(memory).words()),
        frames_aligned(final(memory).frames()) ==> (all_flags_exact(old(memory).words())
            ==> all_flags_exact(final(memory).words())),
        frames_extend(old(memory).frames(), final(memory).frames()),
        requests_follow(
            old(firmware).requests(),
            old(memory).frames(),
            final(firmware).requests(),
            final(memory).frames(),
        ),
        frames_ok(final(memory).frames()) ==> {
            &&& tables_wf(final(memory).words(), final(memory).frames(), pml4, res.1@)
            &&& reaches(final(memory).words(), pml4, va, level + 1)
            &&& res.0 == table_at(final(memory).words(), pml4, va, level + 1)
            &&& forall|x: u64| #[trigger]
                translate(final(memory).words(), pml4, x) == translate(
                    old(memory).words(),
                    pml4,
                    x,
                )
        },
{
    let ghost m0 = memory.words();
    let ghost f0 = memory.frames();
    proof {
        lemma_requests_none(firmware.requests(), memory.frames());
    }
    let ghost t = table_at(m0, pml4, va, level);
    let ghost k = level_index(va, level);
    let e = memory.read(entry);
    proof {
        lemma_entry_masks(e);
    }
    if e & PRESENT == 0 {
        let p = alloc_page(firmware, memory);
        let ghost m1 = memory.words();
        proof {
            lemma_writable_bits(p);
        }
        memory.write(entry, p | PRESENT | WRITABLE);
        proof {
            lemma_extend_push(f0, p);
            if frames_aligned(memory.frames()) {
                assert(memory.frames()[f0.len() as int] == p);
                lemma_table_entry(p);
            }
        }
        let ghost owner2 = owner.insert(p, owner[t].push(k));
        proof {
            if frames_ok(memory.frames()) {
                lemma_frames_push(f0, p);
                lemma_wf_facts(m0, f0, pml4, owner);
                lemma_walk_owned(m0, f0, pml4, owner, va, level);
                assert(path_of(va, level).len() == level);
                assert(0 <= k < 512);
                assert(!owner.contains_key(p));
                lemma_page_outside_tree(m0, m1, f0, memory.frames(), pml4, owner, p);
                lemma_frame_good(f0, t);
                assert(p <= slot(t, k) < p + 0x1000 ==> false) by {
                    lemma_outside_page(t, k, p);
                }
                assert(word(m1, slot(t, k)) == e);
                assert forall|j: int| 0 <= j < 512 implies #[trigger] word(m1, slot(p, j)) == 0 by {
                    assert(p <= slot(p, j) < p + 0x1000 && (slot(p, j) - p) % 8 == 0);
                }
                assert(memory.frames().contains(p)) by {
                    assert(memory.frames()[f0.len() as int] == p);
                }
                lemma_table_entry(p);
                lemma_attach(m1, memory.frames(), pml4, owner, t, k, p);
                assert(memory.words() == m1.insert(slot(t, k) as u64, (p + 3) as u64));
                lemma_walk_to_owned_survives(
                    m1,
                    memory.frames(),
                    pml4,
                    owner,
                    t,
                    k,
                    (p + 3) as u64,
                    va,
                );
                assert(entry_at(memory.words(), pml4, va, level) == (p + 3) as u64);
                lemma_step_down(memory.words(), pml4, va, level);
            }
        }
        let e2 = memory.read(entry);
        proof {
            lemma_entry_masks(e2);
        }
        (e2 & !PAGE_OFFSET_MASK, Ghost(owner2))
    } else {
        proof {
            lemma_extend_push(f0, 0);
            if frames_ok(memory.frames()) {
                lemma_step_down(m0, pml4, va, level);
            }
        }
        (e & !PAGE_OFFSET_MASK, Ghost(owner))
    }
}

/// Fills the 512 entries of the page table `table` so that they map, in
/// 4 KiB pages, the 2 MiB starting at `base`.
fn fill_split_table(memory: &mut PhysicalMemory, table: u64, base: u64)
    requires
        base % 0x20_0000 == 0,
        base <= 0xFFFF_FFFF_FFE0_0000,
    ensures
        all_writable(old(memory).words()) ==> all_writable(final(memory).words()),
        all_flags_exact(old(memory).words()) ==> all_flags_exact(final(memory).words()),
        final(memory).frames() == old(memory).frames(),
        table as int + 0x1000 <= 0x1_0000_0000_0000_0000 ==> forall|a: int|
            #![trigger word(final(memory).words(), a)]
            word(final(memory).words(), a) == if table <= a < table + 0x1000 && (a - table) % 8
                == 0 {
                (base + (a - table) / 8 * 0x1000 + 3) as u64
            } else {
                word(old(memory).words(), a)
            },
{
    let ghost m0 = memory.words();
    let mut i: usize = 0;
    while i < PAGE_TABLE_ENTRY_COUNT
        invariant
            all_writable(old(memory).words()) ==> all_writable(memory.words()),
            all_flags_exact(old(memory).words()) ==> all_flags_exact(memory.words()),
            i <= 512,
            base % 0x20_0000 == 0,
            base <= 0xFFFF_FFFF_FFE0_0000,
            memory.frames() == old(memory).frames(),
            m0 == old(memory).words(),
            table as int + 0x1000 <= 0x1_0000_0000_0000_0000 ==> forall|a: int|
                #![trigger word(memory.words(), a)]
                word(memory.words(), a) == if table <= a < table + 8 * i && (a - table) % 8 == 0 {
                    (base + (a - table) / 8 * 0x1000 + 3) as u64
                } else {
                    word(m0, a)
                },
        decreases 512 - i,
    {
        let pa = base + (i as u64) * PAGE_SIZE;
        proof {
            assert(pa % 0x1000 == 0) by (nonlinear_arith)
                requires
                    base % 0x20_0000 == 0,
                    pa == base + i * 0x1000,
            ;
            lemma_table_entry(pa);
        }
        let a = entry_address(table, i);
        let ghost before = memory.words();
        proof {
            lemma_writable_bits(pa);
        }
        memory.write(a, pa | PRESENT | WRITABLE);
        proof {
            if table as int + 0x1000 <= 0x1_0000_0000_0000_0000 {
                assert forall|x: int| #![trigger word(memory.words(), x)]
                    word(memory.words(), x) == if table <= x < table + 8 * (i + 1) && (x - table)
                        % 8 == 0 {
                        (base + (x - table) / 8 * 0x1000 + 3) as u64
                    } else {
                        word(m0, x)
                    } by {
                    assert(a == table + 8 * i);
                    if x == table + 8 * i {
                        assert((x - table) / 8 == i);
                        assert(word(memory.words(), x) == (pa + 3) as u64);
                        assert(table <= x < table + 8 * (i + 1) && (x - table) % 8 == 0);
                        assert((base + (x - table) / 8 * 0x1000 + 3) as u64 == (pa + 3) as u64);
                    } else {
                        assert(word(memory.words(), x) == word(before, x));
                        if table <= x < table + 8 * i && (x - table) % 8 == 0 {
                            assert(word(before, x) == (base + (x - table) / 8 * 0x1000 + 3) as u64);
                        } else {
                            assert(word(before, x) == word(m0, x));
                        }
                    }
                }
            }
        }
        i = i + 1;
    }
}

#[verifier::rlimit(80)]
/// Maps the 4 KiB page of `virtual_address` to that of `physical_address`,
/// creating the intermediate tables it lacks and splitting a 2 MiB page
/// that covers it.
///
/// Where the firmware handed out distinct, aligned pages (`frames_ok`), the
/// page-table entry for the page holds `physical_address` with the present
/// and writable bits, and every address outside the page translates as it
/// did before: in particular, splitting a 2 MiB page keeps its other 511
/// pages on the physical addresses they had.
pub fn map_4kb<F: FirmwareInterface>(
    firmware: &mut Firmware<F>,
    memory: &mut PhysicalMemory,
    page_map_level_4: u64,
    virtual_address: u64,
    physical_address: u64,
    Ghost(owner): Ghost<Map<u64, Seq<int>>>,
) -> (owner2: Ghost<Map<u64, Seq<int>>>)
    requires
        frames_ok(old(memory).frames()) ==> tables_wf(
            old(memory).words(),
            old(memory).frames(),
            page_map_level_4,
            owner,
        ),
    ensures
        all_writable(old(memory).words()) ==> all_writable(final(memory).words()),
        frames_aligned(final(memory).frames()) && physical_address % 0x1000 == 0 ==> (
        all_flags_exact(old(memory).words()) ==> all_flags_exact(final(memory).words())),
        frames_extend(old(memory).frames(), final(memory).frames()),
        requests_follow(
            old(firmware).requests(),
            old(memory).frames(),
            final(firmware).requests(),
            final(memory).frames(),
        ),
        frames_ok(final(memory).frames()) ==> {
            &&& tables_wf(final(memory).words(), final(memory).frames(), page_map_level_4, owner2@)
            &&& entry_at(final(memory).words(), page_map_level_4, virtual_address, 3)
                == physical_address | PRESENT | WRITABLE
            &&& forall|x: u64| #[trigger]
                translate(final(memory).words(), page_map_level_4, x) == if same_page(
                    x,
                    virtual_address,
                ) {
                    Some(physical_address - physical_address % 0x1000 + x % 0x1000)
                } else {
                    translate(old(memory).words(), page_map_level_4, x)
                }
        },
{
    let ghost pml4 = page_map_level_4;
    let ghost va = virtual_address;
    let ghost m0 = memory.words();
    let ghost f0 = memory.frames();
    let ghost r0 = firmware.requests();
    proof {
        lemma_indices(virtual_address);
    }
    let page_map_level_4_i = ((virtual_address >> PML4_SHIFT) & PAGE_TABLE_INDEX_MASK) as usize;
    let page_directory_pointer_table_i = ((virtual_address >> PDPT_SHIFT) & PAGE_TABLE_INDEX_MASK) as usize;
    let page_directory_i = ((virtual_address >> PD_SHIFT) & PAGE_TABLE_INDEX_MASK) as usize;
    let page_table_i = ((virtual_address >> PT_SHIFT) & PAGE_TABLE_INDEX_MASK) as usize;

    proof {
        lemma_walk_start(m0, pml4, va);
        if frames_ok(memory.frames()) {
            lemma_wf_facts(m0, f0, pml4, owner);
            lemma_frame_good(f0, pml4);
        }
    }
    let a4 = entry_address(page_map_level_4, page_map_level_4_i);
    let (page_directory_pointer_table, o1) = ensure_table(
        firmware,
        memory,
        a4,
        Ghost(pml4),
        Ghost(owner),
        Ghost(va),
        Ghost(0),
    );
    let ghost m1 = memory.words();
    let ghost f1 = memory.frames();
    let ghost r1 = firmware.requests();
    proof {
        if frames_ok(f1) {
            lemma_walk_owned(m1, f1, pml4, o1@, va, 1);
            lemma_wf_facts(m1, f1, pml4, o1@);
            lemma_frame_good(f1, page_directory_pointer_table);
        }
    }
    let a3 = entry_address(page_directory_pointer_table, page_directory_pointer_table_i);
    let (page_directory, o2) = ensure_table(
        firmware,
        memory,
        a3,
        Ghost(pml4),
        o1,
        Ghost(va),
        Ghost(1),
    );
    let ghost m2 = memory.words();
    let ghost f2 = memory.frames();
    let ghost r2 = firmware.requests();
    proof {
        if frames_ok(f2) {
            lemma_frames_prefix(f1, f2);
            lemma_walk_owned(m2, f2, pml4, o2@, va, 2);
            lemma_wf_facts(m2, f2, pml4, o2@);
            lemma_frame_good(f2, page_directory);
        }
    }
    let page_directory_entry = entry_address(page_directory, page_directory_i);
    let e = memory.read(page_directory_entry);
    proof {
        lemma_entry_masks(e);
    }
    let mut o3 = o2;
    if e & HUGE != 0 {
        let base_2mb = e & !HUGE_PAGE_OFFSET_MASK;
        let page_table = alloc_page(firmware, memory);
        let ghost ma = memory.words();
        fill_split_table(memory, page_table, base_2mb);
        let ghost mb = memory.words();
        proof {
            lemma_writable_bits(page_table);
        }
        memory.write(page_directory_entry, page_table | PRESENT | WRITABLE);
        let ghost fs = memory.frames();
        o3 = Ghost(o2@.insert(page_table, o2@[page_directory].push(page_directory_i as int)));
        proof {
            lemma_extend_push(f2, page_table);
            if frames_aligned(fs) {
                assert(fs[f2.len() as int] == page_table);
                lemma_table_entry(page_table);
            }
            if frames_ok(fs) {
                lemma_frames_push(f2, page_table);
                lemma_frames_prefix(f1, f2);
                lemma_split_step(m2, ma, mb, f2, pml4, o2@, page_directory, page_table, va);
                lemma_walk_owned(m2, f2, pml4, o2@, va, 2);
                lemma_wf_facts(m2, f2, pml4, o2@);
                lemma_frame_good(f2, page_directory);
                lemma_table_entry(page_table);
                assert(memory.words() == mb.insert(
                    slot(page_directory, page_directory_i as int) as u64,
                    (page_table + 3) as u64,
                ));
            }
        }
    }
    let ghost m3 = memory.words();
    let ghost f3 = memory.frames();
    let ghost r3 = firmware.requests();
    proof {
        if e & HUGE == 0 {
            lemma_requests_none(r2, f2);
        }
    }
    proof {
        lemma_extend_push(f3, 0);
        if frames_ok(f3) {
            lemma_frames_prefix(f2, f3);
            lemma_frames_prefix(f1, f2);
        }
    }
    let (page_table, o4) = ensure_table(
        firmware,
        memory,
        page_directory_entry,
        Ghost(pml4),
        o3,
        Ghost(va),
        Ghost(2),
    );
    let ghost m4 = memory.words();
    let ghost f4 = memory.frames();
    let ghost r4 = firmware.requests();
    proof {
        if frames_ok(f4) {
            lemma_walk_owned(m4, f4, pml4, o4@, va, 3);
            lemma_wf_facts(m4, f4, pml4, o4@);
            lemma_frame_good(f4, page_table);
        }
    }
    let leaf = entry_address(page_table, page_table_i);
    proof {
        lemma_writable_bits(physical_address);
    }
    memory.write(leaf, physical_address | PRESENT | WRITABLE);
    proof {
        if frames_aligned(f4) && physical_address % 0x1000 == 0 {
            lemma_table_entry(physical_address);
            lemma_aligned_prefix(f3, f4);
            lemma_aligned_prefix(f2, f3);
            lemma_aligned_prefix(f1, f2);
        }
        lemma_extend_trans(f0, f1, f2);
        lemma_extend_trans(f0, f2, f3);
        lemma_extend_trans(f0, f3, f4);
        lemma_requests_chain(r0, f0, r1, f1, r2, f2);
        lemma_requests_chain(r0, f0, r2, f2, r3, f3);
        lemma_requests_chain(r0, f0, r3, f3, r4, f4);
        if frames_ok(memory.frames()) {
            lemma_frames_prefix(f3, f4);
            lemma_frames_prefix(f2, f3);
            lemma_frames_prefix(f1, f2);
            lemma_frames_prefix(f0, f1);
            lemma_leaf_entry(physical_address);
            lemma_set_leaf(m4, f4, pml4, o4@, page_table, physical_address | PRESENT | WRITABLE, va);
        }
    }
    o4
}

/// Allocates the PML4 and the tables that map the first 4 GiB to themselves
/// in 2 MiB pages. Returns the PML4 with the shape of the tree of tables,
/// which `map_4kb` takes.
pub fn build_identity_map<F: FirmwareInterface>(
    firmware: &mut Firmware<F>,
    memory: &mut PhysicalMemory,
) -> (res: (u64, Ghost<Map<u64, Seq<int>>>))
    ensures
        all_writable(old(memory).words()) ==> all_writable(final(memory).words()),
        frames_aligned(final(memory).frames()) ==> (all_flags_exact(old(memory).words())
            ==> all_flags_exact(final(memory).words())),
        frames_extend(old(memory).frames(), final(memory).frames()),
        requests_follow(
            old(firmware).requests(),
            old(memory).frames(),
            final(firmware).requests(),
            final(memory).frames(),
        ),
        final(memory).frames().len() > old(memory).frames().len(),
        final(memory).frames()[old(memory).frames().len() as int] == res.0,
        frames_ok(final(memory).frames()) ==> {
            &&& tables_wf(final(memory).words(), final(memory).frames(), res.0, res.1@)
            &&& forall|va: u64| #[trigger]
                translate(final(memory).words(), res.0, va) == identity_map(va)
        },
{
    let ghost f0 = memory.frames();
    let ghost r0 = firmware.requests();
    let page_map_level_4 = alloc_page(firmware, memory);
    let ghost m1 = memory.words();
    let ghost f1 = memory.frames();
    let ghost r1 = firmware.requests();
    let page_directory_pointer_table = alloc_page(firmware, memory);
    let ghost m2 = memory.words();
    let ghost f2 = memory.frames();
    proof {
        lemma_extend_push(f0, page_map_level_4);
        lemma_extend_push(f1, page_directory_pointer_table);
        lemma_requests_chain(r0, f0, r1, f1, firmware.requests(), f2);
        assert(f2[f0.len() as int] == f1[f0.len() as int]);
    }
    let a = entry_address(page_map_level_4, 0);
    proof {
        lemma_writable_bits(page_directory_pointer_table);
    }
    memory.write(a, page_directory_pointer_table | PRESENT | WRITABLE);
    proof {
        if frames_aligned(f2) {
            assert(f2[f1.len() as int] == page_directory_pointer_table);
            lemma_table_entry(page_directory_pointer_table);
        }
    }
    let ghost pml4 = page_map_level_4;
    let ghost pdpt = page_directory_pointer_table;
    let ghost owner0 = map![pml4 => Seq::<int>::empty()];
    let ghost mut owner = owner0.insert(pdpt, seq![0int]);
    proof {
        lemma_extend_push(f0, pml4);
        lemma_extend_push(f1, pdpt);
        lemma_extend_trans(f0, f1, f2);
        lemma_extend_push(f2, 0);
        if frames_ok(f2) {
            lemma_frames_push(f1, pdpt);
            lemma_frames_push(f0, pml4);
            assert(f1.contains(pml4)) by {
                assert(f1[f0.len() as int] == pml4);
            }
            assert forall|j: int| 0 <= j < 512 implies #[trigger] word(m1, slot(pml4, j)) == 0 by {
                assert(pml4 <= slot(pml4, j) < pml4 + 0x1000 && (slot(pml4, j) - pml4) % 8 == 0);
            }
            lemma_wf_root(m1, f1, pml4);
            lemma_page_outside_tree(m1, m2, f1, f2, pml4, owner0, pdpt);
            assert(f2.contains(pdpt)) by {
                assert(f2[f1.len() as int] == pdpt);
            }
            assert forall|j: int| 0 <= j < 512 implies #[trigger] word(m2, slot(pdpt, j)) == 0 by {
                assert(pdpt <= slot(pdpt, j) < pdpt + 0x1000 && (slot(pdpt, j) - pdpt) % 8 == 0);
            }
            assert(word(m2, slot(pml4, 0)) == 0) by {
                lemma_outside_page(pml4, 0, pdpt);
            }
            lemma_table_entry(pdpt);
            assert(f2.contains(pml4)) by {
                assert(f2[f0.len() as int] == pml4);
            }
            lemma_frame_good(f2, pml4);
            lemma_frame_good(f2, pdpt);
            lemma_attach(m2, f2, pml4, owner0, pml4, 0, pdpt);
            assert(memory.words() == m2.insert(slot(pml4, 0) as u64, (pdpt + 3) as u64));
            assert forall|k: int| 0 <= k < 512 implies #[trigger] word(memory.words(), slot(pdpt, k)) == 0 by {
                if slot(pdpt, k) == slot(pml4, 0) {
                    lemma_slot_injective(pdpt, k, pml4, 0);
                }
                assert(word(m2, slot(pdpt, k)) == 0);
            }
            assert forall|va: u64| #[trigger] translate(memory.words(), pml4, va) == identity_map_upto(0, 0, va) by {
                assert(translate(m2, pml4, va) == translate(m1, pml4, va));
            }
        }
    }
    let mut page_directory_pointer_table_i: usize = 0;
    while page_directory_pointer_table_i < 4
        invariant
            all_writable(old(memory).words()) ==> all_writable(memory.words()),
            frames_aligned(memory.frames()) ==> (all_flags_exact(old(memory).words())
                ==> all_flags_exact(memory.words())),
            0 <= page_directory_pointer_table_i <= 4,
            pml4 == page_map_level_4,
            pdpt == page_directory_pointer_table,
            frames_extend(f0, memory.frames()),
            frames_extend(f2, memory.frames()),
            requests_follow(r0, f0, firmware.requests(), memory.frames()),
            memory.frames().len() > f0.len(),
            memory.frames()[f0.len() as int] == pml4,
            frames_ok(memory.frames()) ==> {
                &&& tables_wf(memory.words(), memory.frames(), pml4, owner)
                &&& owner.contains_key(pdpt)
                &&& owner[pdpt] == seq![0int]
                &&& word(memory.words(), slot(pml4, 0)) == pdpt + 3
                &&& forall|k: int|
                    page_directory_pointer_table_i <= k < 512 ==> #[trigger] word(
                        memory.words(),
                        slot(pdpt, k),
                    ) == 0
                &&& forall|va: u64| #[trigger]
                    translate(memory.words(), pml4, va) == identity_map_upto(
                        page_directory_pointer_table_i as int,
                        0,
                        va,
                    )
            },
        decreases 4 - page_directory_pointer_table_i,
    {
        let ghost ma = memory.words();
        let ghost fa = memory.frames();
        let ghost ra = firmware.requests();
        let ghost i = page_directory_pointer_table_i as int;
        let page_directory = alloc_page(firmware, memory);
        let ghost mb = memory.words();
        let ghost fb = memory.frames();
        proof {
            lemma_extend_push(fa, page_directory);
            lemma_requests_chain(r0, f0, ra, fa, firmware.requests(), fb);
            assert(fb[f0.len() as int] == fa[f0.len() as int]);
        }
        let b = entry_address(page_directory_pointer_table, page_directory_pointer_table_i);
        proof {
            lemma_writable_bits(page_directory);
        }
        memory.write(b, page_directory | PRESENT | WRITABLE);
        proof {
            if frames_aligned(fb) {
                assert(fb[fa.len() as int] == page_directory);
                lemma_table_entry(page_directory);
                lemma_extend_push(fa, page_directory);
                lemma_aligned_prefix(fa, fb);
            }
        }
        let ghost pd = page_directory;
        let ghost owner_before = owner;
        proof {
            owner = owner.insert(pd, seq![0int, i]);
            lemma_extend_push(fa, pd);
            lemma_extend_trans(f0, fa, fb);
            lemma_extend_trans(f2, fa, fb);
            if frames_ok(fb) {
                lemma_frames_push(fa, pd);
                lemma_wf_facts(ma, fa, pml4, owner_before);
                lemma_frame_good(fa, pml4);
                lemma_frame_good(fa, pdpt);
                lemma_page_outside_tree(ma, mb, fa, fb, pml4, owner_before, pd);
                assert(fb.contains(pd)) by {
                    assert(fb[fa.len() as int] == pd);
                }
                assert(!owner_before.contains_key(pd));
                assert forall|j: int| 0 <= j < 512 implies #[trigger] word(mb, slot(pd, j)) == 0 by {
                    assert(pd <= slot(pd, j) < pd + 0x1000 && (slot(pd, j) - pd) % 8 == 0);
                }
                assert forall|k: int| 0 <= k < 512 implies #[trigger] word(mb, slot(pdpt, k)) == word(ma, slot(pdpt, k)) by {
                    lemma_outside_page(pdpt, k, pd);
                }
                assert(word(mb, slot(pml4, 0)) == pdpt + 3) by {
                    lemma_outside_page(pml4, 0, pd);
                }
                assert(word(mb, slot(pdpt, i)) == 0);
                lemma_table_entry(pd);
                lemma_attach(mb, fb, pml4, owner_before, pdpt, i, pd);
                assert(seq![0int].push(i) == seq![0int, i]);
                assert(memory.words() == mb.insert(slot(pdpt, i) as u64, (pd + 3) as u64));
                if slot(pdpt, i) == slot(pml4, 0) {
                    lemma_slot_injective(pdpt, i, pml4, 0);
                }
                assert forall|k: int| i < k < 512 implies #[trigger] word(memory.words(), slot(pdpt, k)) == 0 by {
                    if slot(pdpt, k) == slot(pdpt, i) {
                        lemma_slot_injective(pdpt, k, pdpt, i);
                    }
                    assert(word(mb, slot(pdpt, k)) == word(ma, slot(pdpt, k)));
                }
                assert(owner.contains_key(pdpt) && owner[pdpt] == seq![0int]);
            }
        }
        let mut page_directory_i: usize = 0;
        while page_directory_i < PAGE_TABLE_ENTRY_COUNT
            invariant
                all_writable(old(memory).words()) ==> all_writable(memory.words()),
                frames_aligned(fb) ==> (all_flags_exact(old(memory).words()) ==> all_flags_exact(
                    memory.words(),
                )),
                0 <= page_directory_i <= 512,
                0 <= i < 4,
                i == page_directory_pointer_table_i,
                pml4 == page_map_level_4,
                pdpt == page_directory_pointer_table,
                pd == page_directory,
                memory.frames() == fb,
                frames_extend(f0, fb),
                frames_extend(f2, fb),
                requests_follow(r0, f0, firmware.requests(), fb),
                fb.len() > f0.len(),
                fb[f0.len() as int] == pml4,
                frames_ok(fb) ==> {
                    &&& tables_wf(memory.words(), fb, pml4, owner)
                    &&& owner.contains_key(pdpt)
                    &&& owner[pdpt] == seq![0int]
                    &&& owner.contains_key(pd)
                    &&& owner[pd] == seq![0int, i]
                    &&& word(memory.words(), slot(pml4, 0)) == pdpt + 3
                    &&& word(memory.words(), slot(pdpt, i)) == pd + 3
                    &&& forall|k: int|
                        i < k < 512 ==> #[trigger] word(memory.words(), slot(pdpt, k)) == 0
                    &&& forall|va: u64| #[trigger]
                        translate(memory.words(), pml4, va) == identity_map_upto(
                            i,
                            page_directory_i as int,
                            va,
                        )
                },
            decreases 512 - page_directory_i,
        {
            let physical_address = page_directory_pointer_table_i as u64 * PDPT_SPAN
                + page_directory_i as u64 * HUGE_PAGE_SIZE;
            let c = entry_address(page_directory, page_directory_i);
            let ghost mc = memory.words();
            proof {
                lemma_writable_bits(physical_address);
                assert(physical_address % 0x20_0000 == 0) by (nonlinear_arith)
                    requires
                        physical_address == i * 0x4000_0000 + page_directory_i * 0x20_0000,
                ;
                lemma_huge_entry(physical_address);
            }
            memory.write(c, physical_address | PRESENT | WRITABLE | HUGE);
            proof {
                if frames_ok(fb) {
                    lemma_identity_entry(mc, fb, pml4, pdpt, pd, owner, i, page_directory_i as int);
                    lemma_wf_facts(mc, fb, pml4, owner);
                    lemma_frame_good(fb, pd);
                    assert(c == slot(pd, page_directory_i as int));
                    assert forall|k: int| i < k < 512 implies #[trigger] word(memory.words(), slot(pdpt, k)) == 0 by {
                        assert(word(memory.words(), slot(pdpt, k)) == word(mc, slot(pdpt, k)));
                    }
                }
            }
            page_directory_i = page_directory_i + 1;
        }
        proof {
            if frames_ok(fb) {
                assert forall|va: u64| #[trigger] translate(memory.words(), pml4, va) == identity_map_upto(i + 1, 0, va) by {
                    assert(translate(memory.words(), pml4, va) == identity_map_upto(i, 512, va));
                }
                assert forall|k: int| i + 1 <= k < 512 implies #[trigger] word(memory.words(), slot(pdpt, k)) == 0 by {
                    assert(i < k);
                }
            }
        }
        page_directory_pointer_table_i = page_directory_pointer_table_i + 1;
    }
    proof {
        if frames_ok(memory.frames()) {
            assert forall|va: u64| #[trigger] translate(memory.words(), pml4, va) == identity_map(va) by {
                assert(translate(memory.words(), pml4, va) == identity_map_upto(4, 0, va));
            }
        }
    }
    (page_map_level_4, Ghost(owner))
}

/// Builds the page tables the kernel starts with: the first 4 GiB mapped to
/// themselves in 2 MiB pages, and every page of every mapping, in order,
/// mapped in 4 KiB pages on top (a later page wins over an earlier one, and
/// over the identity map). Returns the physical address of the PML4.
///
/// The tables are written to `memory`; what they map is stated for runs in
/// which the firmware handed out distinct, 4 KiB-aligned pages below 2^52
/// (`frames_ok`), as page tables require.
pub fn build_page_tables<F: FirmwareInterface>(
    firmware: &mut Firmware<F>,
    memory: &mut PhysicalMemory,
    mappings: &[SegmentMapping],
) -> (page_map_level_4: u64)
    requires
        mappings_fit(mappings@),
    ensures
        all_writable(old(memory).words()) ==> all_writable(final(memory).words()),
        frames_extend(old(memory).frames(), final(memory).frames()),
        requests_follow(
            old(firmware).requests(),
            old(memory).frames(),
            final(firmware).requests(),
            final(memory).frames(),
        ),
        final(memory).frames().len() > old(memory).frames().len(),
        final(memory).frames()[old(memory).frames().len() as int] == page_map_level_4,
        all_writable(old(memory).words()) ==> forall|va: u64|
            #[trigger] translate(final(memory).words(), page_map_level_4, va) is Some
                ==> walk_writable(final(memory).words(), page_map_level_4, va),
        frames_aligned(final(memory).frames()) && mappings_aligned(mappings@) ==> (
        all_flags_exact(old(memory).words()) ==> all_flags_exact(final(memory).words())),
        frames_aligned(final(memory).frames()) && mappings_aligned(mappings@) && all_flags_exact(
            old(memory).words(),
        ) ==> forall|va: u64|
            #[trigger] translate(final(memory).words(), page_map_level_4, va) is Some
                ==> walk_flags_exact(final(memory).words(), page_map_level_4, va),
        frames_ok(final(memory).frames()) ==> forall|va: u64| #[trigger]
            translate(final(memory).words(), page_map_level_4, va) == mapped_address(
                mappings@,
                va,
            ),
{
    let ghost f0 = memory.frames();
    let ghost r0 = firmware.requests();
    let (page_map_level_4, owner0) = build_identity_map(firmware, memory);
    let ghost mut owner = owner0@;
    let ghost pml4 = page_map_level_4;
    proof {
        if frames_ok(memory.frames()) {
            assert forall|va: u64| #[trigger] translate(memory.words(), pml4, va) == mapped_address(
                mappings@.take(0),
                va,
            ) by {
                assert(mappings@.take(0).len() == 0);
            }
        }
    }
    let mut mi: usize = 0;
    while mi < mappings.len()
        invariant
            all_writable(old(memory).words()) ==> all_writable(memory.words()),
            frames_aligned(memory.frames()) && mappings_aligned(mappings@) ==> (all_flags_exact(
                old(memory).words(),
            ) ==> all_flags_exact(memory.words())),
            mi <= mappings@.len(),
            mappings_fit(mappings@),
            pml4 == page_map_level_4,
            frames_extend(f0, memory.frames()),
            requests_follow(r0, f0, firmware.requests(), memory.frames()),
            memory.frames().len() > f0.len(),
            memory.frames()[f0.len() as int] == page_map_level_4,
            frames_ok(memory.frames()) ==> {
                &&& tables_wf(memory.words(), memory.frames(), pml4, owner)
                &&& forall|va: u64| #[trigger]
                    translate(memory.words(), pml4, va) == mapped_address(
                        mappings@.take(mi as int),
                        va,
                    )
            },
        decreases mappings@.len() - mi,
    {
        let mapping = mappings[mi];
        assert(mappings@[mi as int] == mapping);
        let mut i: usize = 0;
        while i < mapping.pages
            invariant
                all_writable(old(memory).words()) ==> all_writable(memory.words()),
                frames_aligned(memory.frames()) && mappings_aligned(mappings@) ==> (
                all_flags_exact(old(memory).words()) ==> all_flags_exact(memory.words())),
                mi < mappings@.len(),
                mapping == mappings@[mi as int],
                mappings_fit(mappings@),
                i <= mapping.pages,
                pml4 == page_map_level_4,
                frames_extend(f0, memory.frames()),
                requests_follow(r0, f0, firmware.requests(), memory.frames()),
                memory.frames().len() > f0.len(),
                memory.frames()[f0.len() as int] == page_map_level_4,
                frames_ok(memory.frames()) ==> {
                    &&& tables_wf(memory.words(), memory.frames(), pml4, owner)
                    &&& forall|va: u64| #[trigger]
                        translate(memory.words(), pml4, va) == match lookup_pages(
                            mapping,
                            va,
                            i as int,
                        ) {
                            Some(pa) => Some(pa),
                            None => mapped_address(mappings@.take(mi as int), va),
                        }
                },
            decreases mapping.pages - i,
        {
            assert(mapping.pages > 0);
            assert(mapping.virtual_page_base + i * 0x1000 < 0x1_0000_0000_0000_0000);
            assert(mapping.physical_base_address + i * 0x1000 < 0x1_0000_0000_0000_0000);
            let virtual_address = mapping.virtual_page_base + i as u64 * PAGE_SIZE;
            let physical_address = mapping.physical_base_address + i as u64 * PAGE_SIZE;
            let ghost m_before = memory.words();
            let ghost f_before = memory.frames();
            let ghost r_before = firmware.requests();
            let o = map_4kb(
                firmware,
                memory,
                page_map_level_4,
                virtual_address,
                physical_address,
                Ghost(owner),
            );
            proof {
                owner = o@;
                if frames_aligned(memory.frames()) && mappings_aligned(mappings@) {
                    lemma_aligned_prefix(f_before, memory.frames());
                    assert(mapping.physical_base_address % 0x1000 == 0);
                    assert(physical_address % 0x1000 == 0) by (nonlinear_arith)
                        requires
                            mapping.physical_base_address % 0x1000 == 0,
                            physical_address == mapping.physical_base_address + i * 0x1000,
                    ;
                }
                lemma_extend_trans(f0, f_before, memory.frames());
                lemma_requests_chain(r0, f0, r_before, f_before, firmware.requests(), memory.frames());
                reveal(frames_extend);
                if frames_ok(memory.frames()) {
                    lemma_frames_prefix(f_before, memory.frames());
                    assert(page_virtual(mapping, i as int) == virtual_address);
                    assert(page_physical(mapping, i as int) == physical_address);
                    assert forall|va: u64| #[trigger] translate(memory.words(), pml4, va) == match lookup_pages(
                        mapping,
                        va,
                        i + 1,
                    ) {
                        Some(pa) => Some(pa),
                        None => mapped_address(mappings@.take(mi as int), va),
                    } by {
                        assert(translate(memory.words(), pml4, va) == if same_page(va, virtual_address) {
                            Some(physical_address - physical_address % 0x1000 + va % 0x1000)
                        } else {
                            translate(m_before, pml4, va)
                        });
                    }
                }
            }
            i = i + 1;
        }
        proof {
            if frames_ok(memory.frames()) {
                let next = mappings@.take(mi + 1);
                assert(next.last() == mapping);
                assert(next.drop_last() =~= mappings@.take(mi as int));
                assert forall|va: u64| #[trigger] translate(memory.words(), pml4, va) == mapped_address(
                    next,
                    va,
                ) by {
                    assert(next.len() > 0);
                }
            }
        }
        mi = mi + 1;
    }
    proof {
        assert(mappings@.take(mappings@.len() as int) =~= mappings@);
    }
    proof {
        if frames_aligned(memory.frames()) && mappings_aligned(mappings@) && all_flags_exact(
            old(memory).words(),
        ) {
            assert forall|va: u64| #[trigger]
                translate(memory.words(), page_map_level_4, va) is Some implies walk_flags_exact(
                memory.words(),
                page_map_level_4,
                va,
            ) by {
                lemma_walk_flags_exact(memory.words(), page_map_level_4, va);
            }
        }
        if all_writable(old(memory).words()) {
            assert forall|va: u64| #[trigger]
                translate(memory.words(), page_map_level_4, va) is Some implies walk_writable(
                memory.words(),
                page_map_level_4,
                va,
            ) by {
                lemma_walk_writable(memory.words(), page_map_level_4, va);
            }
        }
    }
    page_map_level_4
}

} // verus!
