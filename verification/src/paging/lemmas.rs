//! The proofs behind the page-table contracts: how writes to the tables
//! move the walk, and why the tree of tables stays well formed.
use vstd::prelude::*;
use super::{word, present, huge, table_address, huge_base, slot, pml4_index, pdpt_index, pd_index, pt_index, level_index, table_at, entry_at, reaches, translate, path_of, good_frame, frames_ok, owns_child, tables_wf, same_page, frames_extend, identity_map_upto, PRESENT, WRITABLE, HUGE, PAGE_TABLE_INDEX_MASK, PML4_SHIFT, PDPT_SHIFT, PD_SHIFT, PT_SHIFT, HUGE_PAGE_OFFSET_MASK, PAGE_OFFSET_MASK};

verus! {

pub(crate) proof fn lemma_frame_good(frames: Seq<u64>, t: u64)
    requires
        frames_ok(frames),
        frames.contains(t),
    ensures
        good_frame(t),
{
    reveal(reaches);
    reveal(table_at);
    reveal(frames_ok);
    let i = choose|i: int| 0 <= i < frames.len() && frames[i] == t;
    assert(good_frame(frames[i]));
}

/// What a well-formed tree says of its root and its tables' pages.
pub(crate) proof fn lemma_wf_facts(m: Map<u64, u64>, frames: Seq<u64>, pml4: u64, owner: Map<u64, Seq<int>>)
    requires
        tables_wf(m, frames, pml4, owner),
    ensures
        owner.contains_key(pml4),
        owner[pml4] == Seq::<int>::empty(),
        frames.contains(pml4),
        forall|t: u64| #[trigger] owner.contains_key(t) ==> frames.contains(t) && owner[t].len() <= 3,
{
    reveal(reaches);
    reveal(table_at);
    reveal(tables_wf);
}

/// Entries of distinct tables live at distinct addresses.
pub(crate) proof fn lemma_slot_injective(t: u64, k: int, u: u64, j: int)
    requires
        t % 0x1000 == 0,
        u % 0x1000 == 0,
        0 <= k < 512,
        0 <= j < 512,
        slot(t, k) == slot(u, j),
    ensures
        t == u,
        k == j,
{
    reveal(reaches);
    reveal(table_at);
    assert(t == u) by (nonlinear_arith)
        requires
            t % 0x1000 == 0,
            u % 0x1000 == 0,
            0 <= k < 512,
            0 <= j < 512,
            t + 8 * k == u + 8 * j,
    ;
}

/// Under a well-formed tree, the table the walk for `va` consults at each
/// level it reaches is the one owned by the path of `va` down to that level.
pub(crate) proof fn lemma_walk_owned(
    m: Map<u64, u64>,
    frames: Seq<u64>,
    pml4: u64,
    owner: Map<u64, Seq<int>>,
    va: u64,
    level: int,
)
    requires
        tables_wf(m, frames, pml4, owner),
        0 <= level <= 3,
        reaches(m, pml4, va, level),
    ensures
        owner.contains_key(table_at(m, pml4, va, level)),
        owner[table_at(m, pml4, va, level)] == path_of(va, level),
    decreases level,
{
    reveal(reaches);
    reveal(table_at);
    reveal(tables_wf);
    if level == 0 {
        assert(path_of(va, 0) =~= Seq::<int>::empty());
    } else {
        lemma_walk_owned(m, frames, pml4, owner, va, level - 1);
        let t = table_at(m, pml4, va, level - 1);
        let k = level_index(va, level - 1);
        assert(0 <= k < 512);
        assert(owns_child(m, owner, t, k));
        assert(path_of(va, level - 1).push(k) =~= path_of(va, level));
    }
}

/// Two memories that agree on every entry the walk for `va` reads translate
/// `va` alike.
pub(crate) proof fn lemma_translate_agree(m: Map<u64, u64>, m2: Map<u64, u64>, pml4: u64, va: u64)
    requires
        forall|l: int|
            0 <= l <= 3 && #[trigger] reaches(m, pml4, va, l) ==> word(
                m2,
                slot(table_at(m, pml4, va, l), level_index(va, l)),
            ) == word(m, slot(table_at(m, pml4, va, l), level_index(va, l))),
    ensures
        translate(m2, pml4, va) == translate(m, pml4, va),
        forall|l: int| 0 <= l <= 3 ==> #[trigger] reaches(m2, pml4, va, l) == reaches(m, pml4, va, l),
        forall|l: int|
            0 <= l <= 3 && reaches(m, pml4, va, l) ==> #[trigger] table_at(m2, pml4, va, l)
                == table_at(m, pml4, va, l) && entry_at(m2, pml4, va, l) == entry_at(m, pml4, va, l),
{
    reveal(reaches);
    reveal(table_at);
    reveal(translate);
    assert(reaches(m, pml4, va, 0));
    if present(entry_at(m, pml4, va, 0)) {
        assert(reaches(m, pml4, va, 1));
        if present(entry_at(m, pml4, va, 1)) {
            assert(reaches(m, pml4, va, 2));
            if present(entry_at(m, pml4, va, 2)) && !huge(entry_at(m, pml4, va, 2)) {
                assert(reaches(m, pml4, va, 3));
            }
        }
    }
}

/// Writing a word that the walk for `va` does not read leaves `va`'s
/// translation as it was.
pub(crate) proof fn lemma_write_elsewhere(
    m: Map<u64, u64>,
    pml4: u64,
    va: u64,
    a: u64,
    v: u64,
)
    requires
        forall|l: int|
            0 <= l <= 3 && #[trigger] reaches(m, pml4, va, l) ==> slot(
                table_at(m, pml4, va, l),
                level_index(va, l),
            ) != a,
    ensures
        translate(m.insert(a, v), pml4, va) == translate(m, pml4, va),
        forall|l: int|
            0 <= l <= 3 ==> #[trigger] reaches(m.insert(a, v), pml4, va, l) == reaches(
                m,
                pml4,
                va,
                l,
            ),
        forall|l: int|
            0 <= l <= 3 && reaches(m, pml4, va, l) ==> #[trigger] table_at(m.insert(a, v), pml4, va, l)
                == table_at(m, pml4, va, l) && entry_at(m.insert(a, v), pml4, va, l) == entry_at(m, pml4, va, l),
{
    reveal(reaches);
    reveal(table_at);
    let m2 = m.insert(a, v);
    assert forall|l: int| 0 <= l <= 3 && #[trigger] reaches(m, pml4, va, l) implies word(
        m2,
        slot(table_at(m, pml4, va, l), level_index(va, l)),
    ) == word(m, slot(table_at(m, pml4, va, l), level_index(va, l))) by {}
    lemma_translate_agree(m, m2, pml4, va);
}

/// The bit patterns the loader writes, read back through the spec's view of
/// entries.
pub(crate) proof fn lemma_table_entry(f: u64)
    requires
        f % 0x1000 == 0,
    ensures
        f | PRESENT | WRITABLE == f + 3,
        present((f + 3) as u64),
        !huge((f + 3) as u64),
        (f + 3) as u64 % 0x1000 == 3,
        table_address((f + 3) as u64) == f,
{
    reveal(reaches);
    reveal(table_at);
    assert(f | 1u64 | 2u64 == f + 3) by (bit_vector)
        requires
            f % 0x1000 == 0,
    ;
    assert(((f + 3) as u64 / 0x80) % 2 == 0) by (bit_vector)
        requires
            f % 0x1000 == 0,
    ;
    assert((f + 3) as u64 % 0x1000 == 3) by (bit_vector)
        requires
            f % 0x1000 == 0,
    ;
}

/// A 2 MiB identity entry as the loader writes it.
pub(crate) proof fn lemma_huge_entry(pa: u64)
    requires
        pa % 0x20_0000 == 0,
    ensures
        pa | PRESENT | WRITABLE | HUGE == pa + 0x83,
        present((pa + 0x83) as u64),
        huge((pa + 0x83) as u64),
        huge_base((pa + 0x83) as u64) == pa,
        (pa + 0x83) as u64 % 0x20_0000 == 0x83,
{
    reveal(reaches);
    reveal(table_at);
    assert(pa | 1u64 | 2u64 | 0x80u64 == pa + 0x83) by (bit_vector)
        requires
            pa % 0x20_0000 == 0,
    ;
    assert(((pa + 0x83) as u64 / 0x80) % 2 == 1) by (bit_vector)
        requires
            pa % 0x20_0000 == 0,
    ;
    assert((pa + 0x83) as u64 % 0x20_0000 == 0x83) by (bit_vector)
        requires
            pa % 0x20_0000 == 0,
    ;
}

/// A leaf entry for any physical address.
pub(crate) proof fn lemma_leaf_entry(pa: u64)
    ensures
        present(pa | PRESENT | WRITABLE),
        table_address(pa | PRESENT | WRITABLE) == pa - pa % 0x1000,
{
    reveal(reaches);
    reveal(table_at);
    assert((pa | 1u64 | 2u64) % 2 == 1) by (bit_vector);
    assert((pa | 1u64 | 2u64) - (pa | 1u64 | 2u64) % 0x1000 == pa - pa % 0x1000) by (bit_vector);
}

/// The masks the code tests entries with, in the spec's terms.
pub(crate) proof fn lemma_entry_masks(e: u64)
    ensures
        (e & PRESENT == 0) == !present(e),
        (e & HUGE != 0) == huge(e),
        e & !PAGE_OFFSET_MASK == table_address(e),
        e & !HUGE_PAGE_OFFSET_MASK == huge_base(e),
        e & !HUGE_PAGE_OFFSET_MASK <= 0xFFFF_FFFF_FFE0_0000,
        (e & !HUGE_PAGE_OFFSET_MASK) % 0x20_0000 == 0,
{
    reveal(reaches);
    reveal(table_at);
    assert((e & 1u64 == 0) == (e % 2 == 0)) by (bit_vector);
    assert((e & 0x80u64 != 0) == ((e / 0x80) % 2 == 1)) by (bit_vector);
    assert(e & !0xFFFu64 == e - e % 0x1000) by (bit_vector);
    assert(e & !0x1FFFFFu64 == e - e % 0x20_0000) by (bit_vector);
    assert(e & !0x1FFFFFu64 <= 0xFFFF_FFFF_FFE0_0000u64) by (bit_vector);
    assert((e & !0x1FFFFFu64) % 0x20_0000 == 0) by (bit_vector);
}

/// The indices the code extracts with shifts and masks.
pub(crate) proof fn lemma_indices(va: u64)
    ensures
        (va >> PML4_SHIFT) & PAGE_TABLE_INDEX_MASK == pml4_index(va),
        (va >> PDPT_SHIFT) & PAGE_TABLE_INDEX_MASK == pdpt_index(va),
        (va >> PD_SHIFT) & PAGE_TABLE_INDEX_MASK == pd_index(va),
        (va >> PT_SHIFT) & PAGE_TABLE_INDEX_MASK == pt_index(va),
{
    reveal(reaches);
    reveal(table_at);
    assert((va >> 39u64) & 0x1FFu64 == (va / 0x80_0000_0000) % 512) by (bit_vector);
    assert((va >> 30u64) & 0x1FFu64 == (va / 0x4000_0000) % 512) by (bit_vector);
    assert((va >> 21u64) & 0x1FFu64 == (va / 0x20_0000) % 512) by (bit_vector);
    assert((va >> 12u64) & 0x1FFu64 == (va / 0x1000) % 512) by (bit_vector);
}

/// Inside a 2 MiB page, the offset splits into the page-table index and the
/// offset within the 4 KiB page.
pub(crate) proof fn lemma_huge_offset(va: u64)
    ensures
        va % 0x20_0000 == pt_index(va) * 0x1000 + va % 0x1000,
{
    reveal(reaches);
    reveal(table_at);
    assert(va % 0x20_0000 == ((va / 0x1000) % 512) * 0x1000 + va % 0x1000) by (bit_vector);
}

pub(crate) proof fn lemma_frames_push(frames: Seq<u64>, f: u64)
    requires
        frames_ok(frames.push(f)),
    ensures
        frames_ok(frames),
        good_frame(f),
        !frames.contains(f),
{
    reveal(reaches);
    reveal(table_at);
    reveal(frames_ok);
    let s = frames.push(f);
    assert forall|i: int| 0 <= i < frames.len() implies #[trigger] good_frame(frames[i]) by {
        assert(s[i] == frames[i]);
        assert(good_frame(s[i]));
    }
    assert forall|i: int, j: int| 0 <= i < j < frames.len() implies frames[i] != frames[j] by {
        assert(s[i] == frames[i] && s[j] == frames[j]);
    }
    assert(good_frame(s[frames.len() as int]));
    if frames.contains(f) {
        let i = choose|i: int| 0 <= i < frames.len() && frames[i] == f;
        assert(s[i] == f && s[frames.len() as int] == f);
    }
}

/// Whichever way `va` is walked, either it never reads entry `k` of the
/// owned table `t`, or it reads it exactly at `t`'s own level.
pub(crate) proof fn lemma_reads_slot(
    m: Map<u64, u64>,
    frames: Seq<u64>,
    pml4: u64,
    owner: Map<u64, Seq<int>>,
    t: u64,
    k: int,
    va: u64,
)
    requires
        tables_wf(m, frames, pml4, owner),
        frames_ok(frames),
        owner.contains_key(t),
        0 <= k < 512,
    ensures
        (forall|l: int|
            0 <= l <= 3 && #[trigger] reaches(m, pml4, va, l) ==> slot(
                table_at(m, pml4, va, l),
                level_index(va, l),
            ) != slot(t, k)) || ({
            let n = owner[t].len() as int;
            &&& reaches(m, pml4, va, n)
            &&& table_at(m, pml4, va, n) == t
            &&& level_index(va, n) == k
            &&& path_of(va, n) == owner[t]
        }),
{
    reveal(reaches);
    reveal(table_at);
    reveal(tables_wf);
    lemma_frame_good(frames, t);
    if exists|l: int|
        0 <= l <= 3 && #[trigger] reaches(m, pml4, va, l) && slot(
            table_at(m, pml4, va, l),
            level_index(va, l),
        ) == slot(t, k) {
        let l = choose|l: int|
            0 <= l <= 3 && #[trigger] reaches(m, pml4, va, l) && slot(
                table_at(m, pml4, va, l),
                level_index(va, l),
            ) == slot(t, k);
        lemma_walk_owned(m, frames, pml4, owner, va, l);
        let u = table_at(m, pml4, va, l);
        lemma_frame_good(frames, u);
        assert(0 <= level_index(va, l) < 512);
        lemma_slot_injective(u, level_index(va, l), t, k);
        assert(path_of(va, l).len() == l);
    }
}

/// Two memories that agree on the entries the walk for `va` reads above
/// level `n` walk `va` alike down to level `n`.
pub(crate) proof fn lemma_walk_prefix(m: Map<u64, u64>, m2: Map<u64, u64>, pml4: u64, va: u64, n: int)
    requires
        0 <= n <= 3,
        forall|l: int|
            0 <= l < n && #[trigger] reaches(m, pml4, va, l) ==> word(
                m2,
                slot(table_at(m, pml4, va, l), level_index(va, l)),
            ) == word(m, slot(table_at(m, pml4, va, l), level_index(va, l))),
    ensures
        forall|l: int|
            0 <= l <= n && #[trigger] reaches(m, pml4, va, l) ==> reaches(m2, pml4, va, l)
                && table_at(m2, pml4, va, l) == table_at(m, pml4, va, l),
{
    reveal(reaches);
    reveal(table_at);
    assert(reaches(m, pml4, va, 0));
    if n >= 1 && present(entry_at(m, pml4, va, 0)) {
        assert(reaches(m, pml4, va, 1));
        if n >= 2 && present(entry_at(m, pml4, va, 1)) {
            assert(reaches(m, pml4, va, 2));
            if n >= 3 && present(entry_at(m, pml4, va, 2)) && !huge(entry_at(m, pml4, va, 2)) {
                assert(reaches(m, pml4, va, 3));
            }
        }
    }
}

/// A walk that reaches a level and finds its entry absent translates to nothing.
pub(crate) proof fn lemma_translate_stops(m: Map<u64, u64>, pml4: u64, va: u64, l: int)
    requires
        0 <= l <= 3,
        reaches(m, pml4, va, l),
        !present(entry_at(m, pml4, va, l)),
    ensures
        translate(m, pml4, va) == None::<int>,
{
    reveal(reaches);
    reveal(table_at);
    reveal(translate);
}

/// Writing entry `k` of an owned table keeps the tree well formed when the
/// new entry itself is.
pub(crate) proof fn lemma_wf_write(
    m: Map<u64, u64>,
    frames: Seq<u64>,
    pml4: u64,
    owner: Map<u64, Seq<int>>,
    t: u64,
    k: int,
    v: u64,
)
    requires
        tables_wf(m, frames, pml4, owner),
        frames_ok(frames),
        owner.contains_key(t),
        0 <= k < 512,
        owner[t].len() < 3 ==> owns_child(m.insert(slot(t, k) as u64, v), owner, t, k),
    ensures
        tables_wf(m.insert(slot(t, k) as u64, v), frames, pml4, owner),
{
    reveal(reaches);
    reveal(table_at);
    reveal(tables_wf);
    let m2 = m.insert(slot(t, k) as u64, v);
    lemma_frame_good(frames, t);
    assert forall|u: u64, j: int|
        owner.contains_key(u) && owner[u].len() < 3 && 0 <= j < 512 implies #[trigger] owns_child(
        m2,
        owner,
        u,
        j,
    ) by {
        if u != t || j != k {
            lemma_frame_good(frames, u);
            if slot(u, j) == slot(t, k) {
                lemma_slot_injective(u, j, t, k);
            }
            assert(word(m2, slot(u, j)) == word(m, slot(u, j)));
            assert(owns_child(m, owner, u, j));
        }
    }
}

/// A zeroed page joins the tree under the path `q`.
pub(crate) proof fn lemma_wf_adopt(
    m: Map<u64, u64>,
    frames: Seq<u64>,
    pml4: u64,
    owner: Map<u64, Seq<int>>,
    f: u64,
    q: Seq<int>,
)
    requires
        tables_wf(m, frames, pml4, owner),
        frames.contains(f),
        !owner.contains_key(f),
        q.len() <= 3,
        q.len() < 3 ==> forall|j: int| 0 <= j < 512 ==> #[trigger] word(m, slot(f, j)) == 0,
    ensures
        tables_wf(m, frames, pml4, owner.insert(f, q)),
{
    reveal(reaches);
    reveal(table_at);
    reveal(tables_wf);
    let o2 = owner.insert(f, q);
    assert forall|u: u64| #[trigger] o2.contains_key(u) implies frames.contains(u) && o2[u].len()
        <= 3 by {}
    assert forall|u: u64, j: int|
        o2.contains_key(u) && o2[u].len() < 3 && 0 <= j < 512 implies #[trigger] owns_child(
        m,
        o2,
        u,
        j,
    ) by {
        if u == f {
            assert(word(m, slot(f, j)) == 0);
        } else {
            assert(owns_child(m, owner, u, j));
        }
    }
}

/// Changes to memory outside the owned tables touch neither the tree nor
/// any translation.
pub(crate) proof fn lemma_wf_outside(
    m: Map<u64, u64>,
    m2: Map<u64, u64>,
    frames: Seq<u64>,
    frames2: Seq<u64>,
    pml4: u64,
    owner: Map<u64, Seq<int>>,
)
    requires
        tables_wf(m, frames, pml4, owner),
        forall|x: u64| frames.contains(x) ==> #[trigger] frames2.contains(x),
        forall|u: u64, j: int|
            owner.contains_key(u) && 0 <= j < 512 ==> #[trigger] word(m2, slot(u, j)) == word(
                m,
                slot(u, j),
            ),
    ensures
        tables_wf(m2, frames2, pml4, owner),
        forall|va: u64| #[trigger] translate(m2, pml4, va) == translate(m, pml4, va),
{
    reveal(reaches);
    reveal(table_at);
    reveal(tables_wf);
    assert forall|u: u64, j: int|
        owner.contains_key(u) && owner[u].len() < 3 && 0 <= j < 512 implies #[trigger] owns_child(
        m2,
        owner,
        u,
        j,
    ) by {
        assert(owns_child(m, owner, u, j));
        assert(word(m2, slot(u, j)) == word(m, slot(u, j)));
    }
    assert forall|u: u64| #[trigger] owner.contains_key(u) implies frames2.contains(u) && owner[u].len()
        <= 3 by {}
    assert forall|va: u64| #[trigger] translate(m2, pml4, va) == translate(m, pml4, va) by {
        assert forall|l: int| 0 <= l <= 3 && #[trigger] reaches(m, pml4, va, l) implies word(
            m2,
            slot(table_at(m, pml4, va, l), level_index(va, l)),
        ) == word(m, slot(table_at(m, pml4, va, l), level_index(va, l))) by {
            lemma_walk_owned(m, frames, pml4, owner, va, l);
            assert(0 <= level_index(va, l) < 512);
        }
        lemma_translate_agree(m, m2, pml4, va);
    }
}

/// Hanging a fresh, zeroed table `f` under the absent entry `k` of the owned
/// table `t` keeps the tree well formed and changes no translation.
pub(crate) proof fn lemma_attach(
    m: Map<u64, u64>,
    frames: Seq<u64>,
    pml4: u64,
    owner: Map<u64, Seq<int>>,
    t: u64,
    k: int,
    f: u64,
)
    requires
        tables_wf(m, frames, pml4, owner),
        frames_ok(frames),
        frames.contains(f),
        !owner.contains_key(f),
        forall|j: int| 0 <= j < 512 ==> #[trigger] word(m, slot(f, j)) == 0,
        owner.contains_key(t),
        owner[t].len() < 3,
        0 <= k < 512,
        !present(word(m, slot(t, k))),
    ensures
        tables_wf(
            m.insert(slot(t, k) as u64, (f + 3) as u64),
            frames,
            pml4,
            owner.insert(f, owner[t].push(k)),
        ),
        forall|va: u64|
            #[trigger] translate(m.insert(slot(t, k) as u64, (f + 3) as u64), pml4, va)
                == translate(m, pml4, va),
{
    reveal(reaches);
    reveal(table_at);
    reveal(tables_wf);
    let o2 = owner.insert(f, owner[t].push(k));
    let m2 = m.insert(slot(t, k) as u64, (f + 3) as u64);
    lemma_frame_good(frames, f);
    lemma_frame_good(frames, t);
    lemma_table_entry(f);
    lemma_wf_adopt(m, frames, pml4, owner, f, owner[t].push(k));
    assert(word(m2, slot(t, k)) == (f + 3) as u64);
    assert(owns_child(m2, o2, t, k));
    lemma_wf_write(m, frames, pml4, o2, t, k, (f + 3) as u64);
    assert forall|va: u64| #[trigger] translate(m2, pml4, va) == translate(m, pml4, va) by {
        lemma_reads_slot(m, frames, pml4, owner, t, k, va);
        let n = owner[t].len() as int;
        if forall|l: int|
            0 <= l <= 3 && #[trigger] reaches(m, pml4, va, l) ==> slot(
                table_at(m, pml4, va, l),
                level_index(va, l),
            ) != slot(t, k) {
            lemma_write_elsewhere(m, pml4, va, slot(t, k) as u64, (f + 3) as u64);
        } else {
            // the walk meets the absent entry at t's own level: nothing before, nothing after
            assert(word(m, slot(t, k)) == 0) by {
                assert(owns_child(m, owner, t, k));
            }
            lemma_translate_stops(m, pml4, va, n);
            assert forall|l: int| 0 <= l < n && #[trigger] reaches(m, pml4, va, l) implies word(
                m2,
                slot(table_at(m, pml4, va, l), level_index(va, l)),
            ) == word(m, slot(table_at(m, pml4, va, l), level_index(va, l))) by {
                lemma_walk_owned(m, frames, pml4, owner, va, l);
                let u = table_at(m, pml4, va, l);
                lemma_frame_good(frames, u);
                assert(0 <= level_index(va, l) < 512);
                if slot(u, level_index(va, l)) == slot(t, k) {
                    lemma_slot_injective(u, level_index(va, l), t, k);
                    assert(path_of(va, l).len() == l);
                }
            }
            lemma_walk_prefix(m, m2, pml4, va, n);
            assert(reaches(m2, pml4, va, n) && table_at(m2, pml4, va, n) == t);
            assert(entry_at(m2, pml4, va, n) == (f + 3) as u64);
            assert(reaches(m2, pml4, va, n + 1));
            assert(table_at(m2, pml4, va, n + 1) == f);
            let j = level_index(va, n + 1);
            assert(0 <= j < 512);
            if slot(f, j) == slot(t, k) {
                lemma_slot_injective(f, j, t, k);
            }
            assert(word(m, slot(f, j)) == 0);
            assert(0 <= slot(f, j) < 0x1_0000_0000_0000_0000);
            assert(word(m2, slot(f, j)) == word(m, slot(f, j)));
            assert(entry_at(m2, pml4, va, n + 1) == 0);
            lemma_translate_stops(m2, pml4, va, n + 1);
        }
    }
}

/// Writing entry `k` of the owned table `t` leaves the walk down to `t`
/// untouched for an address whose walk leads there.
pub(crate) proof fn lemma_walk_to_owned_survives(
    m: Map<u64, u64>,
    frames: Seq<u64>,
    pml4: u64,
    owner: Map<u64, Seq<int>>,
    t: u64,
    k: int,
    v: u64,
    va: u64,
)
    requires
        tables_wf(m, frames, pml4, owner),
        frames_ok(frames),
        owner.contains_key(t),
        0 <= k < 512,
        reaches(m, pml4, va, owner[t].len() as int),
        table_at(m, pml4, va, owner[t].len() as int) == t,
    ensures
        reaches(m.insert(slot(t, k) as u64, v), pml4, va, owner[t].len() as int),
        table_at(m.insert(slot(t, k) as u64, v), pml4, va, owner[t].len() as int) == t,
{
    reveal(reaches);
    reveal(table_at);
    reveal(tables_wf);
    let n = owner[t].len() as int;
    let m2 = m.insert(slot(t, k) as u64, v);
    lemma_frame_good(frames, t);
    assert forall|l: int| 0 <= l < n && #[trigger] reaches(m, pml4, va, l) implies word(
        m2,
        slot(table_at(m, pml4, va, l), level_index(va, l)),
    ) == word(m, slot(table_at(m, pml4, va, l), level_index(va, l))) by {
        lemma_walk_owned(m, frames, pml4, owner, va, l);
        let u = table_at(m, pml4, va, l);
        lemma_frame_good(frames, u);
        assert(0 <= level_index(va, l) < 512);
        if slot(u, level_index(va, l)) == slot(t, k) {
            lemma_slot_injective(u, level_index(va, l), t, k);
            assert(path_of(va, l).len() == l);
        }
    }
    lemma_walk_prefix(m, m2, pml4, va, n);
}

/// One address's view of `lemma_split`.
pub(crate) proof fn lemma_split_va(
    m: Map<u64, u64>,
    frames: Seq<u64>,
    pml4: u64,
    owner: Map<u64, Seq<int>>,
    t: u64,
    k: int,
    f: u64,
    va: u64,
)
    requires
        tables_wf(m, frames, pml4, owner),
        frames_ok(frames),
        frames.contains(f),
        !owner.contains_key(f),
        owner.contains_key(t),
        owner[t].len() == 2,
        0 <= k < 512,
        huge(word(m, slot(t, k))),
        forall|j: int|
            0 <= j < 512 ==> #[trigger] word(m, slot(f, j)) == huge_base(word(m, slot(t, k))) + j
                * 0x1000 + 3,
    ensures
        translate(m.insert(slot(t, k) as u64, (f + 3) as u64), pml4, va) == translate(m, pml4, va),
{
    reveal(reaches);
    reveal(table_at);
    reveal(translate);
    reveal(tables_wf);
    let e = word(m, slot(t, k));
    let base = huge_base(e);
    let m2 = m.insert(slot(t, k) as u64, (f + 3) as u64);
    lemma_frame_good(frames, f);
    lemma_frame_good(frames, t);
    lemma_table_entry(f);
    lemma_reads_slot(m, frames, pml4, owner, t, k, va);
    if forall|l: int|
        0 <= l <= 3 && #[trigger] reaches(m, pml4, va, l) ==> slot(
            table_at(m, pml4, va, l),
            level_index(va, l),
        ) != slot(t, k) {
        lemma_write_elsewhere(m, pml4, va, slot(t, k) as u64, (f + 3) as u64);
    } else {
        lemma_walk_to_owned_survives(m, frames, pml4, owner, t, k, (f + 3) as u64, va);
        assert(owns_child(m, owner, t, k));
        assert(present(e));
        assert(entry_at(m, pml4, va, 2) == e);
        assert(translate(m, pml4, va) == Some(base + va % 0x20_0000));
        assert(entry_at(m2, pml4, va, 2) == (f + 3) as u64);
        assert(table_at(m2, pml4, va, 3) == f);
        let j = pt_index(va);
        assert(0 <= j < 512);
        if slot(f, j) == slot(t, k) {
            lemma_slot_injective(f, j, t, k);
        }
        assert(word(m, slot(f, j)) == base + j * 0x1000 + 3);
        assert(0 <= slot(f, j) < 0x1_0000_0000_0000_0000);
        assert(word(m2, slot(f, j)) == word(m, slot(f, j)));
        assert(base % 0x20_0000 == 0 && 0 <= base);
        let pte = (base + j * 0x1000) as u64;
        assert(pte % 0x1000 == 0) by (nonlinear_arith)
            requires
                base % 0x20_0000 == 0,
                pte == base + j * 0x1000,
                0 <= j,
        ;
        lemma_table_entry(pte);
        assert(entry_at(m2, pml4, va, 3) == (pte + 3) as u64);
        lemma_huge_offset(va);
        assert(reaches(m2, pml4, va, 3));
        assert(translate(m2, pml4, va) == Some(pte + va % 0x1000));
    }
}

/// Replacing a 2 MiB entry of the page directory `t` by a page table `f`
/// whose 512 entries map the same 2 MiB in 4 KiB pages changes no
/// translation.
pub(crate) proof fn lemma_split(
    m: Map<u64, u64>,
    frames: Seq<u64>,
    pml4: u64,
    owner: Map<u64, Seq<int>>,
    t: u64,
    k: int,
    f: u64,
)
    requires
        tables_wf(m, frames, pml4, owner),
        frames_ok(frames),
        frames.contains(f),
        !owner.contains_key(f),
        owner.contains_key(t),
        owner[t].len() == 2,
        0 <= k < 512,
        huge(word(m, slot(t, k))),
        forall|j: int|
            0 <= j < 512 ==> #[trigger] word(m, slot(f, j)) == huge_base(word(m, slot(t, k))) + j
                * 0x1000 + 3,
    ensures
        tables_wf(
            m.insert(slot(t, k) as u64, (f + 3) as u64),
            frames,
            pml4,
            owner.insert(f, owner[t].push(k)),
        ),
        forall|va: u64|
            #[trigger] translate(m.insert(slot(t, k) as u64, (f + 3) as u64), pml4, va)
                == translate(m, pml4, va),
{
    reveal(reaches);
    reveal(table_at);
    reveal(tables_wf);
    let o2 = owner.insert(f, owner[t].push(k));
    let m2 = m.insert(slot(t, k) as u64, (f + 3) as u64);
    lemma_frame_good(frames, f);
    lemma_table_entry(f);
    lemma_wf_adopt(m, frames, pml4, owner, f, owner[t].push(k));
    assert(owns_child(m2, o2, t, k));
    lemma_wf_write(m, frames, pml4, o2, t, k, (f + 3) as u64);
    assert forall|va: u64| #[trigger] translate(m2, pml4, va) == translate(m, pml4, va) by {
        lemma_split_va(m, frames, pml4, owner, t, k, f, va);
    }
}

/// The addresses in `vk`'s page see the new page-table entry.
pub(crate) proof fn lemma_set_leaf_same(
    m: Map<u64, u64>,
    frames: Seq<u64>,
    pml4: u64,
    owner: Map<u64, Seq<int>>,
    t: u64,
    v: u64,
    vk: u64,
    va: u64,
)
    requires
        tables_wf(m, frames, pml4, owner),
        frames_ok(frames),
        reaches(m, pml4, vk, 3),
        table_at(m, pml4, vk, 3) == t,
        owner.contains_key(t),
        owner[t] == path_of(vk, 3),
        same_page(va, vk),
    ensures
        entry_at(m.insert(slot(t, pt_index(vk)) as u64, v), pml4, va, 3) == v,
        translate(m.insert(slot(t, pt_index(vk)) as u64, v), pml4, va) == if present(v) {
            Some(table_address(v) + va % 0x1000)
        } else {
            None
        },
{
    reveal(reaches);
    reveal(table_at);
    reveal(translate);
    reveal(tables_wf);
    let k = pt_index(vk);
    let m2 = m.insert(slot(t, k) as u64, v);
    assert(path_of(vk, 3).len() == 3);
    assert(reaches(m, pml4, va, 3));
    assert(table_at(m, pml4, va, 3) == t);
    lemma_walk_to_owned_survives(m, frames, pml4, owner, t, k, v, va);
    assert(entry_at(m2, pml4, va, 3) == v);
}

/// Addresses in different pages differ in their path or their page-table index.
pub(crate) proof fn lemma_paths_differ(va: u64, vk: u64)
    requires
        !same_page(va, vk),
    ensures
        !(path_of(va, 3) == path_of(vk, 3) && pt_index(va) == pt_index(vk)),
{
    reveal(reaches);
    reveal(table_at);
    if path_of(va, 3) == path_of(vk, 3) {
        assert(path_of(va, 3)[0] == pml4_index(va));
        assert(path_of(va, 3)[1] == pdpt_index(va));
        assert(path_of(va, 3)[2] == pd_index(va));
        assert(path_of(vk, 3)[0] == pml4_index(vk));
        assert(path_of(vk, 3)[1] == pdpt_index(vk));
        assert(path_of(vk, 3)[2] == pd_index(vk));
    }
}

/// The addresses outside `vk`'s page keep their translation.
pub(crate) proof fn lemma_set_leaf_other(
    m: Map<u64, u64>,
    frames: Seq<u64>,
    pml4: u64,
    owner: Map<u64, Seq<int>>,
    t: u64,
    v: u64,
    vk: u64,
    va: u64,
)
    requires
        tables_wf(m, frames, pml4, owner),
        frames_ok(frames),
        owner.contains_key(t),
        owner[t] == path_of(vk, 3),
        !same_page(va, vk),
    ensures
        translate(m.insert(slot(t, pt_index(vk)) as u64, v), pml4, va) == translate(m, pml4, va),
{
    reveal(reaches);
    reveal(table_at);
    reveal(tables_wf);
    let k = pt_index(vk);
    assert(path_of(vk, 3).len() == 3);
    lemma_reads_slot(m, frames, pml4, owner, t, k, va);
    lemma_paths_differ(va, vk);
    lemma_frame_good(frames, t);
    if forall|l: int|
        0 <= l <= 3 && #[trigger] reaches(m, pml4, va, l) ==> slot(
            table_at(m, pml4, va, l),
            level_index(va, l),
        ) != slot(t, k) {
        lemma_write_elsewhere(m, pml4, va, slot(t, k) as u64, v);
    } else {
        assert(owner[t].len() == 3);
        assert(level_index(va, 3) == pt_index(va));
    }
}

/// Writing the page-table entry for `vk`'s page changes the translation of
/// exactly the addresses in that page.
pub(crate) proof fn lemma_set_leaf(
    m: Map<u64, u64>,
    frames: Seq<u64>,
    pml4: u64,
    owner: Map<u64, Seq<int>>,
    t: u64,
    v: u64,
    vk: u64,
)
    requires
        tables_wf(m, frames, pml4, owner),
        frames_ok(frames),
        reaches(m, pml4, vk, 3),
        table_at(m, pml4, vk, 3) == t,
    ensures
        owner.contains_key(t),
        owner[t].len() == 3,
        tables_wf(m.insert(slot(t, pt_index(vk)) as u64, v), frames, pml4, owner),
        entry_at(m.insert(slot(t, pt_index(vk)) as u64, v), pml4, vk, 3) == v,
        forall|va: u64|
            #[trigger] translate(m.insert(slot(t, pt_index(vk)) as u64, v), pml4, va) == if same_page(
                va,
                vk,
            ) {
                if present(v) {
                    Some(table_address(v) + va % 0x1000)
                } else {
                    None
                }
            } else {
                translate(m, pml4, va)
            },
{
    reveal(reaches);
    reveal(table_at);
    reveal(tables_wf);
    let k = pt_index(vk);
    lemma_walk_owned(m, frames, pml4, owner, vk, 3);
    assert(path_of(vk, 3).len() == 3);
    lemma_wf_write(m, frames, pml4, owner, t, k, v);
    lemma_set_leaf_same(m, frames, pml4, owner, t, v, vk, vk);
    assert forall|va: u64| #[trigger] translate(m.insert(slot(t, k) as u64, v), pml4, va) == if same_page(va, vk) {
        if present(v) {
            Some(table_address(v) + va % 0x1000)
        } else {
            None
        }
    } else {
        translate(m, pml4, va)
    } by {
        if same_page(va, vk) {
            lemma_set_leaf_same(m, frames, pml4, owner, t, v, vk, va);
        } else {
            lemma_set_leaf_other(m, frames, pml4, owner, t, v, vk, va);
        }
    }
}

/// The addresses covered by the page-directory entry of `vk` see a new
/// 2 MiB entry there.
pub(crate) proof fn lemma_set_huge_same(
    m: Map<u64, u64>,
    frames: Seq<u64>,
    pml4: u64,
    owner: Map<u64, Seq<int>>,
    t: u64,
    v: u64,
    vk: u64,
    va: u64,
)
    requires
        tables_wf(m, frames, pml4, owner),
        frames_ok(frames),
        reaches(m, pml4, vk, 2),
        table_at(m, pml4, vk, 2) == t,
        owner.contains_key(t),
        owner[t] == path_of(vk, 2),
        present(v),
        huge(v),
        pml4_index(va) == pml4_index(vk),
        pdpt_index(va) == pdpt_index(vk),
        pd_index(va) == pd_index(vk),
    ensures
        translate(m.insert(slot(t, pd_index(vk)) as u64, v), pml4, va) == Some(
            huge_base(v) + va % 0x20_0000,
        ),
{
    reveal(reaches);
    reveal(table_at);
    reveal(translate);
    reveal(tables_wf);
    let k = pd_index(vk);
    let m2 = m.insert(slot(t, k) as u64, v);
    assert(path_of(vk, 2).len() == 2);
    assert(reaches(m, pml4, va, 2));
    assert(table_at(m, pml4, va, 2) == t);
    lemma_walk_to_owned_survives(m, frames, pml4, owner, t, k, v, va);
    assert(entry_at(m2, pml4, va, 2) == v);
}

/// Addresses differing in their path to the page directory or in their
/// index in it.
pub(crate) proof fn lemma_dir_paths_differ(va: u64, vk: u64)
    requires
        !(pml4_index(va) == pml4_index(vk) && pdpt_index(va) == pdpt_index(vk) && pd_index(va)
            == pd_index(vk)),
    ensures
        !(path_of(va, 2) == path_of(vk, 2) && pd_index(va) == pd_index(vk)),
{
    reveal(reaches);
    reveal(table_at);
    if path_of(va, 2) == path_of(vk, 2) {
        assert(path_of(va, 2)[0] == pml4_index(va));
        assert(path_of(va, 2)[1] == pdpt_index(va));
        assert(path_of(vk, 2)[0] == pml4_index(vk));
        assert(path_of(vk, 2)[1] == pdpt_index(vk));
    }
}

/// The addresses not covered by that page-directory entry keep their translation.
pub(crate) proof fn lemma_set_huge_other(
    m: Map<u64, u64>,
    frames: Seq<u64>,
    pml4: u64,
    owner: Map<u64, Seq<int>>,
    t: u64,
    v: u64,
    vk: u64,
    va: u64,
)
    requires
        tables_wf(m, frames, pml4, owner),
        frames_ok(frames),
        owner.contains_key(t),
        owner[t] == path_of(vk, 2),
        !(pml4_index(va) == pml4_index(vk) && pdpt_index(va) == pdpt_index(vk) && pd_index(va)
            == pd_index(vk)),
    ensures
        translate(m.insert(slot(t, pd_index(vk)) as u64, v), pml4, va) == translate(m, pml4, va),
{
    reveal(reaches);
    reveal(table_at);
    reveal(tables_wf);
    let k = pd_index(vk);
    assert(path_of(vk, 2).len() == 2);
    lemma_reads_slot(m, frames, pml4, owner, t, k, va);
    lemma_dir_paths_differ(va, vk);
    lemma_frame_good(frames, t);
    if forall|l: int|
        0 <= l <= 3 && #[trigger] reaches(m, pml4, va, l) ==> slot(
            table_at(m, pml4, va, l),
            level_index(va, l),
        ) != slot(t, k) {
        lemma_write_elsewhere(m, pml4, va, slot(t, k) as u64, v);
    } else {
        assert(owner[t].len() == 2);
        assert(level_index(va, 2) == pd_index(va));
    }
}

/// Writing a 2 MiB entry into the page directory on `vk`'s walk maps
/// exactly the addresses that entry covers.
pub(crate) proof fn lemma_set_huge(
    m: Map<u64, u64>,
    frames: Seq<u64>,
    pml4: u64,
    owner: Map<u64, Seq<int>>,
    t: u64,
    v: u64,
    vk: u64,
)
    requires
        tables_wf(m, frames, pml4, owner),
        frames_ok(frames),
        reaches(m, pml4, vk, 2),
        table_at(m, pml4, vk, 2) == t,
        present(v),
        huge(v),
    ensures
        tables_wf(m.insert(slot(t, pd_index(vk)) as u64, v), frames, pml4, owner),
        forall|va: u64|
            #[trigger] translate(m.insert(slot(t, pd_index(vk)) as u64, v), pml4, va) == if pml4_index(va)
                == pml4_index(vk) && pdpt_index(va) == pdpt_index(vk) && pd_index(va) == pd_index(
                vk,
            ) {
                Some(huge_base(v) + va % 0x20_0000)
            } else {
                translate(m, pml4, va)
            },
{
    reveal(reaches);
    reveal(table_at);
    reveal(tables_wf);
    let k = pd_index(vk);
    lemma_walk_owned(m, frames, pml4, owner, vk, 2);
    assert(path_of(vk, 2).len() == 2);
    assert(owns_child(m.insert(slot(t, k) as u64, v), owner, t, k)) by {
        lemma_frame_good(frames, t);
        assert(word(m.insert(slot(t, k) as u64, v), slot(t, k)) == v);
    }
    lemma_wf_write(m, frames, pml4, owner, t, k, v);
    assert forall|va: u64| #[trigger] translate(m.insert(slot(t, k) as u64, v), pml4, va) == if pml4_index(va)
        == pml4_index(vk) && pdpt_index(va) == pdpt_index(vk) && pd_index(va) == pd_index(vk) {
        Some(huge_base(v) + va % 0x20_0000)
    } else {
        translate(m, pml4, va)
    } by {
        if pml4_index(va) == pml4_index(vk) && pdpt_index(va) == pdpt_index(vk) && pd_index(va)
            == pd_index(vk) {
            lemma_set_huge_same(m, frames, pml4, owner, t, v, vk, va);
        } else {
            lemma_set_huge_other(m, frames, pml4, owner, t, v, vk, va);
        }
    }
}

pub(crate) proof fn lemma_frames_prefix(a: Seq<u64>, b: Seq<u64>)
    requires
        frames_extend(a, b),
        frames_ok(b),
    ensures
        frames_ok(a),
        forall|x: u64| a.contains(x) ==> #[trigger] b.contains(x),
{
    reveal(reaches);
    reveal(table_at);
    reveal(frames_extend);
    reveal(frames_ok);
    assert forall|i: int| 0 <= i < a.len() implies #[trigger] good_frame(a[i]) by {
        assert(a[i] == b[i]);
        assert(good_frame(b[i]));
    }
    assert forall|i: int, j: int| 0 <= i < j < a.len() implies a[i] != a[j] by {
        assert(a[i] == b[i] && a[j] == b[j]);
    }
    assert forall|x: u64| a.contains(x) implies #[trigger] b.contains(x) by {
        let i = choose|i: int| 0 <= i < a.len() && a[i] == x;
        assert(b[i] == x);
    }
}

/// Growing the list of pages keeps what was there.
pub(crate) proof fn lemma_extend_push(a: Seq<u64>, x: u64)
    ensures
        frames_extend(a, a.push(x)),
        frames_extend(a, a),
{
    reveal(reaches);
    reveal(table_at);
    reveal(frames_extend);
}

pub(crate) proof fn lemma_extend_trans(a: Seq<u64>, b: Seq<u64>, c: Seq<u64>)
    requires
        frames_extend(a, b),
        frames_extend(b, c),
    ensures
        frames_extend(a, c),
{
    reveal(reaches);
    reveal(table_at);
    reveal(frames_extend);
}

/// An entry of an owned table lies outside any other page.
pub(crate) proof fn lemma_outside_page(u: u64, j: int, p: u64)
    requires
        u % 0x1000 == 0,
        p % 0x1000 == 0,
        u != p,
        0 <= j < 512,
    ensures
        !(p <= slot(u, j) < p + 0x1000),
{
    reveal(reaches);
    reveal(table_at);
    assert(!(p <= u + 8 * j < p + 0x1000)) by (nonlinear_arith)
        requires
            u % 0x1000 == 0,
            p % 0x1000 == 0,
            u != p,
            0 <= j < 512,
    ;
}

/// Memory writes confined to the page `p`, which the tree does not own,
/// leave the tree and every walk as they were.
pub(crate) proof fn lemma_page_outside_tree(
    m: Map<u64, u64>,
    m2: Map<u64, u64>,
    frames: Seq<u64>,
    frames2: Seq<u64>,
    pml4: u64,
    owner: Map<u64, Seq<int>>,
    p: u64,
)
    requires
        tables_wf(m, frames, pml4, owner),
        frames_ok(frames),
        frames_extend(frames, frames2),
        good_frame(p),
        !frames.contains(p),
        forall|a: int|
            #![trigger word(m2, a)]
            !(p <= a < p + 0x1000) ==> word(m2, a) == word(m, a),
    ensures
        tables_wf(m2, frames2, pml4, owner),
        forall|va: u64| #[trigger] translate(m2, pml4, va) == translate(m, pml4, va),
        forall|va: u64, l: int|
            0 <= l <= 3 && #[trigger] reaches(m, pml4, va, l) ==> reaches(m2, pml4, va, l)
                && table_at(m2, pml4, va, l) == table_at(m, pml4, va, l),
{
    reveal(reaches);
    reveal(table_at);
    reveal(frames_extend);
    reveal(tables_wf);
    assert forall|x: u64| frames.contains(x) implies #[trigger] frames2.contains(x) by {
        let i = choose|i: int| 0 <= i < frames.len() && frames[i] == x;
        assert(frames2[i] == x);
    }
    assert forall|u: u64, j: int| owner.contains_key(u) && 0 <= j < 512 implies #[trigger] word(
        m2,
        slot(u, j),
    ) == word(m, slot(u, j)) by {
        lemma_frame_good(frames, u);
        lemma_outside_page(u, j, p);
    }
    lemma_wf_outside(m, m2, frames, frames2, pml4, owner);
    assert forall|va: u64, l: int|
        0 <= l <= 3 && #[trigger] reaches(m, pml4, va, l) implies reaches(m2, pml4, va, l)
        && table_at(m2, pml4, va, l) == table_at(m, pml4, va, l) by {
        assert forall|l2: int| 0 <= l2 < 3 && #[trigger] reaches(m, pml4, va, l2) implies word(
            m2,
            slot(table_at(m, pml4, va, l2), level_index(va, l2)),
        ) == word(m, slot(table_at(m, pml4, va, l2), level_index(va, l2))) by {
            lemma_walk_owned(m, frames, pml4, owner, va, l2);
            assert(0 <= level_index(va, l2) < 512);
        }
        lemma_walk_prefix(m, m2, pml4, va, 3);
    }
}

/// The 2 MiB split inside `map_4kb`: a fresh page `f`, zeroed (`ma`) and
/// filled with the 4 KiB entries of the huge page (`mb`), replaces the huge
/// entry of `va`'s page directory `t`.
pub(crate) proof fn lemma_split_step(
    m: Map<u64, u64>,
    ma: Map<u64, u64>,
    mb: Map<u64, u64>,
    frames: Seq<u64>,
    pml4: u64,
    owner: Map<u64, Seq<int>>,
    t: u64,
    f: u64,
    va: u64,
)
    requires
        frames_ok(frames.push(f)),
        tables_wf(m, frames, pml4, owner),
        reaches(m, pml4, va, 2),
        table_at(m, pml4, va, 2) == t,
        huge(word(m, slot(t, pd_index(va)))),
        forall|a: int|
            #![trigger word(ma, a)]
            word(ma, a) == if f <= a < f + 0x1000 && (a - f) % 8 == 0 {
                0
            } else {
                word(m, a)
            },
        forall|a: int|
            #![trigger word(mb, a)]
            word(mb, a) == if f <= a < f + 0x1000 && (a - f) % 8 == 0 {
                (huge_base(word(m, slot(t, pd_index(va)))) + (a - f) / 8 * 0x1000 + 3) as u64
            } else {
                word(ma, a)
            },
    ensures
        ({
            let k = pd_index(va);
            let m3 = mb.insert(slot(t, k) as u64, (f + 3) as u64);
            let o3 = owner.insert(f, owner[t].push(k));
            &&& tables_wf(m3, frames.push(f), pml4, o3)
            &&& forall|x: u64| #[trigger] translate(m3, pml4, x) == translate(m, pml4, x)
            &&& reaches(m3, pml4, va, 2)
            &&& table_at(m3, pml4, va, 2) == t
            &&& !huge(entry_at(m3, pml4, va, 2))
            &&& o3.contains_key(t) && o3[t] == owner[t]
        }),
{
    reveal(reaches);
    reveal(table_at);
    reveal(frames_extend);
    reveal(tables_wf);
    let fs = frames.push(f);
    let k = pd_index(va);
    let e = word(m, slot(t, k));
    lemma_frames_push(frames, f);
    lemma_walk_owned(m, frames, pml4, owner, va, 2);
    assert(path_of(va, 2).len() == 2);
    assert(0 <= k < 512);
    assert(!owner.contains_key(f));
    lemma_frame_good(frames, t);
    lemma_outside_page(t, k, f);
    assert forall|a: int| #![trigger word(mb, a)] !(f <= a < f + 0x1000) implies word(mb, a)
        == word(m, a) by {
        assert(word(mb, a) == word(ma, a));
    }
    assert(frames_extend(frames, fs));
    lemma_page_outside_tree(m, mb, frames, fs, pml4, owner, f);
    lemma_entry_masks(e);
    assert(word(mb, slot(t, k)) == e);
    assert forall|j: int| 0 <= j < 512 implies #[trigger] word(mb, slot(f, j)) == huge_base(
        word(mb, slot(t, k)),
    ) + j * 0x1000 + 3 by {
        assert(f <= slot(f, j) < f + 0x1000);
        assert((slot(f, j) - f) % 8 == 0);
        assert((slot(f, j) - f) / 8 == j);
        assert(huge_base(e) + j * 0x1000 + 3 < 0x1_0000_0000_0000_0000);
    }
    assert(fs.contains(f)) by {
        assert(fs[frames.len() as int] == f);
    }
    lemma_table_entry(f);
    assert(frames_ok(fs));
    lemma_split(mb, fs, pml4, owner, t, k, f);
    lemma_walk_to_owned_survives(mb, fs, pml4, owner, t, k, (f + 3) as u64, va);
    let m3 = mb.insert(slot(t, k) as u64, (f + 3) as u64);
    lemma_frame_good(frames, t);
    assert(entry_at(m3, pml4, va, 2) == (f + 3) as u64);
}

/// Every walk starts at the PML4.
pub(crate) proof fn lemma_walk_start(m: Map<u64, u64>, pml4: u64, va: u64)
    ensures
        reaches(m, pml4, va, 0),
        table_at(m, pml4, va, 0) == pml4,
{
    reveal(reaches);
    reveal(table_at);
}

/// One more step of the walk: a present entry that is not a 2 MiB page
/// leads to the table it holds.
pub(crate) proof fn lemma_step_down(m: Map<u64, u64>, pml4: u64, va: u64, level: int)
    requires
        0 <= level < 3,
        reaches(m, pml4, va, level),
        present(entry_at(m, pml4, va, level)),
        level == 2 ==> !huge(entry_at(m, pml4, va, 2)),
    ensures
        reaches(m, pml4, va, level + 1),
        table_at(m, pml4, va, level + 1) == table_address(entry_at(m, pml4, va, level)),
{
    reveal(reaches);
    reveal(table_at);
}

/// A zeroed page on its own is a tree that maps nothing.
pub(crate) proof fn lemma_wf_root(m: Map<u64, u64>, frames: Seq<u64>, p: u64)
    requires
        frames.contains(p),
        forall|j: int| 0 <= j < 512 ==> #[trigger] word(m, slot(p, j)) == 0,
    ensures
        tables_wf(m, frames, p, map![p => Seq::<int>::empty()]),
        forall|va: u64| #[trigger] translate(m, p, va) == None::<int>,
{
    reveal(tables_wf);
    let owner = map![p => Seq::<int>::empty()];
    assert forall|t: u64, k: int|
        owner.contains_key(t) && owner[t].len() < 3 && 0 <= k < 512 implies #[trigger] owns_child(
        m,
        owner,
        t,
        k,
    ) by {
        assert(word(m, slot(p, k)) == 0);
    }
    assert forall|va: u64| #[trigger] translate(m, p, va) == None::<int> by {
        lemma_walk_start(m, p, va);
        assert(0 <= pml4_index(va) < 512);
        assert(word(m, slot(p, pml4_index(va))) == 0);
        lemma_translate_stops(m, p, va, 0);
    }
}

/// The indices of the first address of 2 MiB page `j` of GiB `i`.
pub(crate) proof fn lemma_identity_indices(i: int, j: int)
    requires
        0 <= i < 4,
        0 <= j < 512,
    ensures
        ({
            let vk = (i * 0x4000_0000 + j * 0x20_0000) as u64;
            &&& vk == i * 0x4000_0000 + j * 0x20_0000
            &&& pml4_index(vk) == 0
            &&& pdpt_index(vk) == i
            &&& pd_index(vk) == j
            &&& (i * 0x4000_0000 + j * 0x20_0000) % 0x20_0000 == 0
        }),
{
    let v = i * 0x4000_0000 + j * 0x20_0000;
    assert(0 <= v < 0x1_0000_0000) by (nonlinear_arith)
        requires
            0 <= i < 4,
            0 <= j < 512,
            v == i * 0x4000_0000 + j * 0x20_0000,
    ;
    assert(v / 0x80_0000_0000 == 0);
    assert(v / 0x4000_0000 == i) by (nonlinear_arith)
        requires
            0 <= i < 4,
            0 <= j < 512,
            v == i * 0x4000_0000 + j * 0x20_0000,
    ;
    assert(v / 0x20_0000 == i * 512 + j) by (nonlinear_arith)
        requires
            0 <= i < 4,
            0 <= j < 512,
            v == i * 0x4000_0000 + j * 0x20_0000,
    ;
    assert((i * 512 + j) % 512 == j) by (nonlinear_arith)
        requires
            0 <= i < 4,
            0 <= j < 512,
    ;
    assert(v % 0x20_0000 == 0) by (nonlinear_arith)
        requires
            0 <= i < 4,
            0 <= j < 512,
            v == i * 0x4000_0000 + j * 0x20_0000,
    ;
}

/// Walks that go through entry 0 of the PML4 and entry `i` of the PDPT.
pub(crate) proof fn lemma_walk_two(m: Map<u64, u64>, pml4: u64, pdpt: u64, pd: u64, va: u64)
    requires
        pml4_index(va) == 0,
        pdpt % 0x1000 == 0,
        pd % 0x1000 == 0,
        word(m, slot(pml4, 0)) == pdpt + 3,
        word(m, slot(pdpt, pdpt_index(va))) == pd + 3,
    ensures
        reaches(m, pml4, va, 2),
        table_at(m, pml4, va, 1) == pdpt,
        table_at(m, pml4, va, 2) == pd,
{
    lemma_walk_start(m, pml4, va);
    lemma_table_entry(pdpt);
    lemma_table_entry(pd);
    lemma_step_down(m, pml4, va, 0);
    lemma_step_down(m, pml4, va, 1);
}

/// One 2 MiB identity entry: entry `j` of the page directory `pd`, which
/// serves GiB `i`, maps the 2 MiB at `i` GiB + `j` * 2 MiB.
pub(crate) proof fn lemma_identity_entry(
    m: Map<u64, u64>,
    frames: Seq<u64>,
    pml4: u64,
    pdpt: u64,
    pd: u64,
    owner: Map<u64, Seq<int>>,
    i: int,
    j: int,
)
    requires
        frames_ok(frames),
        tables_wf(m, frames, pml4, owner),
        0 <= i < 4,
        0 <= j < 512,
        owner.contains_key(pdpt),
        owner.contains_key(pd),
        owner[pdpt] == seq![0int],
        owner[pd] == seq![0int, i],
        word(m, slot(pml4, 0)) == pdpt + 3,
        word(m, slot(pdpt, i)) == pd + 3,
        forall|va: u64| #[trigger] translate(m, pml4, va) == identity_map_upto(i, j, va),
    ensures
        ({
            let pa = (i * 0x4000_0000 + j * 0x20_0000) as u64;
            let m2 = m.insert(slot(pd, j) as u64, (pa + 0x83) as u64);
            &&& pa | PRESENT | WRITABLE | HUGE == pa + 0x83
            &&& tables_wf(m2, frames, pml4, owner)
            &&& word(m2, slot(pml4, 0)) == pdpt + 3
            &&& word(m2, slot(pdpt, i)) == pd + 3
            &&& forall|k: int| 0 <= k < 512 ==> #[trigger] word(m2, slot(pdpt, k)) == word(m, slot(pdpt, k))
            &&& forall|va: u64| #[trigger] translate(m2, pml4, va) == identity_map_upto(i, j + 1, va)
        }),
{
    let pa = (i * 0x4000_0000 + j * 0x20_0000) as u64;
    lemma_identity_indices(i, j);
    lemma_huge_entry(pa);
    lemma_wf_facts(m, frames, pml4, owner);
    lemma_frame_good(frames, pml4);
    lemma_frame_good(frames, pdpt);
    lemma_frame_good(frames, pd);
    assert(pd != pml4 && pd != pdpt);
    let vk = pa;
    lemma_walk_two(m, pml4, pdpt, pd, vk);
    let v = (pa + 0x83) as u64;
    lemma_set_huge(m, frames, pml4, owner, pd, v, vk);
    let m2 = m.insert(slot(pd, j) as u64, v);
    if slot(pd, j) == slot(pml4, 0) {
        lemma_slot_injective(pd, j, pml4, 0);
    }
    if slot(pd, j) == slot(pdpt, i) {
        lemma_slot_injective(pd, j, pdpt, i);
    }
    assert forall|k: int| 0 <= k < 512 implies #[trigger] word(m2, slot(pdpt, k)) == word(m, slot(pdpt, k)) by {
        if slot(pd, j) == slot(pdpt, k) {
            lemma_slot_injective(pd, j, pdpt, k);
        }
    }
    assert forall|va: u64| #[trigger] translate(m2, pml4, va) == identity_map_upto(i, j + 1, va) by {
        assert(translate(m2, pml4, va) == if pml4_index(va) == pml4_index(vk) && pdpt_index(va)
            == pdpt_index(vk) && pd_index(va) == pd_index(vk) {
            Some(huge_base(v) + va % 0x20_0000)
        } else {
            translate(m, pml4, va)
        });
    }
}

} // verus!
