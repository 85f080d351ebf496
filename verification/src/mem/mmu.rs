use vstd::prelude::*;
use crate::mem::page::{
    after_deallocs, align_val, deallocs_ok, is_first_fit, is_prefix, lemma_after_deallocs_layout,
    lemma_align_page, lemma_alloc_in_area, lemma_deallocs_ok_prefix, lemma_deallocs_push,
    lemma_first_fit_some, lemma_prefix_concat, lemma_prefix_trans, lemma_zalloc_zeroed,
    page_align_up, Heap, HeapView, PAGE_ORDER, PAGE_SIZE,
};

verus! {

/// Bits of an Sv39 page-table entry, and the usual combinations of them.
#[derive(Clone, Copy)]
pub enum EntryBits {
    Empty,
    Valid,
    Read,
    Write,
    Execute,
    User,
    Global,
    Access,
    Dirty,
    ReadWrite,
    ReadExecute,
    ReadWriteExecute,
    UserReadWrite,
    UserReadExecute,
    UserReadWriteExecute,
    Sec,
    Buffer,
    Cacheable,
    StrongOrder,
}

impl EntryBits {
    pub open spec fn bits(self) -> u64 {
        match self {
            EntryBits::Empty => 0,
            EntryBits::Valid => 0x1,
            EntryBits::Read => 0x2,
            EntryBits::Write => 0x4,
            EntryBits::Execute => 0x8,
            EntryBits::User => 0x10,
            EntryBits::Global => 0x20,
            EntryBits::Access => 0x40,
            EntryBits::Dirty => 0x80,
            EntryBits::ReadWrite => 0x6,
            EntryBits::ReadExecute => 0xa,
            EntryBits::ReadWriteExecute => 0xe,
            EntryBits::UserReadWrite => 0x16,
            EntryBits::UserReadExecute => 0x1a,
            EntryBits::UserReadWriteExecute => 0x1e,
            EntryBits::Sec => 0x0800_0000_0000_0000,
            EntryBits::Buffer => 0x2000_0000_0000_0000,
            EntryBits::Cacheable => 0x4000_0000_0000_0000,
            EntryBits::StrongOrder => 0x8000_0000_0000_0000,
        }
    }

    pub fn val(self) -> (r: u64)
        ensures
            r == self.bits(),
    {
        match self {
            EntryBits::Empty => 0,
            EntryBits::Valid => 0x1,
            EntryBits::Read => 0x2,
            EntryBits::Write => 0x4,
            EntryBits::Execute => 0x8,
            EntryBits::User => 0x10,
            EntryBits::Global => 0x20,
            EntryBits::Access => 0x40,
            EntryBits::Dirty => 0x80,
            EntryBits::ReadWrite => 0x6,
            EntryBits::ReadExecute => 0xa,
            EntryBits::ReadWriteExecute => 0xe,
            EntryBits::UserReadWrite => 0x16,
            EntryBits::UserReadExecute => 0x1a,
            EntryBits::UserReadWriteExecute => 0x1e,
            EntryBits::Sec => 0x0800_0000_0000_0000,
            EntryBits::Buffer => 0x2000_0000_0000_0000,
            EntryBits::Cacheable => 0x4000_0000_0000_0000,
            EntryBits::StrongOrder => 0x8000_0000_0000_0000,
        }
    }
}

/// The V bit is set.
pub open spec fn pte_valid(e: u64) -> bool {
    e & 1 != 0
}

/// One of the R, W, X bits is set: the entry maps a page rather than
/// pointing to the next table.
pub open spec fn pte_leaf(e: u64) -> bool {
    e & 0xe != 0
}

/// The address of the table that a branch entry points to: its PPN field
/// shifted into place.
pub open spec fn pte_target(e: u64) -> int {
    (((e & !0x3ffu64) << 2u64) as usize) as int
}

/// A page-table entry.
#[derive(Clone, Copy)]
pub struct Entry {
    pub entry: u64,
}

impl Entry {
    pub fn is_valid(&self) -> (r: bool)
        ensures
            r == pte_valid(self.entry),
    {
        self.entry & EntryBits::Valid.val() != 0
    }

    pub fn is_invaliad(&self) -> (r: bool)
        ensures
            r == !pte_valid(self.entry),
    {
        !self.is_valid()
    }

    pub fn is_leaf(&self) -> (r: bool)
        ensures
            r == pte_leaf(self.entry),
    {
        self.entry & 0xe != 0
    }

    pub fn is_branch(&self) -> (r: bool)
        ensures
            r == !pte_leaf(self.entry),
    {
        !self.is_leaf()
    }

    pub fn set_entry(&mut self, entry: u64)
        ensures
            final(self).entry == entry,
    {
        self.entry = entry;
    }
}

/// A page table: 512 entries, one page.
pub struct Table {
    pub entries: [Entry; 512],
}

impl Table {
    pub fn len() -> (r: usize)
        ensures
            r == 512,
    {
        512
    }
}

/// The virtual page number field of `va` that indexes a table of `level`
/// (0 for the last table of a walk, 2 for the root).
pub open spec fn vpn_field(va: usize, level: int) -> usize {
    if level == 0 {
        (va >> 12usize) & 0x1ffusize
    } else if level == 1 {
        (va >> 21usize) & 0x1ffusize
    } else {
        (va >> 30usize) & 0x1ffusize
    }
}

/// The bits of an address that lie inside a page mapped at `level`.
pub open spec fn offset_mask(level: int) -> usize {
    if level == 0 {
        0xfffusize
    } else if level == 1 {
        0x1f_ffffusize
    } else {
        0x3fff_ffffusize
    }
}

/// The physical address that a leaf entry at `level` gives for `va`.
pub open spec fn leaf_phys(e: u64, va: usize, level: int) -> usize {
    (((e << 2u64) as usize) & !offset_mask(level)) | (va & offset_mask(level))
}

/// What a walk of the page tables ends in.
pub enum Translation {
    /// An invalid entry was met.
    Unmapped,
    /// A leaf entry maps the address to this physical address.
    Mapped(usize),
    /// The walk leaves the allocation area, or meets a branch entry in a
    /// last-level table.
    Broken,
}

/// The outcome of reading entry `e` of a table at `level` on the walk for `va`.
pub open spec fn walk_entry(h: HeapView, e: u64, va: usize, level: int) -> Translation
    decreases level, 1int,
{
    if !pte_valid(e) {
        Translation::Unmapped
    } else if pte_leaf(e) {
        Translation::Mapped(leaf_phys(e, va, level))
    } else if level <= 0 {
        Translation::Broken
    } else {
        walk(h, pte_target(e), va, level - 1)
    }
}

/// The walk for `va` from the table at `t`, a table of `level`.
pub open spec fn walk(h: HeapView, t: int, va: usize, level: int) -> Translation
    decreases level, 2int,
{
    if !h.holds_table(t) {
        Translation::Broken
    } else {
        walk_entry(h, h.word_at(t + 8 * vpn_field(va, level)), va, level)
    }
}

/// The translation of `va` by the page tables rooted at `root`.
pub open spec fn translate(h: HeapView, root: int, va: usize) -> Translation {
    walk(h, root, va, 2)
}

/// The leaf entry that reading entry `e` of a table at `level` on the walk
/// for `va` ends in; `None` where the walk ends otherwise.
pub open spec fn reach_entry(h: HeapView, e: u64, va: usize, level: int) -> Option<u64>
    decreases level, 1int,
{
    if !pte_valid(e) {
        None
    } else if pte_leaf(e) {
        Some(e)
    } else if level <= 0 {
        None
    } else {
        reach(h, pte_target(e), va, level - 1)
    }
}

/// The leaf entry that the walk for `va` from the table at `t`, a table of
/// `level`, ends in.
pub open spec fn reach(h: HeapView, t: int, va: usize, level: int) -> Option<u64>
    decreases level, 2int,
{
    if !h.holds_table(t) {
        None
    } else {
        reach_entry(h, h.word_at(t + 8 * vpn_field(va, level)), va, level)
    }
}

/// The leaf entry that maps `va` in the page tables rooted at `root`.
pub open spec fn leaf_for(h: HeapView, root: int, va: usize) -> Option<u64> {
    reach(h, root, va, 2)
}

proof fn lemma_vpn_bound(va: usize)
    ensures
        forall|l: int| #[trigger] vpn_field(va, l) < 512,
{
    assert((va >> 12usize) & 0x1ffusize < 512) by (bit_vector);
    assert((va >> 21usize) & 0x1ffusize < 512) by (bit_vector);
    assert((va >> 30usize) & 0x1ffusize < 512) by (bit_vector);
}

/// A slot of a table held in the allocation area is a word of it.
proof fn lemma_table_slot(h: HeapView, t: int, i: int)
    requires
        h.wf(),
        h.holds_table(t),
        h.alloc_start % 4096 == 0,
        0 <= i < 512,
    ensures
        h.holds_word(t + 8 * i),
        t + 8 * i + 8 <= usize::MAX,
{
}

/// Translates `vaddr` by walking the page tables rooted at `root`: the
/// first invalid entry gives `None`, the first leaf entry the physical
/// address of its page with the offset of `vaddr` inside it.
pub fn virt_to_phys(heap: &Heap, root: usize, vaddr: usize) -> (r: Option<usize>)
    requires
        heap.wf(),
        !(translate(heap@, root as int, vaddr) is Broken),
    ensures
        r == match translate(heap@, root as int, vaddr) {
            Translation::Mapped(p) => Some(p),
            _ => None,
        },
{
    let vpn = [(vaddr >> 12) & 0x1ff, (vaddr >> 21) & 0x1ff, (vaddr >> 30) & 0x1ff];
    proof {
        lemma_vpn_bound(vaddr);
        heap.lemma_view_wf();
        lemma_table_slot(heap@, root as int, vpn_field(vaddr, 2) as int);
    }
    let mut v = Entry { entry: heap.read_word(root + 8 * vpn[2]) };
    let mut i: usize = 2;
    loop
        invariant
            heap.wf(),
            heap@.wf(),
            heap@.alloc_start % 4096 == 0,
            i <= 2,
            vpn@ == seq![vpn_field(vaddr, 0), vpn_field(vaddr, 1), vpn_field(vaddr, 2)],
            walk_entry(heap@, v.entry, vaddr, i as int) == translate(heap@, root as int, vaddr),
            !(translate(heap@, root as int, vaddr) is Broken),
        decreases i,
    {
        if !v.is_valid() {
            return None;
        } else if v.is_leaf() {
            assert((1usize << 12usize) == 0x1000usize) by (bit_vector);
            assert((1usize << 21usize) == 0x20_0000usize) by (bit_vector);
            assert((1usize << 30usize) == 0x4000_0000usize) by (bit_vector);
            let off_mask = (1usize << (12 + i * 9)) - 1;
            assert(off_mask == offset_mask(i as int));
            let vaddr = vaddr & off_mask;
            let addr = ((v.entry << 2) as usize) & !off_mask;
            return Some(addr | vaddr);
        }
        let entry = ((v.entry & !0x3ff) << 2) as usize;
        assert(i > 0);
        proof {
            lemma_vpn_bound(vaddr);
            lemma_table_slot(heap@, entry as int, vpn_field(vaddr, i - 1) as int);
        }
        v = Entry { entry: heap.read_word(entry + 8 * vpn[i - 1]) };
        i = i - 1;
    }
}

/// A branch entry pointing to the table at `p`.
pub open spec fn table_entry(p: int) -> u64 {
    (((p as usize) as u64) >> 2u64) | 1u64
}

/// The leaf entry that maps a page to `pa` with the permission bits `bits`.
pub open spec fn leaf_entry(pa: usize, bits: u64) -> u64 {
    ((((pa >> 30usize) & 0x3ff_ffffusize) << 28usize) as u64) | ((((pa >> 21usize) & 0x1ffusize)
        << 19usize) as u64) | ((((pa >> 12usize) & 0x1ffusize) << 10usize) as u64) | bits | 1u64
}

/// The heap once the entry at `slot` is valid: unchanged when it already
/// is, else with a fresh zeroed page installed there as a table; `None`
/// when no page can be had.
pub open spec fn install_table(h: HeapView, slot: int) -> Option<HeapView> {
    if pte_valid(h.word_at(slot)) {
        Some(h)
    } else {
        match h.alloc_index(1) {
            None => None,
            Some(i) => Some(h.after_zalloc(1).write(slot, table_entry(h.page_addr(i)))),
        }
    }
}

/// How a call of `map` ends, with the heap it leaves.
pub enum MapOutcome {
    Done(HeapView),
    OutOfMemory(HeapView),
    Outside(HeapView),
}

/// `map` from the entry at `slot`, a table entry of level `i`, down to the
/// entry of `level` that receives `leaf`.
pub open spec fn map_from(h: HeapView, slot: int, va: usize, i: int, level: int, leaf: u64) -> MapOutcome
    decreases i - level,
{
    if i <= level {
        MapOutcome::Done(h.write(slot, leaf))
    } else {
        match install_table(h, slot) {
            None => MapOutcome::OutOfMemory(h),
            Some(h2) => {
                let t = pte_target(h2.word_at(slot));
                if !h2.holds_table(t) {
                    MapOutcome::Outside(h2)
                } else {
                    map_from(h2, t + 8 * vpn_field(va, i - 1), va, i - 1, level, leaf)
                }
            },
        }
    }
}

/// The outcome of mapping `va` to `pa` at `level` in the tables rooted at `root`.
pub open spec fn map_spec(h: HeapView, root: int, va: usize, pa: usize, bits: u64, level: int) -> MapOutcome {
    map_from(h, root + 8 * vpn_field(va, 2), va, 2, level, leaf_entry(pa, bits))
}

/// Why `map` could not install a mapping.
#[derive(Debug)]
pub enum MapError {
    /// A table was missing and no page could be allocated for it.
    OutOfMemory,
    /// An entry on the way points to a table outside the allocation area.
    TableOutsideMemory,
}

proof fn lemma_zalloc_one_keeps_layout(h: HeapView)
    requires
        h.wf(),
    ensures
        h.after_zalloc(1).wf(),
        h.after_zalloc(1).alloc_start == h.alloc_start,
        h.after_zalloc(1).npages() == h.npages(),
{
}

/// Maps the page of `vaddr` to the page of `paddr` with permission bits
/// `bits` at `level` (0: 4 KiB page, 1: 2 MiB, 2 and above: 1 GiB), in the
/// page tables rooted at `root`. Missing tables on the way are allocated
/// from the heap, zeroed, and linked in with a branch entry; an entry that
/// is already valid is followed as a branch. The walk stops with
/// `OutOfMemory` when a table is missing and no page can be had, and with
/// `TableOutsideMemory` when a valid entry points outside the allocation
/// area, whose contents the heap does not hold.
pub fn map(heap: &mut Heap, root: usize, vaddr: usize, paddr: usize, bits: u64, level: usize) -> (r: Result<(), MapError>)
    requires
        old(heap).wf(),
        old(heap)@.holds_table(root as int),
        bits & 0xe != 0,
    ensures
        final(heap).wf(),
        final(heap)@.alloc_start == old(heap)@.alloc_start,
        final(heap)@.npages() == old(heap)@.npages(),
        match map_spec(old(heap)@, root as int, vaddr, paddr, bits, level as int) {
            MapOutcome::Done(h) => r is Ok && final(heap)@ == h,
            MapOutcome::OutOfMemory(h) => r matches Err(MapError::OutOfMemory) && final(heap)@ == h,
            MapOutcome::Outside(h) => r matches Err(MapError::TableOutsideMemory) && final(heap)@ == h,
        },
{
    let vpn = [(vaddr >> 12) & 0x1ff, (vaddr >> 21) & 0x1ff, (vaddr >> 30) & 0x1ff];
    let ppn = [(paddr >> 12) & 0x1ff, (paddr >> 21) & 0x1ff, (paddr >> 30) & 0x3ff_ffff];
    proof {
        lemma_vpn_bound(vaddr);
        heap.lemma_view_wf();
        lemma_table_slot(heap@, root as int, vpn_field(vaddr, 2) as int);
    }
    let mut slot = root + 8 * vpn[2];
    let mut i: usize = 2;
    while i > level
        invariant
            heap.wf(),
            heap@.wf(),
            heap@.alloc_start % 4096 == 0,
            heap@.npages() >= 1,
            heap@.alloc_start == old(heap)@.alloc_start,
            heap@.npages() == old(heap)@.npages(),
            i <= 2,
            heap@.holds_word(slot as int),
            vpn@ == seq![vpn_field(vaddr, 0), vpn_field(vaddr, 1), vpn_field(vaddr, 2)],
            map_from(heap@, slot as int, vaddr, i as int, level as int, leaf_entry(paddr, bits))
                == map_spec(old(heap)@, root as int, vaddr, paddr, bits, level as int),
        decreases i,
    {
        i = i - 1;
        let ghost h0 = heap@;
        let mut v = Entry { entry: heap.read_word(slot) };
        if !v.is_valid() {
            let page = match heap.zalloc(1) {
                Some(p) => p,
                None => {
                    return Err(MapError::OutOfMemory);
                },
            };
            v.set_entry((page as u64 >> 2) | EntryBits::Valid.val());
            proof {
                lemma_zalloc_one_keeps_layout(h0);
            }
            heap.write_word(slot, v.entry);
        }
        assert(install_table(h0, slot as int) == Some(heap@));
        assert(heap@.word_at(slot as int) == v.entry);
        let entry = ((v.entry & !0x3ff) << 2) as usize;
        if !heap.holds_table(entry) {
            return Err(MapError::TableOutsideMemory);
        }
        proof {
            heap.lemma_view_wf();
            lemma_vpn_bound(vaddr);
            lemma_table_slot(heap@, entry as int, vpn_field(vaddr, i as int) as int);
        }
        slot = entry + 8 * vpn[i];
    }
    let entry = (ppn[2] << 28) as u64 | (ppn[1] << 19) as u64 | (ppn[0] << 10) as u64 | bits
        | EntryBits::Valid.val();
    heap.write_word(slot, entry);
    Ok(())
}

/// The physical address `pa`'s page at `level` with the offset of `va` in it.
pub open spec fn page_with_offset(pa: usize, va: usize, level: int) -> usize {
    (pa & !offset_mask(level)) | (va & offset_mask(level))
}

/// Along the path that `map` takes from `slot`, an entry that is already
/// valid is a branch, no page that `map` clears holds an entry it passed
/// through before (listed in `earlier`), and the leaf goes to an entry it
/// has not passed through.
pub open spec fn map_keeps_path(h: HeapView, slot: int, va: usize, i: int, level: int, earlier: Seq<int>) -> bool
    decreases i - level,
{
    if i <= level {
        !earlier.contains(slot)
    } else {
        let e = h.word_at(slot);
        &&& (pte_valid(e) ==> !pte_leaf(e))
        &&& (!pte_valid(e) ==> match h.alloc_index(1) {
            Some(k) => forall|s: int|
                #![trigger earlier.contains(s)]
                earlier.contains(s) ==> !(h.page_addr(k) <= s < h.page_addr(k) + 4096),
            None => true,
        })
        &&& match install_table(h, slot) {
            Some(h2) => {
                let t = pte_target(h2.word_at(slot));
                h2.holds_table(t) ==> map_keeps_path(
                    h2,
                    t + 8 * vpn_field(va, i - 1),
                    va,
                    i - 1,
                    level,
                    earlier.push(slot),
                )
            },
            None => true,
        }
    }
}

proof fn lemma_table_entry_bits(p: usize)
    requires
        p % 4096 == 0,
    ensures
        pte_valid(table_entry(p as int)),
        !pte_leaf(table_entry(p as int)),
        pte_target(table_entry(p as int)) == p as int,
{
    let e = table_entry(p as int);
    assert(e == ((p as u64) >> 2u64) | 1u64);
    assert(e & 1 != 0) by (bit_vector)
        requires e == ((p as u64) >> 2u64) | 1u64;
    assert(e & 0xe == 0) by (bit_vector)
        requires e == ((p as u64) >> 2u64) | 1u64, p % 4096 == 0;
    assert((((e & !0x3ffu64) << 2u64) as usize) == p) by (bit_vector)
        requires e == ((p as u64) >> 2u64) | 1u64, p % 4096 == 0;
}

proof fn lemma_leaf_entry_bits(pa: usize, bits: u64)
    requires
        bits & 0xe != 0,
    ensures
        pte_valid(leaf_entry(pa, bits)),
        pte_leaf(leaf_entry(pa, bits)),
{
    let e = leaf_entry(pa, bits);
    assert(e & 1 != 0 && e & 0xe != 0) by (bit_vector)
        requires
            e == ((((pa >> 30usize) & 0x3ff_ffffusize) << 28usize) as u64) | ((((pa >> 21usize) & 0x1ffusize)
                << 19usize) as u64) | ((((pa >> 12usize) & 0x1ffusize) << 10usize) as u64) | bits | 1u64,
            bits & 0xe != 0,
    ;
}

proof fn lemma_leaf_entry_phys(pa: usize, bits: u64, va: usize, level: int)
    requires
        0 <= level <= 2,
        bits & !0x3ffu64 == 0,
        (pa as u64) >> 56u64 == 0,
    ensures
        leaf_phys(leaf_entry(pa, bits), va, level) == page_with_offset(pa, va, level),
{
    let e = leaf_entry(pa, bits);
    let m = offset_mask(level);
    assert(m == 0xfffusize || m == 0x1f_ffffusize || m == 0x3fff_ffffusize);
    assert((((e << 2u64) as usize) & !m) | (va & m) == (pa & !m) | (va & m)) by (bit_vector)
        requires
            e == ((((pa >> 30usize) & 0x3ff_ffffusize) << 28usize) as u64) | ((((pa >> 21usize) & 0x1ffusize)
                << 19usize) as u64) | ((((pa >> 12usize) & 0x1ffusize) << 10usize) as u64) | bits | 1u64,
            bits & !0x3ffu64 == 0,
            (pa as u64) >> 56u64 == 0,
            m == 0xfffusize || m == 0x1f_ffffusize || m == 0x3fff_ffffusize,
    ;
}

proof fn lemma_write_word(h: HeapView, addr: int, value: u64, s: int)
    requires
        h.wf(),
        h.holds_word(addr),
        h.holds_word(s),
    ensures
        h.write(addr, value).wf(),
        h.write(addr, value).alloc_start == h.alloc_start,
        h.write(addr, value).npages() == h.npages(),
        h.write(addr, value).word_at(s) == if s == addr { value } else { h.word_at(s) },
{
}

proof fn lemma_install_table(h: HeapView, slot: int, s: int)
    requires
        h.wf(),
        h.alloc_start % 4096 == 0,
        h.holds_word(slot),
        h.holds_word(s),
        install_table(h, slot) is Some,
        s != slot && !pte_valid(h.word_at(slot)) ==> !(h.page_addr(h.alloc_index(1)->Some_0) <= s
            < h.page_addr(h.alloc_index(1)->Some_0) + 4096),
    ensures
        ({
            let h2 = install_table(h, slot)->Some_0;
            &&& h2.wf()
            &&& h2.alloc_start == h.alloc_start
            &&& h2.npages() == h.npages()
            &&& pte_valid(h2.word_at(slot))
            &&& (pte_valid(h.word_at(slot)) ==> h2 == h)
            &&& (!pte_valid(h.word_at(slot)) ==> {
                &&& h2.word_at(slot) == table_entry(h.page_addr(h.alloc_index(1)->Some_0))
                &&& h.page_addr(h.alloc_index(1)->Some_0) % 4096 == 0
                &&& 0 <= h.page_addr(h.alloc_index(1)->Some_0) <= usize::MAX
            })
            &&& (s != slot ==> h2.word_at(s) == h.word_at(s))
        }),
{
    if !pte_valid(h.word_at(slot)) {
        let k = h.alloc_index(1)->Some_0;
        let p = h.page_addr(k);
        assert(is_first_fit(h.flags, 1, k)) by {
            lemma_first_fit_some(h.flags, 1, k);
        }
        let z = h.after_zalloc(1);
        assert(z.wf());
        if s != slot {
            let w = (s - h.alloc_start) / 8;
            assert(s - h.alloc_start == 8 * w);
            assert(!(k * 512 <= w < (k + 1) * 512));
            assert(z.word_at(s) == h.word_at(s));
        }
        assert(p % 4096 == 0);
        lemma_write_word(z, slot, table_entry(p), s);
        lemma_write_word(z, slot, table_entry(p), slot);
        lemma_table_entry_bits(p as usize);
    }
}

proof fn lemma_map_from_walk(h: HeapView, slot: int, va: usize, i: int, level: int, leaf: u64, earlier: Seq<int>)
    requires
        h.wf(),
        h.alloc_start % 4096 == 0,
        h.holds_word(slot),
        0 <= level,
        0 <= i <= 2,
        map_from(h, slot, va, i, level, leaf) is Done,
        map_keeps_path(h, slot, va, i, level, earlier),
        forall|s: int| #[trigger] earlier.contains(s) ==> h.holds_word(s) && pte_valid(h.word_at(s)),
        pte_valid(leaf),
        pte_leaf(leaf),
    ensures
        ({
            let h2 = map_from(h, slot, va, i, level, leaf)->Done_0;
            &&& h2.wf()
            &&& h2.alloc_start == h.alloc_start
            &&& h2.npages() == h.npages()
            &&& forall|s: int| #[trigger] earlier.contains(s) ==> h2.word_at(s) == h.word_at(s)
            &&& walk_entry(h2, h2.word_at(slot), va, i) == Translation::Mapped(
                leaf_phys(leaf, va, if level < i { level } else { i }),
            )
            &&& reach_entry(h2, h2.word_at(slot), va, i) == Some(leaf)
            &&& map_from(h2, slot, va, i, level, leaf) == MapOutcome::Done(h2)
        }),
    decreases i - level,
{
    if i <= level {
        let h2 = h.write(slot, leaf);
        assert forall|s: int| #[trigger] earlier.contains(s) implies h2.word_at(s) == h.word_at(s) by {
            lemma_write_word(h, slot, leaf, s);
        }
        lemma_write_word(h, slot, leaf, slot);
        assert(h2.write(slot, leaf).words =~= h2.words);
    } else {
        let e = h.word_at(slot);
        let h1 = install_table(h, slot)->Some_0;
        lemma_install_table(h, slot, slot);
        let t = pte_target(h1.word_at(slot));
        let e1 = h1.word_at(slot);
        assert(!pte_leaf(e1) && t == pte_target(e1)) by {
            if !pte_valid(e) {
                lemma_table_entry_bits(h.page_addr(h.alloc_index(1)->Some_0) as usize);
            }
        }
        assert(h1.holds_table(t));
        lemma_vpn_bound(va);
        let slot2 = t + 8 * vpn_field(va, i - 1);
        lemma_table_slot(h1, t, vpn_field(va, i - 1) as int);
        let earlier2 = earlier.push(slot);
        assert forall|s: int| #[trigger] earlier2.contains(s) implies h1.holds_word(s) && pte_valid(h1.word_at(s))
            && h1.word_at(s) == if s == slot { e1 } else { h.word_at(s) } by {
            if s != slot {
                assert(earlier.contains(s));
                lemma_install_table(h, slot, s);
            }
        }
        lemma_map_from_walk(h1, slot2, va, i - 1, level, leaf, earlier2);
        let h2 = map_from(h1, slot2, va, i - 1, level, leaf)->Done_0;
        assert(earlier2[earlier.len() as int] == slot);
        assert(earlier2.contains(slot));
        assert(h2.word_at(slot) == e1);
        assert(install_table(h2, slot) == Some(h2));
        assert forall|s: int| #[trigger] earlier.contains(s) implies h2.word_at(s) == h.word_at(s) by {
            let j = choose|j: int| 0 <= j < earlier.len() && earlier[j] == s;
            assert(earlier2[j] == s);
            assert(earlier2.contains(s));
            if s == slot {
                assert(pte_valid(e));
            }
        }
    }
}

/// Mapping the same page again right after a `map` that left its path
/// intact allocates nothing and changes nothing.
pub proof fn lemma_map_idempotent(h: HeapView, root: int, va: usize, pa: usize, bits: u64, level: int)
    requires
        h.wf(),
        h.holds_table(root),
        0 <= level,
        bits & 0xe != 0,
        map_spec(h, root, va, pa, bits, level) is Done,
        map_keeps_path(h, root + 8 * vpn_field(va, 2), va, 2, level, Seq::empty()),
    ensures
        map_spec(map_spec(h, root, va, pa, bits, level)->Done_0, root, va, pa, bits, level)
            == map_spec(h, root, va, pa, bits, level),
{
    assert(h.alloc_start % 4096 == 0);
    lemma_vpn_bound(va);
    lemma_table_slot(h, root, vpn_field(va, 2) as int);
    lemma_leaf_entry_bits(pa, bits);
    lemma_map_from_walk(h, root + 8 * vpn_field(va, 2), va, 2, level, leaf_entry(pa, bits), Seq::empty());
}

/// Mapping a page and then translating an address in it gives the page's
/// physical address with the address's offset, provided the tables that
/// `map` passes through are left intact by what it writes (see
/// `map_keeps_path`), the permission bits stay below the PPN field and the
/// physical address fits the 56 bits that Sv39 holds.
pub proof fn lemma_map_then_translate(h: HeapView, root: int, va: usize, pa: usize, bits: u64, level: int)
    requires
        h.wf(),
        h.holds_table(root),
        0 <= level,
        bits & 0xe != 0,
        bits & !0x3ffu64 == 0,
        (pa as u64) >> 56u64 == 0,
        map_spec(h, root, va, pa, bits, level) is Done,
        map_keeps_path(h, root + 8 * vpn_field(va, 2), va, 2, level, Seq::empty()),
    ensures
        translate(map_spec(h, root, va, pa, bits, level)->Done_0, root, va) == Translation::Mapped(
            page_with_offset(pa, va, if level < 2 { level } else { 2 }),
        ),
{
    assert(h.alloc_start % 4096 == 0);
    lemma_vpn_bound(va);
    lemma_table_slot(h, root, vpn_field(va, 2) as int);
    lemma_leaf_entry_bits(pa, bits);
    let slot = root + 8 * vpn_field(va, 2);
    lemma_map_from_walk(h, slot, va, 2, level, leaf_entry(pa, bits), Seq::empty());
    lemma_leaf_entry_phys(pa, bits, va, if level < 2 { level } else { 2 });
}

/// The leaf entry `map` installs for `va` carries every bit of `bits`
/// (user, global, accessed, dirty and any bits above the PPN field
/// included) and, among the ten low bits, exactly those of `bits` and the
/// valid bit, provided the tables that `map` passes through are left intact
/// by what it writes (see `map_keeps_path`).
pub proof fn lemma_map_sets_entry_bits(h: HeapView, root: int, va: usize, pa: usize, bits: u64, level: int)
    requires
        h.wf(),
        h.holds_table(root),
        0 <= level,
        bits & 0xe != 0,
        map_spec(h, root, va, pa, bits, level) is Done,
        map_keeps_path(h, root + 8 * vpn_field(va, 2), va, 2, level, Seq::empty()),
    ensures
        leaf_for(map_spec(h, root, va, pa, bits, level)->Done_0, root, va) matches Some(e) && e & bits
            == bits && e & 0x3ff == (bits | 1) & 0x3ff,
{
    assert(h.alloc_start % 4096 == 0);
    lemma_vpn_bound(va);
    lemma_table_slot(h, root, vpn_field(va, 2) as int);
    lemma_leaf_entry_bits(pa, bits);
    let slot = root + 8 * vpn_field(va, 2);
    lemma_map_from_walk(h, slot, va, 2, level, leaf_entry(pa, bits), Seq::empty());
    lemma_leaf_entry_perm(pa, bits);
}

proof fn lemma_leaf_entry_perm(pa: usize, bits: u64)
    ensures
        leaf_entry(pa, bits) & bits == bits,
        leaf_entry(pa, bits) & 0x3ff == (bits | 1) & 0x3ff,
{
    let e = leaf_entry(pa, bits);
    assert(e & bits == bits && e & 0x3ff == (bits | 1) & 0x3ff) by (bit_vector)
        requires
            e == leaf_entry(pa, bits),
    ;
}

/// The pointers `unmap` frees for the first `n` entries of the table at `t`:
/// the tables its valid branch entries point to.
pub open spec fn inner_frees(h: HeapView, t: int, n: int) -> Seq<usize>
    decreases n,
{
    if n <= 0 {
        Seq::empty()
    } else {
        let e = h.word_at(t + 8 * (n - 1));
        inner_frees(h, t, n - 1) + if pte_valid(e) && !pte_leaf(e) {
            seq![pte_target(e) as usize]
        } else {
            Seq::empty()
        }
    }
}

/// The pointers `unmap` frees, in order, for the first `n` entries of the
/// root table: for each valid branch entry, what its table's branch entries
/// point to, then that table itself.
pub open spec fn unmap_frees(h: HeapView, root: int, n: int) -> Seq<usize>
    decreases n,
{
    if n <= 0 {
        Seq::empty()
    } else {
        let e = h.word_at(root + 8 * (n - 1));
        unmap_frees(h, root, n - 1) + if pte_valid(e) && !pte_leaf(e) {
            inner_frees(h, pte_target(e), 512).push(pte_target(e) as usize)
        } else {
            Seq::empty()
        }
    }
}

/// Every valid branch entry of the root table points to a table in the
/// allocation area.
pub open spec fn unmap_reads_ok(h: HeapView, root: int) -> bool {
    forall|k: int|
        0 <= k < 512 ==> {
            let e = #[trigger] h.word_at(root + 8 * k);
            pte_valid(e) && !pte_leaf(e) ==> h.holds_table(pte_target(e))
        }
}

proof fn lemma_inner_frees_prefix(h: HeapView, t: int, n: int, m: int)
    requires
        0 <= n <= m,
    ensures
        is_prefix(inner_frees(h, t, n), inner_frees(h, t, m)),
    decreases m,
{
    if n < m {
        lemma_inner_frees_prefix(h, t, n, m - 1);
        let e = h.word_at(t + 8 * (m - 1));
        let tail = if pte_valid(e) && !pte_leaf(e) {
            seq![pte_target(e) as usize]
        } else {
            Seq::empty()
        };
        assert(is_prefix(inner_frees(h, t, m - 1), inner_frees(h, t, m - 1) + tail));
        lemma_prefix_trans(inner_frees(h, t, n), inner_frees(h, t, m - 1), inner_frees(h, t, m));
    }
}

proof fn lemma_unmap_frees_prefix(h: HeapView, root: int, n: int, m: int)
    requires
        0 <= n <= m,
    ensures
        is_prefix(unmap_frees(h, root, n), unmap_frees(h, root, m)),
    decreases m,
{
    if n < m {
        lemma_unmap_frees_prefix(h, root, n, m - 1);
        let e = h.word_at(root + 8 * (m - 1));
        let tail = if pte_valid(e) && !pte_leaf(e) {
            inner_frees(h, pte_target(e), 512).push(pte_target(e) as usize)
        } else {
            Seq::empty()
        };
        assert(is_prefix(unmap_frees(h, root, m - 1), unmap_frees(h, root, m - 1) + tail));
        lemma_prefix_trans(unmap_frees(h, root, n), unmap_frees(h, root, m - 1), unmap_frees(h, root, m));
    }
}

/// Frees the tables below the root: for each valid branch entry of the root
/// table, the tables that its table's valid branch entries point to, then
/// that table. The entries themselves are left as they are.
pub fn unmap(heap: &mut Heap, root: usize)
    requires
        old(heap).wf(),
        old(heap)@.holds_table(root as int),
        unmap_reads_ok(old(heap)@, root as int),
        deallocs_ok(old(heap)@, unmap_frees(old(heap)@, root as int, 512)),
    ensures
        final(heap).wf(),
        final(heap)@ == after_deallocs(old(heap)@, unmap_frees(old(heap)@, root as int, 512)),
{
    let ghost h0 = heap@;
    let ghost full = unmap_frees(h0, root as int, 512);
    proof {
        heap.lemma_view_wf();
    }
    let mut v2: usize = 0;
    while v2 < Table::len()
        invariant
            heap.wf(),
            h0.wf(),
            h0.alloc_start % 4096 == 0,
            h0.holds_table(root as int),
            unmap_reads_ok(h0, root as int),
            full == unmap_frees(h0, root as int, 512),
            deallocs_ok(h0, full),
            v2 <= 512,
            heap@ == after_deallocs(h0, unmap_frees(h0, root as int, v2 as int)),
        decreases 512 - v2,
    {
        let ghost pre = unmap_frees(h0, root as int, v2 as int);
        proof {
            lemma_after_deallocs_layout(h0, pre);
            lemma_table_slot(h0, root as int, v2 as int);
            lemma_unmap_frees_prefix(h0, root as int, v2 as int + 1, 512);
        }
        let entry_v2 = Entry { entry: heap.read_word(root + 8 * v2) };
        assert(entry_v2.entry == h0.word_at(root + 8 * v2));
        if entry_v2.is_valid() && entry_v2.is_branch() {
            let v1_addr = ((entry_v2.entry & !0x3ff) << 2) as usize;
            assert(h0.holds_table(v1_addr as int));
            let ghost inner = inner_frees(h0, v1_addr as int, 512);
            assert(unmap_frees(h0, root as int, v2 as int + 1) == pre + inner.push(v1_addr));
            let mut v1: usize = 0;
            while v1 < Table::len()
                invariant
                    heap.wf(),
                    h0.wf(),
                    h0.alloc_start % 4096 == 0,
                    h0.holds_table(v1_addr as int),
                    full == unmap_frees(h0, root as int, 512),
                    deallocs_ok(h0, full),
                    is_prefix(pre + inner.push(v1_addr), full),
                    inner == inner_frees(h0, v1_addr as int, 512),
                    v1 <= 512,
                    heap@ == after_deallocs(h0, pre + inner_frees(h0, v1_addr as int, v1 as int)),
                decreases 512 - v1,
            {
                let ghost cur = pre + inner_frees(h0, v1_addr as int, v1 as int);
                proof {
                    lemma_after_deallocs_layout(h0, cur);
                    lemma_table_slot(h0, v1_addr as int, v1 as int);
                }
                let entry_v1 = Entry { entry: heap.read_word(v1_addr + 8 * v1) };
                assert(entry_v1.entry == h0.word_at(v1_addr + 8 * v1));
                if entry_v1.is_valid() && entry_v1.is_branch() {
                    let v0_addr = ((entry_v1.entry & !0x3ff) << 2) as usize;
                    proof {
                        assert(inner_frees(h0, v1_addr as int, v1 + 1) =~= inner_frees(h0, v1_addr as int, v1 as int).push(v0_addr));
                        assert(pre + inner_frees(h0, v1_addr as int, v1 + 1) =~= cur.push(v0_addr));
                        lemma_inner_frees_prefix(h0, v1_addr as int, v1 + 1, 512);
                        assert(is_prefix(inner, inner.push(v1_addr)));
                        lemma_prefix_trans(inner_frees(h0, v1_addr as int, v1 + 1), inner, inner.push(v1_addr));
                        lemma_prefix_concat(pre, inner_frees(h0, v1_addr as int, v1 + 1), inner.push(v1_addr));
                        lemma_prefix_trans(cur.push(v0_addr), pre + inner.push(v1_addr), full);
                        lemma_deallocs_ok_prefix(h0, cur.push(v0_addr), full);
                        lemma_deallocs_push(h0, cur, v0_addr);
                    }
                    heap.dealloc(v0_addr);
                } else {
                    assert(inner_frees(h0, v1_addr as int, v1 + 1) =~= inner_frees(h0, v1_addr as int, v1 as int));
                }
                v1 = v1 + 1;
            }
            proof {
                assert(is_prefix(pre + inner.push(v1_addr), full));
                lemma_deallocs_ok_prefix(h0, (pre + inner).push(v1_addr), full);
                assert(pre + inner.push(v1_addr) =~= (pre + inner).push(v1_addr));
                lemma_deallocs_push(h0, pre + inner, v1_addr);
            }
            heap.dealloc(v1_addr);
        } else {
            assert(unmap_frees(h0, root as int, v2 as int + 1) =~= pre);
        }
        v2 = v2 + 1;
    }
}

/// The outcome of `map` on `n` consecutive pages from `addr`, each mapped
/// to itself at the last level, stopping at the first that fails.
pub open spec fn map_range_from(h: HeapView, root: int, addr: int, n: int, bits: u64) -> MapOutcome
    decreases n,
{
    if n <= 0 {
        MapOutcome::Done(h)
    } else {
        match map_spec(h, root, addr as usize, addr as usize, bits, 0) {
            MapOutcome::Done(h2) => map_range_from(h2, root, addr + 4096, n - 1, bits),
            other => other,
        }
    }
}

/// The first page `map_range` maps for a range starting at `start`.
pub open spec fn range_first_page(start: usize) -> int {
    (start & !0xfffusize) as int
}

/// The number of pages `map_range` maps for `start .. end`.
pub open spec fn range_page_count(start: usize, end: usize) -> int {
    (page_align_up(end as int) - range_first_page(start)) / 4096
}

/// The inputs on which `map_range`'s arithmetic neither overflows nor
/// underflows.
pub open spec fn range_ok(start: usize, end: usize) -> bool {
    &&& end + 4095 <= usize::MAX
    &&& range_first_page(start) <= page_align_up(end as int)
}

/// Identity-maps every page from the one holding `start` up to `end`
/// rounded up to a page, with permission bits `bits`, one `map` at the last
/// level after another.
pub fn map_range(heap: &mut Heap, root: usize, start: usize, end: usize, bits: u64) -> (r: Result<(), MapError>)
    requires
        old(heap).wf(),
        old(heap)@.holds_table(root as int),
        bits & 0xe != 0,
        range_ok(start, end),
    ensures
        final(heap).wf(),
        final(heap)@.alloc_start == old(heap)@.alloc_start,
        final(heap)@.npages() == old(heap)@.npages(),
        match map_range_from(old(heap)@, root as int, range_first_page(start), range_page_count(start, end), bits) {
            MapOutcome::Done(h) => r is Ok && final(heap)@ == h,
            MapOutcome::OutOfMemory(h) => r matches Err(MapError::OutOfMemory) && final(heap)@ == h,
            MapOutcome::Outside(h) => r matches Err(MapError::TableOutsideMemory) && final(heap)@ == h,
        },
{
    let mut addr = start & !(PAGE_SIZE - 1);
    assert(addr == range_first_page(start)) by {
        assert(4096usize - 1 == 0xfffusize);
    }
    proof {
        lemma_align_page(end, 0);
    }
    let aligned = align_val(end, PAGE_ORDER);
    proof {
        lemma_align_page(end, aligned);
    }
    let num_pages = (aligned - addr) / PAGE_SIZE;
    assert(aligned % 4096 == 0);
    assert(addr % 4096 == 0) by {
        assert((start & !0xfffusize) % 4096 == 0) by (bit_vector);
    }
    assert(addr + num_pages * 4096 == aligned);
    let mut k: usize = 0;
    while k < num_pages
        invariant
            heap.wf(),
            heap@.alloc_start == old(heap)@.alloc_start,
            heap@.npages() == old(heap)@.npages(),
            heap@.holds_table(root as int),
            bits & 0xe != 0,
            k <= num_pages,
            addr == range_first_page(start) + k * 4096,
            addr + (num_pages - k) * 4096 == aligned,
            aligned <= usize::MAX,
            num_pages == range_page_count(start, end),
            map_range_from(heap@, root as int, addr as int, (num_pages - k) as int, bits)
                == map_range_from(old(heap)@, root as int, range_first_page(start), range_page_count(start, end), bits),
        decreases num_pages - k,
    {
        let r = map(heap, root, addr, addr, bits, 0);
        match r {
            Ok(()) => {},
            Err(e) => {
                return Err(e);
            },
        }
        assert(addr + 4096 <= aligned) by (nonlinear_arith)
            requires addr + (num_pages - k) * 4096 == aligned, k < num_pages;
        addr = addr + PAGE_SIZE;
        k = k + 1;
        assert(addr + (num_pages - k) * 4096 == aligned) by (nonlinear_arith)
            requires addr - 4096 + (num_pages - (k - 1)) * 4096 == aligned;
    }
    Ok(())
}

/// Allocates the root page table: one zeroed page of the heap.
pub fn init(heap: &mut Heap) -> (r: Option<usize>)
    requires
        old(heap).wf(),
        old(heap)@.npages() >= 1,
    ensures
        final(heap).wf(),
        final(heap)@ == old(heap)@.after_zalloc(1),
        r == old(heap)@.alloc_result(1),
        r matches Some(t) ==> final(heap)@.holds_table(t as int),
{
    let r = heap.zalloc(1);
    proof {
        if r is Some {
            let k = old(heap)@.alloc_index(1)->Some_0;
            lemma_first_fit_some(old(heap)@.flags, 1, k);
            let n = old(heap)@.npages();
            assert(k * 4096 + 4096 <= n * 4096 && (k * 4096) % 4096 == 0 && k * 4096 >= 0) by (nonlinear_arith)
                requires 0 <= k < n - 1;
            heap.lemma_view_wf();
            assert(final(heap)@.holds_table(old(heap)@.page_addr(k)));
        }
    }
    r
}

/// The physical page number of the root table at `addr`, as `satp` takes it.
pub fn satp_ppn(addr: usize) -> (r: usize)
    ensures
        r == addr / 4096,
{
    assert(addr >> 12usize == addr / 4096) by (bit_vector);
    addr >> 12
}

/// Walks depend only on the words and the extent of the allocation area.
proof fn lemma_walk_same_words(h1: HeapView, h2: HeapView, t: int, va: usize, level: int)
    requires
        h1.words == h2.words,
        h1.alloc_start == h2.alloc_start,
        h1.npages() == h2.npages(),
    ensures
        walk(h1, t, va, level) == walk(h2, t, va, level),
    decreases level,
{
    if h1.holds_table(t) {
        let e = h1.word_at(t + 8 * vpn_field(va, level));
        if pte_valid(e) && !pte_leaf(e) && level > 0 {
            lemma_walk_same_words(h1, h2, pte_target(e), va, level - 1);
        }
    }
}

/// Freeing the tables leaves every translation as it was: `unmap` clears
/// descriptors only, not the entries.
pub proof fn lemma_unmap_keeps_translations(h: HeapView, root: int, va: usize)
    requires
        h.wf(),
    ensures
        translate(after_deallocs(h, unmap_frees(h, root, 512)), root, va) == translate(h, root, va),
{
    lemma_after_deallocs_layout(h, unmap_frees(h, root, 512));
    lemma_walk_same_words(after_deallocs(h, unmap_frees(h, root, 512)), h, root, va, 2);
}

/// A freshly allocated root table maps nothing.
pub proof fn lemma_fresh_root_maps_nothing(h: HeapView, va: usize)
    requires
        h.wf(),
        h.alloc_result(1) is Some,
    ensures
        translate(h.after_zalloc(1), h.alloc_result(1)->Some_0 as int, va) == Translation::Unmapped,
{
    let root = h.alloc_result(1)->Some_0 as int;
    lemma_alloc_in_area(h, 1);
    lemma_vpn_bound(va);
    let slot = root + 8 * vpn_field(va, 2);
    assert(h.holds_word(slot));
    lemma_zalloc_zeroed(h, 1, slot);
    assert(!pte_valid(0u64)) by (bit_vector);
}

/// The tables on the walk for `va` below the root, when both exist: the
/// root's entry is a branch to a table `t1` of the allocation area, and
/// `t1`'s entry a branch to a last-level table `t2` of it.
pub open spec fn path_tables(h: HeapView, root: int, va: usize) -> Option<(int, int)> {
    let e0 = h.word_at(root + 8 * vpn_field(va, 2));
    let t1 = pte_target(e0);
    if pte_valid(e0) && !pte_leaf(e0) && h.holds_table(t1) {
        let e1 = h.word_at(t1 + 8 * vpn_field(va, 1));
        let t2 = pte_target(e1);
        if pte_valid(e1) && !pte_leaf(e1) && h.holds_table(t2) {
            Some((t1, t2))
        } else {
            None
        }
    } else {
        None
    }
}

proof fn lemma_same_region(x: usize, y: usize)
    requires
        x >> 21usize == y >> 21usize,
    ensures
        vpn_field(x, 1) == vpn_field(y, 1),
        vpn_field(x, 2) == vpn_field(y, 2),
{
    assert((x >> 21usize) & 0x1ffusize == (y >> 21usize) & 0x1ffusize) by (bit_vector)
        requires x >> 21usize == y >> 21usize;
    assert((x >> 30usize) & 0x1ffusize == (y >> 30usize) & 0x1ffusize) by (bit_vector)
        requires x >> 21usize == y >> 21usize;
}

proof fn lemma_distinct_pages_same_region(x: usize, y: usize)
    requires
        x >> 21usize == y >> 21usize,
        x / 4096 != y / 4096,
    ensures
        vpn_field(x, 0) != vpn_field(y, 0),
{
    assert(x >> 12usize == x / 4096 && y >> 12usize == y / 4096) by (bit_vector);
    assert((x >> 12usize) & 0x1ffusize != (y >> 12usize) & 0x1ffusize) by (bit_vector)
        requires x >> 21usize == y >> 21usize, x >> 12usize != y >> 12usize;
}

/// Tables on distinct page boundaries of the area do not share a slot.
proof fn lemma_tables_disjoint(h: HeapView, a: int, b: int, i: int, j: int)
    requires
        h.holds_table(a),
        h.holds_table(b),
        a != b,
        0 <= i < 512,
        0 <= j < 512,
    ensures
        a + 8 * i != b + 8 * j,
{
    let da = (a - h.alloc_start) / 4096;
    let db = (b - h.alloc_start) / 4096;
    assert(a - h.alloc_start == 4096 * da);
    assert(b - h.alloc_start == 4096 * db);
    assert(da != db);
}

/// `map` at the last level through tables that already exist writes the
/// leaf into the last-level table and nothing else.
proof fn lemma_map_existing_path(h: HeapView, root: int, va: usize, pa: usize, bits: u64)
    requires
        h.wf(),
        h.alloc_start % 4096 == 0,
        h.holds_table(root),
        path_tables(h, root, va) is Some,
    ensures
        map_spec(h, root, va, pa, bits, 0) == MapOutcome::Done(
            h.write(path_tables(h, root, va)->Some_0.1 + 8 * vpn_field(va, 0), leaf_entry(pa, bits)),
        ),
{
    let (t1, t2) = path_tables(h, root, va)->Some_0;
    let slot0 = root + 8 * vpn_field(va, 2);
    let slot1 = t1 + 8 * vpn_field(va, 1);
    let slot2 = t2 + 8 * vpn_field(va, 0);
    assert(install_table(h, slot0) == Some(h));
    assert(install_table(h, slot1) == Some(h));
    assert(map_from(h, slot2, va, 0, 0, leaf_entry(pa, bits)) == MapOutcome::Done(h.write(slot2, leaf_entry(pa, bits))));
    assert(map_from(h, slot1, va, 1, 0, leaf_entry(pa, bits)) == map_from(h, slot2, va, 0, 0, leaf_entry(pa, bits)));
}

/// Page `i` of the range starting at `first`.
pub open spec fn range_page(first: int, i: int) -> usize {
    (first + i * 4096) as usize
}

/// The middle table on the walk for `va`, when both lower tables exist.
pub open spec fn mid_table(h: HeapView, root: int, va: usize) -> int {
    path_tables(h, root, va)->Some_0.0
}

/// The last-level table on the walk for `va`, when both lower tables exist.
pub open spec fn leaf_table(h: HeapView, root: int, va: usize) -> int {
    path_tables(h, root, va)->Some_0.1
}

/// The entry that maps page `k` of the range starting at `first`.
pub open spec fn range_slot(h: HeapView, root: int, first: int, k: int) -> int {
    leaf_table(h, root, range_page(first, k)) + 8 * vpn_field(range_page(first, k), 0)
}

/// Both lower tables exist for every page of the `n` pages from `first`;
/// no last-level table among them is the root or one of their middle
/// tables; and pages share a last-level table only within one 2 MiB region.
pub open spec fn range_tables_ok(h: HeapView, root: int, first: int, n: int) -> bool {
    &&& forall|i: int|
        0 <= i < n ==> #[trigger] path_tables(h, root, range_page(first, i)) is Some && leaf_table(
            h,
            root,
            range_page(first, i),
        ) != root
    &&& forall|i: int, j: int|
        #![trigger range_page(first, i), range_page(first, j)]
        0 <= i < n && 0 <= j < n ==> leaf_table(h, root, range_page(first, i)) != mid_table(
            h,
            root,
            range_page(first, j),
        ) && (leaf_table(h, root, range_page(first, i)) == leaf_table(h, root, range_page(first, j))
            ==> range_page(first, i) >> 21usize == range_page(first, j) >> 21usize)
}

/// Entry `s` is one that the walk for `va` from `root` reads.
pub open spec fn walk_touches(h: HeapView, root: int, va: usize, s: int) -> bool {
    let s0 = root + 8 * vpn_field(va, 2);
    let e0 = h.word_at(s0);
    let t1 = pte_target(e0);
    let s1 = t1 + 8 * vpn_field(va, 1);
    let e1 = h.word_at(s1);
    let t2 = pte_target(e1);
    ||| s == s0
    ||| (pte_valid(e0) && !pte_leaf(e0) && h.holds_table(t1) && s == s1)
    ||| (pte_valid(e0) && !pte_leaf(e0) && h.holds_table(t1) && pte_valid(e1) && !pte_leaf(e1)
        && h.holds_table(t2) && s == t2 + 8 * vpn_field(va, 0))
}

/// A walk gives the same translation in two heaps of the same extent that
/// agree on the entries it reads.
proof fn lemma_walk_frame(h: HeapView, h2: HeapView, root: int, va: usize)
    requires
        h.alloc_start == h2.alloc_start,
        h.npages() == h2.npages(),
        forall|s: int| walk_touches(h, root, va, s) ==> h2.word_at(s) == h.word_at(s),
    ensures
        translate(h2, root, va) == translate(h, root, va),
{
    let s0 = root + 8 * vpn_field(va, 2);
    assert(walk_touches(h, root, va, s0));
    let e0 = h.word_at(s0);
    let t1 = pte_target(e0);
    if pte_valid(e0) && !pte_leaf(e0) && h.holds_table(t1) {
        let s1 = t1 + 8 * vpn_field(va, 1);
        assert(walk_touches(h, root, va, s1));
        let e1 = h.word_at(s1);
        let t2 = pte_target(e1);
        if pte_valid(e1) && !pte_leaf(e1) && h.holds_table(t2) {
            assert(walk_touches(h, root, va, t2 + 8 * vpn_field(va, 0)));
            assert(walk(h2, t2, va, 0) == walk(h, t2, va, 0));
        }
        assert(walk(h2, t1, va, 1) == walk(h, t1, va, 1));
    }
}

proof fn lemma_range_page_facts(first: int, n: int, i: int, j: int)
    requires
        0 <= first,
        first % 4096 == 0,
        first + n * 4096 <= usize::MAX + 1,
        0 <= i < n,
        0 <= j < n,
        i != j,
    ensures
        range_page(first, i) as int == first + i * 4096,
        (range_page(first, i) as int) / 4096 != (range_page(first, j) as int) / 4096,
{
    assert(first + i * 4096 <= usize::MAX) by (nonlinear_arith)
        requires 0 <= i < n, first + n * 4096 <= usize::MAX + 1;
    assert(first + j * 4096 <= usize::MAX) by (nonlinear_arith)
        requires 0 <= j < n, first + n * 4096 <= usize::MAX + 1;
    assert((first + i * 4096) / 4096 == first / 4096 + i) by (nonlinear_arith)
        requires first % 4096 == 0, 0 <= first, 0 <= i;
    assert((first + j * 4096) / 4096 == first / 4096 + j) by (nonlinear_arith)
        requires first % 4096 == 0, 0 <= first, 0 <= j;
}

/// Entries that map distinct pages of the range are distinct.
proof fn lemma_range_slots_distinct(h: HeapView, root: int, first: int, n: int, i: int, j: int)
    requires
        h.wf(),
        h.alloc_start % 4096 == 0,
        0 <= first,
        first % 4096 == 0,
        first + n * 4096 <= usize::MAX + 1,
        range_tables_ok(h, root, first, n),
        0 <= i < n,
        0 <= j < n,
        i != j,
    ensures
        range_slot(h, root, first, i) != range_slot(h, root, first, j),
{
    let a = range_page(first, i);
    let b = range_page(first, j);
    assert(path_tables(h, root, a) is Some);
    assert(path_tables(h, root, b) is Some);
    lemma_vpn_bound(a);
    lemma_vpn_bound(b);
    lemma_range_page_facts(first, n, i, j);
    if leaf_table(h, root, a) == leaf_table(h, root, b) {
        assert(a >> 21usize == b >> 21usize);
        lemma_distinct_pages_same_region(a, b);
    } else {
        lemma_tables_disjoint(h, leaf_table(h, root, a), leaf_table(h, root, b), vpn_field(a, 0) as int, vpn_field(b, 0) as int);
    }
}

/// An entry of the root or of a middle table of the range is no entry that
/// maps a page of the range.
proof fn lemma_range_slot_not_on_path(h: HeapView, root: int, first: int, n: int, k: int, t: int, idx: int)
    requires
        h.wf(),
        h.alloc_start % 4096 == 0,
        range_tables_ok(h, root, first, n),
        0 <= k < n,
        h.holds_table(t),
        0 <= idx < 512,
        t == root || exists|j: int| 0 <= j < n && t == mid_table(h, root, #[trigger] range_page(first, j)),
    ensures
        t + 8 * idx != range_slot(h, root, first, k),
{
    let a = range_page(first, k);
    assert(path_tables(h, root, a) is Some);
    lemma_vpn_bound(a);
    if t != root {
        let j = choose|j: int| 0 <= j < n && t == mid_table(h, root, #[trigger] range_page(first, j));
        assert(leaf_table(h, root, range_page(first, k)) != mid_table(h, root, range_page(first, j)));
    }
    lemma_tables_disjoint(h, t, leaf_table(h, root, a), idx, vpn_field(a, 0) as int);
}

proof fn lemma_map_range_tables(h: HeapView, root: int, addr: int, n: int, bits: u64)
    requires
        h.wf(),
        h.alloc_start % 4096 == 0,
        h.holds_table(root),
        0 <= n,
        0 <= addr,
        addr % 4096 == 0,
        addr + n * 4096 <= usize::MAX + 1,
        range_tables_ok(h, root, addr, n),
    ensures
        map_range_from(h, root, addr, n, bits) is Done,
        ({
            let h2 = map_range_from(h, root, addr, n, bits)->Done_0;
            &&& h2.wf()
            &&& h2.alloc_start == h.alloc_start
            &&& h2.npages() == h.npages()
            &&& forall|s: int|
                h.holds_word(s) && (forall|k: int| 0 <= k < n ==> s != #[trigger] range_slot(h, root, addr, k))
                    ==> h2.word_at(s) == h.word_at(s)
            &&& forall|k: int| 0 <= k < n ==> h2.word_at(#[trigger] range_slot(h, root, addr, k))
                == leaf_entry(range_page(addr, k), bits)
        }),
    decreases n,
{
    if n > 0 {
        let va = addr as usize;
        assert(range_page(addr, 0) == va);
        assert(path_tables(h, root, range_page(addr, 0)) is Some);
        let (t1, t2) = path_tables(h, root, va)->Some_0;
        lemma_vpn_bound(va);
        lemma_map_existing_path(h, root, va, va, bits);
        let slot = range_slot(h, root, addr, 0);
        lemma_table_slot(h, t2, vpn_field(va, 0) as int);
        let h1 = h.write(slot, leaf_entry(va, bits));
        let next = addr + 4096;
        assert(map_range_from(h, root, addr, n, bits) == map_range_from(h1, root, next, n - 1, bits));
        lemma_write_word(h, slot, leaf_entry(va, bits), slot);
        // The walks of the later pages read what they read before.
        assert forall|i: int| 0 <= i < n - 1 implies #[trigger] path_tables(h1, root, range_page(next, i))
            == path_tables(h, root, range_page(addr, i + 1)) by {
            let b = range_page(addr, i + 1);
            assert(range_page(next, i) == b);
            assert(path_tables(h, root, range_page(addr, i + 1)) is Some);
            lemma_vpn_bound(b);
            let s0 = root + 8 * vpn_field(b, 2);
            lemma_table_slot(h, root, vpn_field(b, 2) as int);
            lemma_range_slot_not_on_path(h, root, addr, n, 0, root, vpn_field(b, 2) as int);
            lemma_write_word(h, slot, leaf_entry(va, bits), s0);
            let m = mid_table(h, root, b);
            let s1 = m + 8 * vpn_field(b, 1);
            lemma_table_slot(h, m, vpn_field(b, 1) as int);
            lemma_range_slot_not_on_path(h, root, addr, n, 0, m, vpn_field(b, 1) as int);
            lemma_write_word(h, slot, leaf_entry(va, bits), s1);
        }
        assert(range_tables_ok(h1, root, next, n - 1)) by {
            assert forall|i: int, j: int|
                #![trigger range_page(next, i), range_page(next, j)]
                0 <= i < n - 1 && 0 <= j < n - 1 implies leaf_table(h1, root, range_page(next, i)) != mid_table(
                    h1,
                    root,
                    range_page(next, j),
                ) && (leaf_table(h1, root, range_page(next, i)) == leaf_table(h1, root, range_page(next, j))
                    ==> range_page(next, i) >> 21usize == range_page(next, j) >> 21usize) by {
                assert(path_tables(h1, root, range_page(next, i)) == path_tables(h, root, range_page(addr, i + 1)));
                assert(path_tables(h1, root, range_page(next, j)) == path_tables(h, root, range_page(addr, j + 1)));
                assert(range_page(next, i) == range_page(addr, i + 1));
                assert(range_page(next, j) == range_page(addr, j + 1));
            }
            assert forall|i: int| 0 <= i < n - 1 implies #[trigger] path_tables(h1, root, range_page(next, i)) is Some
                && leaf_table(h1, root, range_page(next, i)) != root by {
                assert(path_tables(h, root, range_page(addr, i + 1)) is Some);
            }
        }
        lemma_map_range_tables(h1, root, next, n - 1, bits);
        let h2 = map_range_from(h1, root, next, n - 1, bits)->Done_0;
        assert forall|k: int| 0 <= k < n - 1 implies #[trigger] range_slot(h1, root, next, k) == range_slot(
            h,
            root,
            addr,
            k + 1,
        ) by {
            assert(path_tables(h1, root, range_page(next, k)) == path_tables(h, root, range_page(addr, k + 1)));
            assert(range_page(next, k) == range_page(addr, k + 1));
        }
        assert forall|s: int|
            h.holds_word(s) && (forall|k: int| 0 <= k < n ==> s != #[trigger] range_slot(h, root, addr, k))
                implies h2.word_at(s) == h.word_at(s) by {
            assert(s != range_slot(h, root, addr, 0));
            lemma_write_word(h, slot, leaf_entry(va, bits), s);
            assert forall|k: int| 0 <= k < n - 1 implies s != #[trigger] range_slot(h1, root, next, k) by {
                assert(range_slot(h1, root, next, k) == range_slot(h, root, addr, k + 1));
            }
        }
        assert forall|k: int| 0 <= k < n implies h2.word_at(#[trigger] range_slot(h, root, addr, k))
            == leaf_entry(range_page(addr, k), bits) by {
            if k == 0 {
                assert forall|j: int| 0 <= j < n - 1 implies slot != #[trigger] range_slot(h1, root, next, j) by {
                    assert(range_slot(h1, root, next, j) == range_slot(h, root, addr, j + 1));
                    lemma_range_slots_distinct(h, root, addr, n, 0, j + 1);
                }
                assert(h1.holds_word(slot));
            } else {
                assert(range_slot(h, root, addr, k) == range_slot(h1, root, next, k - 1));
                assert(range_page(addr, k) == range_page(next, k - 1));
            }
        }
    } else {
        assert(map_range_from(h, root, addr, 0, bits) == MapOutcome::Done(h));
    }
}

proof fn lemma_page_of(x: usize, p: usize)
    requires
        p == x - x % 4096,
    ensures
        vpn_field(p, 0) == vpn_field(x, 0),
        (p & !offset_mask(0)) | (x & offset_mask(0)) == x,
        p <= x,
{
    assert((p >> 12usize) & 0x1ffusize == (x >> 12usize) & 0x1ffusize) by (bit_vector)
        requires p == x - x % 4096;
    assert((p & !0xfffusize) | (x & 0xfffusize) == x) by (bit_vector)
        requires p == x - x % 4096;
}

/// Identity-mapping a range through lower tables that already exist, with
/// the last-level tables apart from the root and the middle tables and
/// shared only within a 2 MiB region (`range_tables_ok`), succeeds and maps
/// every address of the range to itself.
pub proof fn lemma_map_range_identity(h: HeapView, root: int, first: int, n: int, bits: u64)
    requires
        h.wf(),
        h.holds_table(root),
        range_tables_ok(h, root, first, n),
        0 <= first,
        first % 4096 == 0,
        0 < n,
        first + n * 4096 <= usize::MAX + 1,
        bits & 0xe != 0,
        bits & !0x3ffu64 == 0,
        (((first + n * 4096 - 1) as usize) as u64) >> 56u64 == 0,
    ensures
        map_range_from(h, root, first, n, bits) is Done,
        forall|x: int|
            first <= x < first + n * 4096 ==> #[trigger] translate(map_range_from(h, root, first, n, bits)->Done_0, root, x as usize)
                == Translation::Mapped(x as usize),
{
    assert(h.alloc_start % 4096 == 0);
    lemma_map_range_tables(h, root, first, n, bits);
    let h2 = map_range_from(h, root, first, n, bits)->Done_0;
    assert forall|x: int| first <= x < first + n * 4096 implies #[trigger] translate(h2, root, x as usize)
        == Translation::Mapped(x as usize) by {
        let xu = x as usize;
        let k = (x - first) / 4096;
        let p = first + k * 4096;
        assert(p == x - x % 4096);
        assert(0 <= k < n);
        let pu = range_page(first, k);
        assert(pu as int == p);
        lemma_page_of(xu, pu);
        assert(xu >> 21usize == pu >> 21usize && vpn_field(xu, 0) == vpn_field(pu, 0)) by {
            assert(pu == xu - xu % 4096);
            assert(xu >> 21usize == pu >> 21usize) by (bit_vector)
                requires pu == xu - xu % 4096;
        }
        lemma_same_region(xu, pu);
        lemma_vpn_bound(xu);
        assert(path_tables(h, root, pu) is Some);
        let t1 = mid_table(h, root, pu);
        let t2 = leaf_table(h, root, pu);
        let slot0 = root + 8 * vpn_field(xu, 2);
        let slot1 = t1 + 8 * vpn_field(xu, 1);
        let slot2 = t2 + 8 * vpn_field(xu, 0);
        assert(slot2 == range_slot(h, root, first, k));
        lemma_table_slot(h, root, vpn_field(xu, 2) as int);
        lemma_table_slot(h, t1, vpn_field(xu, 1) as int);
        assert forall|j: int| 0 <= j < n implies slot0 != #[trigger] range_slot(h, root, first, j) && slot1
            != range_slot(h, root, first, j) by {
            lemma_range_slot_not_on_path(h, root, first, n, j, root, vpn_field(xu, 2) as int);
            assert(t1 == mid_table(h, root, range_page(first, k)));
            lemma_range_slot_not_on_path(h, root, first, n, j, t1, vpn_field(xu, 1) as int);
        }
        assert(h2.word_at(slot0) == h.word_at(slot0));
        assert(h2.word_at(slot1) == h.word_at(slot1));
        assert(h2.word_at(slot2) == leaf_entry(pu, bits));
        lemma_leaf_entry_bits(pu, bits);
        assert((pu as u64) >> 56u64 == 0) by {
            let top = (first + n * 4096 - 1) as usize;
            assert(pu <= top);
            assert((top as u64) >> 56u64 == 0 && pu <= top ==> (pu as u64) >> 56u64 == 0) by (bit_vector);
        }
        lemma_leaf_entry_phys(pu, bits, xu, 0);
        assert(walk(h2, t2, xu, 0) == Translation::Mapped(xu));
        assert(walk(h2, t1, xu, 1) == Translation::Mapped(xu));
    }
}

/// Identity-mapping a range as in `lemma_map_range_identity` leaves the
/// translation of every address whose walk reads none of the entries that
/// map the range's pages as it was.
pub proof fn lemma_map_range_frame(h: HeapView, root: int, first: int, n: int, bits: u64, va: usize)
    requires
        h.wf(),
        h.holds_table(root),
        range_tables_ok(h, root, first, n),
        0 <= first,
        first % 4096 == 0,
        0 <= n,
        first + n * 4096 <= usize::MAX + 1,
        forall|k: int| 0 <= k < n ==> !walk_touches(h, root, va, #[trigger] range_slot(h, root, first, k)),
    ensures
        map_range_from(h, root, first, n, bits) is Done,
        translate(map_range_from(h, root, first, n, bits)->Done_0, root, va) == translate(h, root, va),
{
    assert(h.alloc_start % 4096 == 0);
    lemma_map_range_tables(h, root, first, n, bits);
    let h2 = map_range_from(h, root, first, n, bits)->Done_0;
    lemma_vpn_bound(va);
    assert forall|s: int| walk_touches(h, root, va, s) implies h2.word_at(s) == h.word_at(s) by {
        let s0 = root + 8 * vpn_field(va, 2);
        let e0 = h.word_at(s0);
        let t1 = pte_target(e0);
        let s1 = t1 + 8 * vpn_field(va, 1);
        let e1 = h.word_at(s1);
        let t2 = pte_target(e1);
        lemma_table_slot(h, root, vpn_field(va, 2) as int);
        if pte_valid(e0) && !pte_leaf(e0) && h.holds_table(t1) {
            lemma_table_slot(h, t1, vpn_field(va, 1) as int);
            if pte_valid(e1) && !pte_leaf(e1) && h.holds_table(t2) {
                lemma_table_slot(h, t2, vpn_field(va, 0) as int);
            }
        }
        assert(h.holds_word(s));
        assert forall|k: int| 0 <= k < n implies s != #[trigger] range_slot(h, root, first, k) by {
            assert(!walk_touches(h, root, va, range_slot(h, root, first, k)));
        }
    }
    lemma_walk_frame(h, h2, root, va);
}

/// An address of the 2 MiB region of a page of the range, outside the
/// range, keeps its translation when the range is identity-mapped as in
/// `lemma_map_range_identity`.
pub proof fn lemma_map_range_frame_region(h: HeapView, root: int, first: int, n: int, bits: u64, va: usize, i: int)
    requires
        h.wf(),
        h.holds_table(root),
        range_tables_ok(h, root, first, n),
        0 <= first,
        first % 4096 == 0,
        0 <= i < n,
        first + n * 4096 <= usize::MAX + 1,
        va >> 21usize == range_page(first, i) >> 21usize,
        !(first <= va < first + n * 4096),
    ensures
        map_range_from(h, root, first, n, bits) is Done,
        translate(map_range_from(h, root, first, n, bits)->Done_0, root, va) == translate(h, root, va),
{
    assert(h.alloc_start % 4096 == 0);
    let a = range_page(first, i);
    assert(path_tables(h, root, a) is Some);
    lemma_same_region(va, a);
    lemma_vpn_bound(va);
    assert(path_tables(h, root, va) == path_tables(h, root, a));
    assert forall|k: int| 0 <= k < n implies !walk_touches(h, root, va, #[trigger] range_slot(h, root, first, k)) by {
        let b = range_page(first, k);
        assert(path_tables(h, root, b) is Some);
        lemma_vpn_bound(b);
        let t1 = mid_table(h, root, a);
        lemma_range_slot_not_on_path(h, root, first, n, k, root, vpn_field(va, 2) as int);
        lemma_range_slot_not_on_path(h, root, first, n, k, t1, vpn_field(va, 1) as int);
        let t2 = leaf_table(h, root, a);
        if t2 == leaf_table(h, root, b) {
            assert(a >> 21usize == b >> 21usize);
            assert(va >> 21usize == b >> 21usize);
            assert(first + k * 4096 <= usize::MAX) by (nonlinear_arith)
                requires 0 <= k < n, first + n * 4096 <= usize::MAX + 1;
            assert((first + k * 4096) / 4096 == first / 4096 + k) by (nonlinear_arith)
                requires first % 4096 == 0, 0 <= first, 0 <= k;
            assert(b as int == first + k * 4096);
            assert((b as int) / 4096 != (va as int) / 4096);
            lemma_distinct_pages_same_region(va, b);
        } else {
            lemma_tables_disjoint(h, t2, leaf_table(h, root, b), vpn_field(va, 0) as int, vpn_field(b, 0) as int);
        }
    }
    lemma_map_range_frame(h, root, first, n, bits, va);
}

/// Table `t` is one that the walk for `va` from `root` reads.
pub open spec fn walk_reads_table(h: HeapView, root: int, va: usize, t: int) -> bool {
    let e0 = h.word_at(root + 8 * vpn_field(va, 2));
    let t1 = pte_target(e0);
    let e1 = h.word_at(t1 + 8 * vpn_field(va, 1));
    let t2 = pte_target(e1);
    ||| t == root
    ||| (pte_valid(e0) && !pte_leaf(e0) && h.holds_table(t1) && t == t1)
    ||| (pte_valid(e0) && !pte_leaf(e0) && h.holds_table(t1) && pte_valid(e1) && !pte_leaf(e1)
        && h.holds_table(t2) && t == t2)
}

/// An address whose walk reads none of the last-level tables of the range
/// (an address of another 2 MiB region, where each region has tables of its
/// own) keeps its translation when the range is identity-mapped as in
/// `lemma_map_range_identity`.
pub proof fn lemma_map_range_frame_apart(h: HeapView, root: int, first: int, n: int, bits: u64, va: usize)
    requires
        h.wf(),
        h.holds_table(root),
        range_tables_ok(h, root, first, n),
        0 <= first,
        first % 4096 == 0,
        0 <= n,
        first + n * 4096 <= usize::MAX + 1,
        forall|k: int|
            0 <= k < n ==> !walk_reads_table(h, root, va, #[trigger] leaf_table(h, root, range_page(first, k))),
    ensures
        map_range_from(h, root, first, n, bits) is Done,
        translate(map_range_from(h, root, first, n, bits)->Done_0, root, va) == translate(h, root, va),
{
    assert(h.alloc_start % 4096 == 0);
    lemma_vpn_bound(va);
    assert forall|k: int| 0 <= k < n implies !walk_touches(h, root, va, #[trigger] range_slot(h, root, first, k)) by {
        let b = range_page(first, k);
        assert(path_tables(h, root, b) is Some);
        lemma_vpn_bound(b);
        let lt = leaf_table(h, root, b);
        assert(!walk_reads_table(h, root, va, lt));
        let e0 = h.word_at(root + 8 * vpn_field(va, 2));
        let t1 = pte_target(e0);
        let e1 = h.word_at(t1 + 8 * vpn_field(va, 1));
        let t2 = pte_target(e1);
        lemma_tables_disjoint(h, root, lt, vpn_field(va, 2) as int, vpn_field(b, 0) as int);
        if pte_valid(e0) && !pte_leaf(e0) && h.holds_table(t1) {
            lemma_tables_disjoint(h, t1, lt, vpn_field(va, 1) as int, vpn_field(b, 0) as int);
            if pte_valid(e1) && !pte_leaf(e1) && h.holds_table(t2) {
                lemma_tables_disjoint(h, t2, lt, vpn_field(va, 0) as int, vpn_field(b, 0) as int);
            }
        }
    }
    lemma_map_range_frame(h, root, first, n, bits, va);
}

/// The entry that maps page `q`: in its last-level table, at its index.
pub open spec fn page_slot(h: HeapView, root: int, q: int) -> int {
    leaf_table(h, root, q as usize) + 8 * vpn_field(q as usize, 0)
}

/// Both lower tables exist for every page of `pages`; no last-level table
/// among them is the root or one of their middle tables; and pages share a
/// last-level table only within one 2 MiB region.
pub open spec fn pages_tables_ok(h: HeapView, root: int, pages: spec_fn(int) -> bool) -> bool {
    &&& forall|p: int|
        #[trigger] pages(p) ==> 0 <= p <= usize::MAX && p % 4096 == 0 && path_tables(h, root, p as usize)
            is Some && leaf_table(h, root, p as usize) != root
    &&& forall|p: int, q: int|
        #[trigger] pages(p) && #[trigger] pages(q) ==> leaf_table(h, root, p as usize) != mid_table(
            h,
            root,
            q as usize,
        ) && (leaf_table(h, root, p as usize) == leaf_table(h, root, q as usize) ==> (p as usize)
            >> 21usize == (q as usize) >> 21usize)
}

/// Mapping one page of `pages` to itself writes its entry alone: the walks
/// of all pages of `pages` still reach the same tables.
proof fn lemma_map_page_in_set(h: HeapView, root: int, pages: spec_fn(int) -> bool, q0: int, bits: u64)
    requires
        h.wf(),
        h.alloc_start % 4096 == 0,
        h.holds_table(root),
        pages_tables_ok(h, root, pages),
        pages(q0),
    ensures
        map_spec(h, root, q0 as usize, q0 as usize, bits, 0) == MapOutcome::Done(
            h.write(page_slot(h, root, q0), leaf_entry(q0 as usize, bits)),
        ),
        ({
            let h2 = h.write(page_slot(h, root, q0), leaf_entry(q0 as usize, bits));
            &&& h2.wf()
            &&& h2.alloc_start == h.alloc_start
            &&& h2.npages() == h.npages()
            &&& pages_tables_ok(h2, root, pages)
            &&& forall|q: int| #[trigger] pages(q) ==> path_tables(h2, root, q as usize) == path_tables(h, root, q as usize)
            &&& forall|q: int| #[trigger] pages(q) && q != q0 ==> h2.word_at(page_slot(h, root, q)) == h.word_at(page_slot(h, root, q))
            &&& h2.word_at(page_slot(h, root, q0)) == leaf_entry(q0 as usize, bits)
        }),
{
    let a = q0 as usize;
    assert(path_tables(h, root, a) is Some);
    lemma_vpn_bound(a);
    lemma_map_existing_path(h, root, a, a, bits);
    let slot = page_slot(h, root, q0);
    let t2 = leaf_table(h, root, a);
    lemma_table_slot(h, t2, vpn_field(a, 0) as int);
    let leaf = leaf_entry(a, bits);
    let h2 = h.write(slot, leaf);
    lemma_write_word(h, slot, leaf, slot);
    assert forall|q: int| #[trigger] pages(q) implies path_tables(h2, root, q as usize) == path_tables(h, root, q as usize) by {
        let b = q as usize;
        assert(path_tables(h, root, b) is Some);
        lemma_vpn_bound(b);
        lemma_table_slot(h, root, vpn_field(b, 2) as int);
        lemma_tables_disjoint(h, root, t2, vpn_field(b, 2) as int, vpn_field(a, 0) as int);
        lemma_write_word(h, slot, leaf, root + 8 * vpn_field(b, 2));
        let m = mid_table(h, root, b);
        assert(t2 != m);
        lemma_table_slot(h, m, vpn_field(b, 1) as int);
        lemma_tables_disjoint(h, m, t2, vpn_field(b, 1) as int, vpn_field(a, 0) as int);
        lemma_write_word(h, slot, leaf, m + 8 * vpn_field(b, 1));
    }
    assert forall|q: int| #[trigger] pages(q) && q != q0 implies h2.word_at(page_slot(h, root, q)) == h.word_at(
        page_slot(h, root, q),
    ) by {
        let b = q as usize;
        assert(path_tables(h, root, b) is Some);
        lemma_vpn_bound(b);
        let tb = leaf_table(h, root, b);
        lemma_table_slot(h, tb, vpn_field(b, 0) as int);
        if tb == t2 {
            assert(a >> 21usize == b >> 21usize);
            assert(a / 4096 != b / 4096);
            lemma_distinct_pages_same_region(a, b);
        } else {
            lemma_tables_disjoint(h, tb, t2, vpn_field(b, 0) as int, vpn_field(a, 0) as int);
        }
        lemma_write_word(h, slot, leaf, page_slot(h, root, q));
    }
    assert(pages_tables_ok(h2, root, pages)) by {
        assert forall|p: int, q: int| #[trigger] pages(p) && #[trigger] pages(q) implies leaf_table(
            h2,
            root,
            p as usize,
        ) != mid_table(h2, root, q as usize) && (leaf_table(h2, root, p as usize) == leaf_table(
            h2,
            root,
            q as usize,
        ) ==> (p as usize) >> 21usize == (q as usize) >> 21usize) by {
            assert(path_tables(h2, root, p as usize) == path_tables(h, root, p as usize));
            assert(path_tables(h2, root, q as usize) == path_tables(h, root, q as usize));
        }
        assert forall|p: int| #[trigger] pages(p) implies 0 <= p <= usize::MAX && p % 4096 == 0 && path_tables(
            h2,
            root,
            p as usize,
        ) is Some && leaf_table(h2, root, p as usize) != root by {
            assert(path_tables(h2, root, p as usize) == path_tables(h, root, p as usize));
        }
    }
}

/// Identity-mapping `n` pages from `first`, all of them in `pages`, writes
/// the entries of those pages alone, each with the leaf entry for itself,
/// and leaves the walks of all pages of `pages` reaching the same tables.
pub proof fn lemma_map_range_in_set(h: HeapView, root: int, pages: spec_fn(int) -> bool, first: int, n: int, bits: u64)
    requires
        h.wf(),
        h.holds_table(root),
        pages_tables_ok(h, root, pages),
        0 <= n,
        first % 4096 == 0,
        forall|k: int| 0 <= k < n ==> #[trigger] pages(first + k * 4096),
    ensures
        map_range_from(h, root, first, n, bits) is Done,
        ({
            let h2 = map_range_from(h, root, first, n, bits)->Done_0;
            &&& h2.wf()
            &&& h2.alloc_start == h.alloc_start
            &&& h2.npages() == h.npages()
            &&& pages_tables_ok(h2, root, pages)
            &&& forall|q: int| #[trigger] pages(q) ==> path_tables(h2, root, q as usize) == path_tables(h, root, q as usize)
            &&& forall|q: int| #[trigger] pages(q) ==> h2.word_at(page_slot(h, root, q)) == if first <= q < first + n * 4096 {
                leaf_entry(q as usize, bits)
            } else {
                h.word_at(page_slot(h, root, q))
            }
        }),
    decreases n,
{
    assert(h.alloc_start % 4096 == 0);
    if n > 0 {
        assert(pages(first + 0 * 4096));
        assert(first + 0 * 4096 == first);
        lemma_map_page_in_set(h, root, pages, first, bits);
        let h1 = h.write(page_slot(h, root, first), leaf_entry(first as usize, bits));
        assert(range_page(first, 0) == first as usize);
        assert(map_range_from(h, root, first, n, bits) == map_range_from(h1, root, first + 4096, n - 1, bits));
        assert forall|k: int| 0 <= k < n - 1 implies #[trigger] pages((first + 4096) + k * 4096) by {
            assert((first + 4096) + k * 4096 == first + (k + 1) * 4096);
            assert(pages(first + (k + 1) * 4096));
        }
        assert(h1.alloc_start % 4096 == 0);
        lemma_map_range_in_set(h1, root, pages, first + 4096, n - 1, bits);
        let h2 = map_range_from(h1, root, first + 4096, n - 1, bits)->Done_0;
        assert forall|q: int| #[trigger] pages(q) implies page_slot(h1, root, q) == page_slot(h, root, q) by {
            assert(path_tables(h1, root, q as usize) == path_tables(h, root, q as usize));
        }
        assert forall|q: int| #[trigger] pages(q) implies h2.word_at(page_slot(h, root, q)) == if first <= q < first
            + n * 4096 {
            leaf_entry(q as usize, bits)
        } else {
            h.word_at(page_slot(h, root, q))
        } by {
            assert(page_slot(h1, root, q) == page_slot(h, root, q));
        }
    } else {
        assert(map_range_from(h, root, first, n, bits) == MapOutcome::Done(h));
    }
}

/// Where both lower tables of the walk for page `q` exist and its entry
/// holds the leaf entry mapping it to itself with `bits`, every address of
/// the page translates to itself through that entry, whose ten low bits
/// are those of `bits` and the valid bit.
pub proof fn lemma_page_entry_maps(h: HeapView, root: int, va: usize, bits: u64)
    requires
        h.wf(),
        h.holds_table(root),
        path_tables(h, root, (va - va % 4096) as usize) is Some,
        h.word_at(page_slot(h, root, va - va % 4096)) == leaf_entry((va - va % 4096) as usize, bits),
        bits & 0xe != 0,
        bits & !0x3ffu64 == 0,
        (va as u64) >> 56u64 == 0,
    ensures
        translate(h, root, va) == Translation::Mapped(va),
        leaf_for(h, root, va) matches Some(e) && e & 0x3ff == (bits | 1) & 0x3ff,
{
    let q = (va - va % 4096) as usize;
    lemma_page_of(va, q);
    assert(va >> 21usize == q >> 21usize) by (bit_vector)
        requires q == va - va % 4096;
    assert((q as u64) >> 56u64 == 0) by (bit_vector)
        requires q == va - va % 4096, (va as u64) >> 56u64 == 0;
    lemma_same_region(va, q);
    lemma_vpn_bound(va);
    lemma_leaf_entry_bits(q, bits);
    lemma_leaf_entry_phys(q, bits, va, 0);
    lemma_leaf_entry_perm(q, bits);
    let t1 = mid_table(h, root, q);
    let t2 = leaf_table(h, root, q);
    assert(walk(h, t2, va, 0) == Translation::Mapped(va));
    assert(walk(h, t1, va, 1) == Translation::Mapped(va));
    assert(reach(h, t2, va, 0) == Some(leaf_entry(q, bits)));
    assert(reach(h, t1, va, 1) == Some(leaf_entry(q, bits)));
}

} // verus!
