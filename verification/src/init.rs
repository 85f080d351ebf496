use vstd::prelude::*;
use crate::mem::page::{page_align_up, Heap, HeapView};
use crate::device::fdt::{
    cpus_query_check, cpus_query_ok, fdt_blob_check, fdt_blob_ok, soc_query_check, soc_query_ok,
    stdout_query_check, stdout_query_ok,
};
use crate::mem::mmu::{
    lemma_map_range_in_set, lemma_page_entry_maps, page_slot, pages_tables_ok, path_tables, leaf_entry,
    leaf_for, translate, Translation,
    self, map_range, map_range_from, range_first_page, range_ok, range_page_count, EntryBits,
    MapError, MapOutcome,
};

verus! {

/// Where the kernel's sections lie: each a `start .. end` range.
#[derive(Clone, Copy)]
pub struct KernelLayout {
    pub text_start: usize,
    pub text_end: usize,
    pub rodata_start: usize,
    pub rodata_end: usize,
    pub data_start: usize,
    pub data_end: usize,
    pub bss_start: usize,
    pub bss_end: usize,
    pub stack_start: usize,
    pub stack_end: usize,
}

/// The sections `init_mmu` maps, in order, with their permission bits:
/// code and read-only data readable and executable, the rest readable and
/// writable.
pub open spec fn kernel_sections(l: KernelLayout) -> Seq<(usize, usize, u64)> {
    seq![
        (l.text_start, l.text_end, 0xau64),
        (l.rodata_start, l.rodata_end, 0xau64),
        (l.data_start, l.data_end, 0x6u64),
        (l.bss_start, l.bss_end, 0x6u64),
        (l.stack_start, l.stack_end, 0x6u64),
    ]
}

/// `map_range` on each section in turn, stopping at the first that fails.
pub open spec fn map_sections(h: HeapView, root: int, secs: Seq<(usize, usize, u64)>) -> MapOutcome
    decreases secs.len(),
{
    if secs.len() == 0 {
        MapOutcome::Done(h)
    } else {
        let (start, end, bits) = secs[0];
        match map_range_from(h, root, range_first_page(start), range_page_count(start, end), bits) {
            MapOutcome::Done(h2) => map_sections(h2, root, secs.drop_first()),
            other => other,
        }
    }
}

/// Page `q` is one of those that `map_range` maps for the section `s`.
pub open spec fn section_has(s: (usize, usize, u64), q: int) -> bool {
    q % 4096 == 0 && range_first_page(s.0) <= q < page_align_up(s.1 as int)
}

/// Page `q` belongs to one of the sections `secs`.
pub open spec fn in_sections(secs: Seq<(usize, usize, u64)>, q: int) -> bool {
    exists|j: int| 0 <= j < secs.len() && section_has(#[trigger] secs[j], q)
}

/// Mapping sections whose pages lie in `pages`, page-disjoint from each
/// other, through lower tables that exist (`pages_tables_ok`) gives every
/// page of a section the leaf entry with that section's bits and leaves
/// every other entry of `pages` as it was.
proof fn lemma_map_sections_in_set(h: HeapView, root: int, pages: spec_fn(int) -> bool, secs: Seq<(usize, usize, u64)>)
    requires
        h.wf(),
        h.holds_table(root),
        pages_tables_ok(h, root, pages),
        forall|j: int| 0 <= j < secs.len() ==> range_ok(#[trigger] secs[j].0, secs[j].1),
        forall|j: int, q: int| 0 <= j < secs.len() && section_has(#[trigger] secs[j], q) ==> #[trigger] pages(q),
        forall|i: int, j: int, q: int|
            0 <= i < j < secs.len() && #[trigger] section_has(secs[i], q) ==> !#[trigger] section_has(secs[j], q),
    ensures
        map_sections(h, root, secs) is Done,
        ({
            let h2 = map_sections(h, root, secs)->Done_0;
            &&& h2.wf()
            &&& h2.alloc_start == h.alloc_start
            &&& h2.npages() == h.npages()
            &&& pages_tables_ok(h2, root, pages)
            &&& forall|q: int| #[trigger] pages(q) ==> path_tables(h2, root, q as usize) == path_tables(h, root, q as usize)
            &&& forall|j: int, q: int|
                0 <= j < secs.len() && section_has(#[trigger] secs[j], q) ==> h2.word_at(#[trigger] page_slot(h, root, q))
                    == leaf_entry(q as usize, secs[j].2)
            &&& forall|q: int| #[trigger] pages(q) && !in_sections(secs, q) ==> h2.word_at(page_slot(h, root, q)) == h.word_at(
                page_slot(h, root, q),
            )
        }),
    decreases secs.len(),
{
    if secs.len() == 0 {
        assert(map_sections(h, root, secs) == MapOutcome::Done(h));
    } else {
        let (start, end, bits) = secs[0];
        let first = range_first_page(start);
        let n = range_page_count(start, end);
        let pau = page_align_up(end as int);
        assert(range_ok(start, end));
        assert(first % 4096 == 0) by {
            assert((start & !0xfffusize) % 4096 == 0) by (bit_vector);
        }
        assert(pau % 4096 == 0) by (nonlinear_arith)
            requires pau == ((end as int + 4095) / 4096) * 4096;
        assert(n * 4096 == pau - first) by (nonlinear_arith)
            requires n == (pau - first) / 4096, (pau - first) % 4096 == 0, first % 4096 == 0, pau % 4096 == 0;
        assert(0 <= n);
        assert forall|k: int| 0 <= k < n implies #[trigger] pages(first + k * 4096) by {
            assert(section_has(secs[0], first + k * 4096));
        }
        lemma_map_range_in_set(h, root, pages, first, n, bits);
        let h1 = map_range_from(h, root, first, n, bits)->Done_0;
        let rest = secs.drop_first();
        assert forall|j: int, q: int| 0 <= j < rest.len() && section_has(#[trigger] rest[j], q) implies #[trigger] pages(q) by {
            assert(rest[j] == secs[j + 1]);
        }
        assert forall|i: int, j: int, q: int|
            0 <= i < j < rest.len() && #[trigger] section_has(rest[i], q) implies !#[trigger] section_has(rest[j], q) by {
            assert(rest[i] == secs[i + 1]);
            assert(rest[j] == secs[j + 1]);
        }
        lemma_map_sections_in_set(h1, root, pages, rest);
        let h2 = map_sections(h1, root, rest)->Done_0;
        assert(map_sections(h, root, secs) == map_sections(h1, root, rest));
        assert forall|q: int| #[trigger] pages(q) implies page_slot(h1, root, q) == page_slot(h, root, q) by {
            assert(path_tables(h1, root, q as usize) == path_tables(h, root, q as usize));
        }
        assert forall|j: int, q: int| 0 <= j < secs.len() && section_has(#[trigger] secs[j], q) implies h2.word_at(
            #[trigger] page_slot(h, root, q),
        ) == leaf_entry(q as usize, secs[j].2) by {
            assert(pages(q));
            assert(page_slot(h1, root, q) == page_slot(h, root, q));
            if j == 0 {
                assert(!in_sections(rest, q)) by {
                    if in_sections(rest, q) {
                        let j2 = choose|j2: int| 0 <= j2 < rest.len() && section_has(#[trigger] rest[j2], q);
                        assert(rest[j2] == secs[j2 + 1]);
                        assert(!section_has(secs[j2 + 1], q));
                    }
                }
            } else {
                assert(rest[j - 1] == secs[j]);
                assert(section_has(rest[j - 1], q));
            }
        }
        assert forall|q: int| #[trigger] pages(q) && !in_sections(secs, q) implies h2.word_at(page_slot(h, root, q))
            == h.word_at(page_slot(h, root, q)) by {
            assert(page_slot(h1, root, q) == page_slot(h, root, q));
            assert(!section_has(secs[0], q));
            assert(!in_sections(rest, q)) by {
                if in_sections(rest, q) {
                    let j2 = choose|j2: int| 0 <= j2 < rest.len() && section_has(#[trigger] rest[j2], q);
                    assert(rest[j2] == secs[j2 + 1]);
                    assert(in_sections(secs, q));
                }
            }
        }
    }
}

/// Page `q` is one of those of `start .. end`, from the page holding
/// `start` up to `end` rounded up to a page.
pub open spec fn range_has(start: usize, end: usize, q: int) -> bool {
    q % 4096 == 0 && range_first_page(start) <= q < page_align_up(end as int)
}

/// The pages of the kernel's code and read-only data.
pub open spec fn kernel_rx_page(l: KernelLayout, q: int) -> bool {
    range_has(l.text_start, l.text_end, q) || range_has(l.rodata_start, l.rodata_end, q)
}

/// The pages of the kernel's data, BSS and stack.
pub open spec fn kernel_rw_page(l: KernelLayout, q: int) -> bool {
    range_has(l.data_start, l.data_end, q) || range_has(l.bss_start, l.bss_end, q) || range_has(
        l.stack_start,
        l.stack_end,
        q,
    )
}

/// All pages of the kernel's sections.
pub open spec fn kernel_pages(l: KernelLayout) -> spec_fn(int) -> bool {
    |q: int| kernel_rx_page(l, q) || kernel_rw_page(l, q)
}

/// No page belongs to two of the kernel's sections.
pub open spec fn layout_pages_apart(l: KernelLayout) -> bool {
    let r = seq![
        (l.text_start, l.text_end),
        (l.rodata_start, l.rodata_end),
        (l.data_start, l.data_end),
        (l.bss_start, l.bss_end),
        (l.stack_start, l.stack_end),
    ];
    forall|i: int, j: int, q: int|
        0 <= i < j < 5 && #[trigger] range_has(r[i].0, r[i].1, q) ==> !#[trigger] range_has(r[j].0, r[j].1, q)
}

/// The kernel mapping that `init_mmu` installs once its root exists: into
/// page tables whose lower tables already exist for every page of the
/// kernel (`pages_tables_ok`), with no page in two sections, mapping the
/// sections succeeds, every address of a section (text, read-only data,
/// data, BSS and stack alike) translates to itself, and its entry has
/// exactly the read and execute bits for code and read-only data and the
/// read and write bits for data, BSS and stack, with the valid bit and no
/// other low bit.
pub proof fn lemma_kernel_sections_mapped(h: HeapView, root: int, l: KernelLayout, va: usize)
    requires
        h.wf(),
        h.holds_table(root),
        layout_ok(l),
        layout_pages_apart(l),
        pages_tables_ok(h, root, kernel_pages(l)),
        kernel_rx_page(l, va - va % 4096) || kernel_rw_page(l, va - va % 4096),
        (va as u64) >> 56u64 == 0,
    ensures
        map_sections(h, root, kernel_sections(l)) is Done,
        translate(map_sections(h, root, kernel_sections(l))->Done_0, root, va) == Translation::Mapped(va),
        kernel_rx_page(l, va - va % 4096) ==> (leaf_for(map_sections(h, root, kernel_sections(l))->Done_0, root, va)
            matches Some(e) && e & 0x3ff == 0xb),
        kernel_rw_page(l, va - va % 4096) ==> (leaf_for(map_sections(h, root, kernel_sections(l))->Done_0, root, va)
            matches Some(e) && e & 0x3ff == 0x7),
{
    let secs = kernel_sections(l);
    let pages = kernel_pages(l);
    let r = seq![
        (l.text_start, l.text_end),
        (l.rodata_start, l.rodata_end),
        (l.data_start, l.data_end),
        (l.bss_start, l.bss_end),
        (l.stack_start, l.stack_end),
    ];
    assert forall|j: int| 0 <= j < secs.len() implies range_ok(#[trigger] secs[j].0, secs[j].1) && secs[j].0
        == r[j].0 && secs[j].1 == r[j].1 by {
        if j == 0 {
        } else if j == 1 {
        } else if j == 2 {
        } else if j == 3 {
        } else {
        }
    }
    assert forall|j: int, q: int| 0 <= j < secs.len() && section_has(#[trigger] secs[j], q) implies #[trigger] pages(q) by {
        assert(secs[j].0 == r[j].0 && secs[j].1 == r[j].1);
        if j == 0 {
        } else if j == 1 {
        } else if j == 2 {
        } else if j == 3 {
        } else {
        }
    }
    assert forall|i: int, j: int, q: int|
        0 <= i < j < secs.len() && #[trigger] section_has(secs[i], q) implies !#[trigger] section_has(secs[j], q) by {
        assert(secs[i].0 == r[i].0 && secs[i].1 == r[i].1);
        assert(secs[j].0 == r[j].0 && secs[j].1 == r[j].1);
        assert(range_has(r[i].0, r[i].1, q));
        if range_has(r[j].0, r[j].1, q) {
            assert(!range_has(r[j].0, r[j].1, q));
        }
    }
    lemma_map_sections_in_set(h, root, pages, secs);
    let h2 = map_sections(h, root, secs)->Done_0;
    let q = va - va % 4096;
    assert(pages(q));
    let j = if range_has(l.text_start, l.text_end, q) {
        0int
    } else if range_has(l.rodata_start, l.rodata_end, q) {
        1int
    } else if range_has(l.data_start, l.data_end, q) {
        2int
    } else if range_has(l.bss_start, l.bss_end, q) {
        3int
    } else {
        4int
    };
    assert(secs[j].0 == r[j].0 && secs[j].1 == r[j].1);
    assert(section_has(secs[j], q));
    assert(h2.word_at(page_slot(h, root, q)) == leaf_entry(q as usize, secs[j].2));
    assert(path_tables(h2, root, q as usize) == path_tables(h, root, q as usize));
    assert(page_slot(h2, root, q) == page_slot(h, root, q));
    assert(0xau64 & 0xe != 0 && 0xau64 & !0x3ffu64 == 0 && (0xau64 | 1) & 0x3ff == 0xb) by (bit_vector);
    assert(0x6u64 & 0xe != 0 && 0x6u64 & !0x3ffu64 == 0 && (0x6u64 | 1) & 0x3ff == 0x7) by (bit_vector);
    lemma_page_entry_maps(h2, root, va, secs[j].2);
    if kernel_rx_page(l, q) {
        assert(j <= 1);
    }
    if kernel_rw_page(l, q) {
        assert(j >= 2) by {
            if j <= 1 {
                assert(range_has(r[j].0, r[j].1, q));
                if range_has(l.data_start, l.data_end, q) {
                    assert(range_has(r[2].0, r[2].1, q));
                } else if range_has(l.bss_start, l.bss_end, q) {
                    assert(range_has(r[3].0, r[3].1, q));
                } else {
                    assert(range_has(r[4].0, r[4].1, q));
                }
            }
        }
    }
}

pub open spec fn layout_ok(l: KernelLayout) -> bool {
    &&& range_ok(l.text_start, l.text_end)
    &&& range_ok(l.rodata_start, l.rodata_end)
    &&& range_ok(l.data_start, l.data_end)
    &&& range_ok(l.bss_start, l.bss_end)
    &&& range_ok(l.stack_start, l.stack_end)
}

/// Sets up the kernel's page tables: allocates the root table, then
/// identity-maps the kernel's sections into it. Returns the root table's
/// address, which goes into `satp`.
pub fn init_mmu(heap: &mut Heap, layout: &KernelLayout) -> (r: Result<usize, MapError>)
    requires
        old(heap).wf(),
        old(heap)@.npages() >= 1,
        layout_ok(*layout),
    ensures
        final(heap).wf(),
        match old(heap)@.alloc_result(1) {
            None => r matches Err(MapError::OutOfMemory) && final(heap)@ == old(heap)@,
            Some(root) => match map_sections(old(heap)@.after_zalloc(1), root as int, kernel_sections(*layout)) {
                MapOutcome::Done(h) => r == Ok::<usize, MapError>(root) && final(heap)@ == h,
                MapOutcome::OutOfMemory(h) => r matches Err(MapError::OutOfMemory) && final(heap)@ == h,
                MapOutcome::Outside(h) => r matches Err(MapError::TableOutsideMemory) && final(heap)@ == h,
            },
        },
{
    let root = match mmu::init(heap) {
        Some(t) => t,
        None => {
            return Err(MapError::OutOfMemory);
        },
    };
    assert(0xau64 & 0xe != 0 && 0x6u64 & 0xe != 0) by (bit_vector);
    let ghost secs = kernel_sections(*layout);
    let ghost h1 = heap@;
    assert(secs.subrange(0, 5) =~= secs);
    let ranges = [
        (layout.text_start, layout.text_end, EntryBits::ReadExecute.val()),
        (layout.rodata_start, layout.rodata_end, EntryBits::ReadExecute.val()),
        (layout.data_start, layout.data_end, EntryBits::ReadWrite.val()),
        (layout.bss_start, layout.bss_end, EntryBits::ReadWrite.val()),
        (layout.stack_start, layout.stack_end, EntryBits::ReadWrite.val()),
    ];
    assert(ranges@ =~= secs);
    assert(forall|m: int| 0 <= m < 5 ==> range_ok(#[trigger] secs[m].0, secs[m].1) && secs[m].2 & 0xe != 0);
    let mut n: usize = 0;
    while n < 5
        invariant
            heap.wf(),
            heap@.holds_table(root as int),
            heap@.alloc_start == h1.alloc_start,
            heap@.npages() == h1.npages(),
            h1.holds_table(root as int),
            ranges@ == secs,
            secs == kernel_sections(*layout),
            forall|m: int| 0 <= m < 5 ==> range_ok(#[trigger] secs[m].0, secs[m].1) && secs[m].2 & 0xe != 0,
            h1 == old(heap)@.after_zalloc(1),
            old(heap)@.alloc_result(1) == Some(root),
            n <= 5,
            map_sections(heap@, root as int, secs.subrange(n as int, 5)) == map_sections(h1, root as int, secs),
        decreases 5 - n,
    {
        let (start, end, bits) = ranges[n];
        assert(secs[n as int] == (start, end, bits));
        assert(secs.subrange(n as int, 5)[0] == (start, end, bits));
        assert(secs.subrange(n as int, 5).drop_first() =~= secs.subrange(n + 1, 5));
        match map_range(heap, root, start, end, bits) {
            Ok(()) => {},
            Err(e) => {
                return Err(e);
            },
        }
        n = n + 1;
    }
    assert(secs.subrange(5, 5) =~= Seq::<(usize, usize, u64)>::empty());
    Ok(root)
}

/// The first region of the `/memory` node of the device tree held in
/// `blob`: its start address and, where given, its size.
pub uninterp spec fn fdt_memory_region(blob: Seq<u8>) -> Option<(usize, Option<usize>)>;

/// `fdt::Fdt::new` on `blob`, then `Fdt::find_node("/memory")`, the node's
/// `reg` property (`FdtNode::reg`, which `Memory::regions` reads too) and
/// its first region. The contract only names the result, a function of the
/// blob alone. The `requires` keeps to blobs on which these calls do not
/// panic (see `fdt_blob_ok`): the blocks lie inside the total size, which
/// fits the buffer (`Fdt::structs_block`, `strings_block`); every node and
/// property token that `find_node`, `skip_current_node` and `reg` read is
/// where they expect it (`NodeProperty::parse`), NOP tokens only where they
/// skip them (`skip_nops`, `FdtNode::properties`), with NUL-terminated
/// UTF-8 names (their `expect` and `as_str().unwrap()`), values and name
/// offsets in bounds (the slices in `parse` and `cstr_at_offset`), and cell
/// counts of at least four bytes (`cell_sizes`); and the root has a
/// `memory` child, so that `find_node` finds it without falling back on the
/// aliases.
#[verifier::external_body]
fn first_memory_region(blob: &[u8]) -> (r: Option<(usize, Option<usize>)>)
    requires
        fdt_blob_ok(blob@),
    ensures
        r == fdt_memory_region(blob@),
{
    let fdt = fdt::Fdt::new(blob).ok()?;
    let region = fdt.find_node("/memory")?.reg()?.next()?;
    Some((region.starting_address as usize, region.size))
}

/// The first region of the device tree's memory node: `None` where the
/// tree is not one that the `fdt` crate reads to that node
/// (`fdt_blob_ok`).
pub fn memory_region(blob: &[u8]) -> (r: Option<Option<(usize, Option<usize>)>>)
    ensures
        r == (if fdt_blob_ok(blob@) {
            Some(fdt_memory_region(blob@))
        } else {
            None
        }),
{
    if fdt_blob_check(blob) {
        Some(first_memory_region(blob))
    } else {
        None
    }
}

/// Whether the memory region `region` of the device tree gives a heap at
/// `heap_start`: it has a size, its end fits a `usize`, and a heap of that
/// size fits at `heap_start`.
pub open spec fn region_gives_heap(region: Option<(usize, Option<usize>)>, heap_start: usize) -> bool {
    match region {
        Some((start, Some(size))) => start + size <= usize::MAX && Heap::init_ok(
            heap_start as int,
            size as int,
        ),
        _ => false,
    }
}

/// The region has a size, its end fits a `usize`, and so do the end of a
/// heap of that size at `heap_start` and the first page boundary after its
/// page descriptors together with the pages after it.
pub open spec fn heap_fits(region: Option<(usize, Option<usize>)>, heap_start: usize) -> bool {
    match region {
        Some((start, Some(size))) => {
            &&& start + size <= usize::MAX
            &&& heap_start + size <= usize::MAX
            &&& heap_start + size / 4096 + 4095 + size / 4096 * 4096 <= usize::MAX
        },
        _ => false,
    }
}

/// A memory region gives a heap exactly when nothing overflows a `usize`:
/// any region with a size whose end, and whose heap at `heap_start`, fit.
pub proof fn lemma_region_gives_heap_unless_overflow(region: Option<(usize, Option<usize>)>, heap_start: usize)
    ensures
        region_gives_heap(region, heap_start) <==> heap_fits(region, heap_start),
{
}

/// The heap that the device tree's memory region `region` gives: from
/// `heap_start`, with the region's whole size. `None` where the region or
/// its size is missing or the arithmetic would overflow.
pub fn heap_for_region(region: Option<(usize, Option<usize>)>, heap_start: usize) -> (r: Option<Heap>)
    ensures
        region_gives_heap(region, heap_start) <==> r is Some,
        heap_fits(region, heap_start) <==> r is Some,
        r matches Some(h) ==> h.wf() && h@ == Heap::init_view(heap_start as int, region->Some_0.1->Some_0 as int),
{
    match region {
        Some((start, Some(size))) => {
            if start > usize::MAX - size {
                return None;
            }
            if heap_start > usize::MAX - size {
                return None;
            }
            let pages = size / 4096;
            let total = heap_start + pages * 4096;
            if total > usize::MAX - pages {
                return None;
            }
            if total + pages > usize::MAX - 4095 {
                return None;
            }
            Some(Heap::init(heap_start, size))
        },
        _ => None,
    }
}

/// Reads the device tree in `blob` and sets up the heap from `heap_start`
/// with the size of the first memory region. `None` for a device tree that
/// fails `fdt_blob_ok`, one whose memory region gives no size, and where
/// the arithmetic would overflow.
pub fn process_device_info(blob: &[u8], heap_start: usize) -> (r: Option<Heap>)
    ensures
        (fdt_blob_ok(blob@) && region_gives_heap(fdt_memory_region(blob@), heap_start)) <==> r is Some,
        (fdt_blob_ok(blob@) && heap_fits(fdt_memory_region(blob@), heap_start)) <==> r is Some,
        r matches Some(h) ==> h.wf() && h@ == Heap::init_view(
            heap_start as int,
            fdt_memory_region(blob@)->Some_0.1->Some_0 as int,
        ),
{
    if !fdt_blob_check(blob) {
        return None;
    }
    let region = first_memory_region(blob);
    heap_for_region(region, heap_start)
}

/// Whole mebibytes between `start` and `end`.
pub fn size_in_mib(start: usize, end: usize) -> (r: usize)
    requires
        start <= end,
    ensures
        r == (end - start) / 1024 / 1024,
{
    (end - start) / 1024 / 1024
}

/// The number of `cpu` nodes under `/cpus` in the device tree held in
/// `blob`.
pub uninterp spec fn fdt_cpu_count(blob: Seq<u8>) -> usize;

/// `fdt::Fdt::new` on `blob`, then `Fdt::cpus` and the number of nodes it
/// yields: the children of `/cpus` whose name before any `@` is `cpu`. The
/// contract names the result, a function of the blob alone. The `requires`
/// keeps to trees on which `Fdt::new` succeeds and nothing panics: a
/// well-formed tree (`skip_current_node`, `NodeProperty::parse`,
/// `FdtNode::children`) with a `cpus` node among the root's children (the
/// `expect` in `cpus`).
#[verifier::external_body]
fn fdt_cpus(blob: &[u8]) -> (r: usize)
    requires
        cpus_query_ok(blob@),
    ensures
        r == fdt_cpu_count(blob@),
{
    fdt::Fdt::new(blob).unwrap().cpus().count()
}

/// The number of CPUs the device tree in `blob` lists; `None` where the
/// tree is not one that `Fdt::cpus` reads (`cpus_query_ok`).
pub fn cpu_count(blob: &[u8]) -> (r: Option<usize>)
    ensures
        r == (if cpus_query_ok(blob@) {
            Some(fdt_cpu_count(blob@))
        } else {
            None
        }),
{
    if cpus_query_check(blob) {
        Some(fdt_cpus(blob))
    } else {
        None
    }
}

/// The names of the children of `/soc` in the device tree held in `blob`,
/// as bytes; `None` where there is no such node.
pub uninterp spec fn fdt_soc_children(blob: Seq<u8>) -> Option<Seq<Seq<u8>>>;

/// `fdt::Fdt::new` on `blob`, then `Fdt::find_node("/soc")` and the names
/// of its children (`FdtNode::children`), each as its bytes. The contract
/// names the result, a function of the blob alone. The `requires` keeps to
/// trees on which `Fdt::new` succeeds and nothing panics: a well-formed
/// tree with a `soc` node among the root's children or no `aliases` node,
/// so that `find_node` does not resolve the path through the aliases.
#[verifier::external_body]
fn fdt_soc(blob: &[u8]) -> (r: Option<Vec<Vec<u8>>>)
    requires
        soc_query_ok(blob@),
    ensures
        r.deep_view() == fdt_soc_children(blob@),
{
    let fdt = fdt::Fdt::new(blob).unwrap();
    let soc = fdt.find_node("/soc")?;
    let mut names = Vec::new();
    for child in soc.children() {
        names.push(child.name.as_bytes().to_vec());
    }
    Some(names)
}

/// The names of the nodes under `/soc`: `None` where the tree is not one
/// that `find_node` reads (`soc_query_ok`), `Some(None)` where it has no
/// `/soc` node.
pub fn soc_children(blob: &[u8]) -> (r: Option<Option<Vec<Vec<u8>>>>)
    ensures
        r is Some <==> soc_query_ok(blob@),
        r matches Some(names) ==> names.deep_view() == fdt_soc_children(blob@),
{
    if soc_query_check(blob) {
        Some(fdt_soc(blob))
    } else {
        None
    }
}

/// The name of the node that the `stdout-path` of `/chosen` in the device
/// tree held in `blob` leads to, as bytes; `None` where there is none.
pub uninterp spec fn fdt_stdout_name(blob: Seq<u8>) -> Option<Seq<u8>>;

/// `fdt::Fdt::new` on `blob`, then `Fdt::chosen`, `Chosen::stdout` and the
/// name of the node it finds, as bytes. The contract names the result, a
/// function of the blob alone. The `requires` keeps to trees on which
/// `Fdt::new` succeeds and nothing panics or recurses without end: a
/// well-formed tree with no NOP token before the root's properties (for a
/// path not beginning with `/`, `find_node` skips the root with
/// `skip_current_node`), with a `chosen` node (the `expect` in `chosen`) whose
/// first `stdout-path` is not empty (the slice `..len - 1` in `stdout`),
/// and no `aliases` node, through which `find_node` could resolve a path
/// over and over.
#[verifier::external_body]
fn fdt_stdout(blob: &[u8]) -> (r: Option<Vec<u8>>)
    requires
        stdout_query_ok(blob@),
    ensures
        r.deep_view() == fdt_stdout_name(blob@),
{
    let fdt = fdt::Fdt::new(blob).unwrap();
    let stdout = fdt.chosen().stdout()?;
    Some(stdout.name.as_bytes().to_vec())
}

/// The name of the node that `/chosen` gives as standard output: `None`
/// where the tree is not one that `Chosen::stdout` reads
/// (`stdout_query_ok`), `Some(None)` where it names no node that exists.
pub fn stdout_name(blob: &[u8]) -> (r: Option<Option<Vec<u8>>>)
    ensures
        r is Some <==> stdout_query_ok(blob@),
        r matches Some(name) ==> name.deep_view() == fdt_stdout_name(blob@),
{
    if stdout_query_check(blob) {
        Some(fdt_stdout(blob))
    } else {
        None
    }
}

} // verus!
