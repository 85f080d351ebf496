use moeos::device::fdt::fdt_blob_check;
use moeos::init::{heap_for_region, init_mmu, process_device_info, size_in_mib, KernelLayout};
use moeos::mem::mmu::{virt_to_phys, MapError};
use moeos::mem::page::{Heap, PAGE_SIZE};

fn be(v: u32) -> [u8; 4] {
    v.to_be_bytes()
}

fn push_str_padded(out: &mut Vec<u8>, s: &str) {
    out.extend_from_slice(s.as_bytes());
    out.push(0);
    while out.len() % 4 != 0 {
        out.push(0);
    }
}

/// A flattened device tree with a root node (two address and two size
/// cells) and, when `reg` is given, a `memory@...` node with that region.
fn dtb(reg: Option<(u64, u64)>) -> Vec<u8> {
    dtb_tree(reg, None, false)
}

/// As `dtb`, with an empty child `sibling` before the memory node where one
/// is named, and with NOP tokens where the format allows them when `nops`
/// holds: before the root, after its name, before the memory node's
/// property, and before each end token.
fn dtb_tree(reg: Option<(u64, u64)>, sibling: Option<&str>, nops: bool) -> Vec<u8> {
    let strings = b"#address-cells\0#size-cells\0reg\0";
    let nop = |st: &mut Vec<u8>| {
        if nops {
            st.extend_from_slice(&be(4));
        }
    };
    let mut st: Vec<u8> = Vec::new();
    nop(&mut st);
    st.extend_from_slice(&be(1));
    push_str_padded(&mut st, "");
    nop(&mut st);
    for (off, val) in [(0u32, 2u32), (15, 2)] {
        st.extend_from_slice(&be(3));
        st.extend_from_slice(&be(4));
        st.extend_from_slice(&be(off));
        st.extend_from_slice(&be(val));
    }
    if let Some(name) = sibling {
        st.extend_from_slice(&be(1));
        push_str_padded(&mut st, name);
        nop(&mut st);
        st.extend_from_slice(&be(2));
    }
    if let Some((addr, size)) = reg {
        st.extend_from_slice(&be(1));
        push_str_padded(&mut st, "memory@80000000");
        nop(&mut st);
        st.extend_from_slice(&be(3));
        st.extend_from_slice(&be(16));
        st.extend_from_slice(&be(27));
        st.extend_from_slice(&addr.to_be_bytes());
        st.extend_from_slice(&size.to_be_bytes());
        nop(&mut st);
        st.extend_from_slice(&be(2));
    }
    nop(&mut st);
    st.extend_from_slice(&be(2));
    st.extend_from_slice(&be(9));
    let off_rsv = 40u32;
    let off_struct = off_rsv + 16;
    let off_strings = off_struct + st.len() as u32;
    let total = off_strings + strings.len() as u32;
    let mut out = Vec::new();
    for v in [
        0xd00d_feed,
        total,
        off_struct,
        off_strings,
        off_rsv,
        17,
        16,
        0,
        strings.len() as u32,
        st.len() as u32,
    ] {
        out.extend_from_slice(&be(v));
    }
    out.extend_from_slice(&[0u8; 16]);
    out.extend_from_slice(&st);
    out.extend_from_slice(strings);
    out
}

#[test]
fn device_info_sets_up_the_heap_from_the_memory_node() {
    let blob = dtb(Some((0x8000_0000, 0x10_0000)));
    let h = process_device_info(&blob, 0x8020_0000).expect("memory region");
    assert_eq!(h.heap_start(), 0x8020_0000);
    // The heap gets the whole region's size.
    assert_eq!(h.heap_size(), 0x10_0000);
    assert_eq!(h.num_pages(), 256);
}

#[test]
fn device_info_without_memory_node() {
    assert!(process_device_info(&dtb(None), 0x8020_0000).is_none());
    assert!(process_device_info(&[0u8; 64], 0x8020_0000).is_none());
}

#[test]
fn heap_for_region_cases() {
    let h = heap_for_region(Some((0x8000_0000, Some(0x4000))), 0x8010_0000).unwrap();
    assert_eq!(h.heap_start(), 0x8010_0000);
    assert_eq!(h.heap_size(), 0x4000);
    assert_eq!(h.num_pages(), 4);
    assert!(heap_for_region(None, 0x8010_0000).is_none());
    assert!(heap_for_region(Some((0x8000_0000, None)), 0x8010_0000).is_none());
    assert!(heap_for_region(Some((usize::MAX - 10, Some(0x4000))), 0x8010_0000).is_none());
    assert!(heap_for_region(Some((0, Some(0x4000))), usize::MAX - 0x4000).is_none());
}

#[test]
fn size_in_mib_rounds_down() {
    assert_eq!(size_in_mib(0x8000_0000, 0x8400_0000), 64);
    assert_eq!(size_in_mib(0, 0x1f_ffff), 1);
    assert_eq!(size_in_mib(5, 5), 0);
}

fn layout() -> KernelLayout {
    KernelLayout {
        text_start: 0x4062_5000,
        text_end: 0x4062_6000,
        rodata_start: 0x4062_6000,
        rodata_end: 0x4062_7000,
        data_start: 0x4062_7000,
        data_end: 0x4062_7800,
        bss_start: 0x4062_8000,
        bss_end: 0x4062_9000,
        stack_start: 0x4062_9000,
        stack_end: 0x4062_a000,
    }
}

#[test]
fn init_mmu_allocates_the_root_and_maps() {
    let mut h = Heap::init(0x1000, 16 * PAGE_SIZE);
    let root = init_mmu(&mut h, &layout());
    assert!(matches!(root, Ok(0x2000)));
    assert_eq!(h.page_flags(0), 2);
    // The root page reads as free after its allocation, so the tables are
    // allocated over it and the root entry is lost.
    assert_eq!(virt_to_phys(&h, 0x2000, 0x4062_5000), None);
}

#[test]
fn init_mmu_without_memory() {
    let mut h = Heap::init(0x1000, PAGE_SIZE);
    assert!(matches!(init_mmu(&mut h, &layout()), Err(MapError::OutOfMemory)));
    assert_eq!(h.page_flags(0), 0);
}

fn set_be(blob: &mut [u8], at: usize, v: u32) {
    blob[at..at + 4].copy_from_slice(&v.to_be_bytes());
}

#[test]
fn fdt_blob_check_accepts_a_well_formed_tree() {
    assert!(fdt_blob_check(&dtb(Some((0x8000_0000, 0x10_0000)))));
}

#[test]
fn fdt_blob_check_refuses_what_the_parser_cannot_read() {
    let good = dtb(Some((0x8000_0000, 0x10_0000)));
    let len = good.len() as u32;
    // Structure block at 56: root begin (56), empty name (60), two cell
    // properties (64, 80), memory node (96), its `reg` (116), ends at 144,
    // root end at 148.
    let cases: Vec<(usize, u32)> = vec![
        (0, 0xd00d_fee0),  // magic
        (4, len + 1),      // total size past the buffer
        (36, 0x1000),      // structure block past the total size
        (64, 5),           // a token where a property or node is due
        (68, 2),           // `#address-cells` shorter than four bytes
        (72, 1000),        // name offset outside the strings block
        (80, 4),           // a NOP token between the root's properties
    ];
    for (at, v) in cases {
        let mut bad = good.clone();
        set_be(&mut bad, at, v);
        assert!(!fdt_blob_check(&bad), "case at {}", at);
        assert!(process_device_info(&bad, 0x8020_0000).is_none());
    }
    // A node name that is not UTF-8: a lead byte before an ASCII digit.
    let mut not_utf8 = good.clone();
    not_utf8[106] = 0xc3;
    assert!(!fdt_blob_check(&not_utf8));
    let mut unterminated = good.clone();
    let end = unterminated.len();
    unterminated[end - 1] = b'x';
    assert!(!fdt_blob_check(&unterminated));
    assert!(!fdt_blob_check(&dtb(None)));
    assert!(!fdt_blob_check(&good[..39]));
}

#[test]
fn fdt_blob_check_accepts_nop_tokens_and_utf8_names() {
    let region = Some((0x8000_0000, 0x10_0000));
    assert!(fdt_blob_check(&dtb_tree(region, None, true)));
    assert!(fdt_blob_check(&dtb_tree(region, Some("grüße"), false)));
    let blob = dtb_tree(region, Some("grüße@1"), true);
    assert!(fdt_blob_check(&blob));
    let h = process_device_info(&blob, 0x8020_0000).expect("memory region");
    assert_eq!(h.heap_size(), 0x10_0000);
    assert_eq!(h.num_pages(), 256);
    // The memory node must still be one of the root's children.
    assert!(!fdt_blob_check(&dtb_tree(None, Some("grüße"), true)));
}
