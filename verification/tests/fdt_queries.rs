use moeos::device::fdt::{cpus_query_check, fdt_tree_check, soc_query_check, stdout_query_check};
use moeos::init::{cpu_count, memory_region, process_device_info, soc_children, stdout_name};

const STRINGS: &[u8] = b"#address-cells\0#size-cells\0reg\0stdout-path\0";
const ADDRESS_CELLS: u32 = 0;
const SIZE_CELLS: u32 = 15;
const REG: u32 = 27;
const STDOUT_PATH: u32 = 31;

fn be(v: u32) -> [u8; 4] {
    v.to_be_bytes()
}

/// A node of the structure block: its begin token, its name padded to
/// four bytes, its properties (name offset and value), its children, and
/// its end token.
fn node(name: &str, props: &[(u32, Vec<u8>)], children: &[Vec<u8>]) -> Vec<u8> {
    let mut st = Vec::new();
    st.extend_from_slice(&be(1));
    st.extend_from_slice(name.as_bytes());
    st.push(0);
    while st.len() % 4 != 0 {
        st.push(0);
    }
    for (off, value) in props {
        st.extend_from_slice(&be(3));
        st.extend_from_slice(&be(value.len() as u32));
        st.extend_from_slice(&be(*off));
        st.extend_from_slice(value);
        while st.len() % 4 != 0 {
            st.push(0);
        }
    }
    for child in children {
        st.extend_from_slice(child);
    }
    st.extend_from_slice(&be(2));
    st
}

/// A device tree whose root has two address and two size cells and the
/// given children.
fn tree(children: &[Vec<u8>]) -> Vec<u8> {
    let cells = vec![(ADDRESS_CELLS, be(2).to_vec()), (SIZE_CELLS, be(2).to_vec())];
    let mut st = node("", &cells, children);
    st.extend_from_slice(&be(9));
    let off_struct = 56u32;
    let off_strings = off_struct + st.len() as u32;
    let total = off_strings + STRINGS.len() as u32;
    let mut out = Vec::new();
    for v in [0xd00d_feed, total, off_struct, off_strings, 40, 17, 16, 0, STRINGS.len() as u32, st.len() as u32] {
        out.extend_from_slice(&be(v));
    }
    out.extend_from_slice(&[0u8; 16]);
    out.extend_from_slice(&st);
    out.extend_from_slice(STRINGS);
    out
}

fn memory() -> Vec<u8> {
    let mut reg = 0x8000_0000u64.to_be_bytes().to_vec();
    reg.extend_from_slice(&0x10_0000u64.to_be_bytes());
    node("memory@80000000", &[(REG, reg)], &[])
}

fn chosen(path: Option<&[u8]>) -> Vec<u8> {
    match path {
        Some(p) => node("chosen", &[(STDOUT_PATH, p.to_vec())], &[]),
        None => node("chosen", &[], &[]),
    }
}

fn cpus() -> Vec<u8> {
    node("cpus", &[], &[node("cpu@0", &[], &[]), node("cpu@1", &[], &[]), node("cpu-map", &[], &[])])
}

fn soc() -> Vec<u8> {
    node("soc", &[], &[node("serial@10000000", &[], &[]), node("plic@c000000", &[], &[])])
}

fn board() -> Vec<u8> {
    tree(&[chosen(Some(b"/soc/serial@10000000\0")), cpus(), memory(), soc()])
}

#[test]
fn queries_on_a_board_tree() {
    let blob = board();
    assert!(fdt_tree_check(&blob));
    assert_eq!(cpu_count(&blob), Some(2));
    let names = soc_children(&blob).expect("readable").expect("soc node");
    assert_eq!(names, vec![b"serial@10000000".to_vec(), b"plic@c000000".to_vec()]);
    assert_eq!(stdout_name(&blob), Some(Some(b"serial@10000000".to_vec())));
    assert_eq!(memory_region(&blob), Some(Some((0x8000_0000, Some(0x10_0000)))));
    let h = process_device_info(&blob, 0x8020_0000).expect("memory region");
    assert_eq!(h.heap_size(), 0x10_0000);
}

#[test]
fn memory_region_needs_a_readable_memory_node() {
    assert_eq!(memory_region(&tree(&[cpus()])), None);
    assert_eq!(memory_region(&[0u8; 64]), None);
    let only_memory = tree(&[memory()]);
    assert_eq!(memory_region(&only_memory), Some(Some((0x8000_0000, Some(0x10_0000)))));
}

#[test]
fn cpu_count_needs_a_cpus_node() {
    let blob = tree(&[chosen(None), memory()]);
    assert!(fdt_tree_check(&blob));
    assert!(!cpus_query_check(&blob));
    assert_eq!(cpu_count(&blob), None);
    let empty = tree(&[node("cpus", &[], &[])]);
    assert_eq!(cpu_count(&empty), Some(0));
}

#[test]
fn soc_children_without_soc_node() {
    let blob = tree(&[chosen(None), cpus(), memory()]);
    assert!(soc_query_check(&blob));
    assert_eq!(soc_children(&blob), Some(None));
    // Without `/soc`, an `aliases` node would be searched: not asked.
    let with_aliases = tree(&[node("aliases", &[], &[]), memory()]);
    assert!(!soc_query_check(&with_aliases));
    assert_eq!(soc_children(&with_aliases), None);
    let with_both = tree(&[node("aliases", &[], &[]), soc()]);
    assert_eq!(soc_children(&with_both).unwrap().unwrap().len(), 2);
}

#[test]
fn stdout_name_cases() {
    let no_path = tree(&[chosen(None), soc()]);
    assert_eq!(stdout_name(&no_path), Some(None));
    let elsewhere = tree(&[chosen(Some(b"/soc/uart@0\0")), soc()]);
    assert_eq!(stdout_name(&elsewhere), Some(None));
    let not_absolute = tree(&[chosen(Some(b"serial0\0")), soc()]);
    assert_eq!(stdout_name(&not_absolute), Some(None));
    // An empty `stdout-path` would be cut before its first byte.
    let empty = tree(&[chosen(Some(b"")), soc()]);
    assert!(!stdout_query_check(&empty));
    assert_eq!(stdout_name(&empty), None);
    let no_chosen = tree(&[soc()]);
    assert_eq!(stdout_name(&no_chosen), None);
    let with_aliases = tree(&[node("aliases", &[], &[]), chosen(Some(b"/soc\0")), soc()]);
    assert_eq!(stdout_name(&with_aliases), None);
}

#[test]
fn queries_refuse_a_malformed_tree() {
    let mut blob = board();
    // The root's end token, just before the final end token, becomes a
    // property token.
    let at = 56 + (blob.len() - 56 - STRINGS.len()) - 8;
    blob[at..at + 4].copy_from_slice(&be(3));
    assert!(!fdt_tree_check(&blob));
    assert_eq!(cpu_count(&blob), None);
    assert_eq!(soc_children(&blob), None);
    assert_eq!(stdout_name(&blob), None);
}
