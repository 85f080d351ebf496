use vstd::prelude::*;
use byteorder::{BigEndian, ByteOrder};
use vstd::utf8::valid_utf8;

verus! {

/// Size of the buffer the device tree is copied into.
pub const FDT_BUFFER_SIZE: usize = 8192;

/// Four bytes read as a big-endian number.
pub open spec fn be_u32(b0: u8, b1: u8, b2: u8, b3: u8) -> int {
    b0 as int * 0x100_0000 + b1 as int * 0x1_0000 + b2 as int * 0x100 + b3 as int
}

/// `byteorder::BigEndian::read_u32`: the first four bytes of `buf` read as
/// a big-endian number. It panics on fewer than four bytes, which the
/// `requires` leaves out.
#[verifier::external_body]
fn read_be_u32(buf: &[u8]) -> (r: u32)
    requires
        buf@.len() >= 4,
    ensures
        r as int == be_u32(buf@[0], buf@[1], buf@[2], buf@[3]),
{
    BigEndian::read_u32(buf)
}

/// How many bytes of a device tree whose image starts with `image` are
/// copied: its `totalsize` header field (bytes 4..8, big-endian), at most
/// the buffer's size.
pub open spec fn fdt_copy_len_of(image: Seq<u8>) -> int {
    let size = be_u32(image[4], image[5], image[6], image[7]);
    if size < 8192 {
        size
    } else {
        8192
    }
}

/// The number of bytes `read_fdt_mem` copies from `image`.
pub fn fdt_copy_len(image: &[u8]) -> (r: usize)
    requires
        image@.len() >= 8,
    ensures
        r == fdt_copy_len_of(image@),
{
    let mut tmp: Vec<u8> = Vec::new();
    tmp.push(image[4]);
    tmp.push(image[5]);
    tmp.push(image[6]);
    tmp.push(image[7]);
    let size = read_be_u32(tmp.as_slice());
    if (size as usize) < FDT_BUFFER_SIZE {
        size as usize
    } else {
        FDT_BUFFER_SIZE
    }
}

/// Copies the device tree whose image starts with `image` into a zeroed
/// buffer of `FDT_BUFFER_SIZE` bytes: as many bytes as its header gives,
/// at most the buffer's size.
pub fn read_fdt_mem(image: &[u8]) -> (buf: Vec<u8>)
    requires
        image@.len() >= 8,
        image@.len() >= fdt_copy_len_of(image@),
    ensures
        buf@.len() == 8192,
        forall|i: int|
            0 <= i < 8192 ==> #[trigger] buf@[i] == if i < fdt_copy_len_of(image@) {
                image@[i]
            } else {
                0u8
            },
{
    let size = fdt_copy_len(image);
    let mut buf: Vec<u8> = Vec::new();
    let mut i: usize = 0;
    while i < FDT_BUFFER_SIZE
        invariant
            size == fdt_copy_len_of(image@),
            size <= 8192,
            image@.len() >= size,
            i <= 8192,
            buf@.len() == i,
            forall|k: int| 0 <= k < i ==> #[trigger] buf@[k] == if k < size { image@[k] } else { 0u8 },
        decreases 8192 - i,
    {
        if i < size {
            buf.push(image[i]);
        } else {
            buf.push(0u8);
        }
        i = i + 1;
    }
    buf
}

/// The big-endian word at offset `p` of `b`.
pub open spec fn be32_at(b: Seq<u8>, p: int) -> int {
    be_u32(b[p], b[p + 1], b[p + 2], b[p + 3])
}

/// `x` rounded up to a multiple of four.
pub open spec fn align4(x: int) -> int {
    (x + 3) / 4 * 4
}

/// The structure block of a device tree ends at `e`; its strings block
/// spans `ss .. se`.
pub struct FdtBlocks {
    pub e: int,
    pub ss: int,
    pub se: int,
}

/// The offset of the first NUL at or after `p`, before `end`.
pub open spec fn nul_end(b: Seq<u8>, p: int, end: int) -> Option<int>
    decreases end - p,
{
    if p < 0 || end > b.len() || p >= end {
        None
    } else if b[p] == 0 {
        Some(p)
    } else {
        nul_end(b, p + 1, end)
    }
}

/// The offset of the NUL that ends a string at `p` before `end`, when the
/// bytes before it are UTF-8.
pub open spec fn cstr_end(b: Seq<u8>, p: int, end: int) -> Option<int> {
    match nul_end(b, p, end) {
        Some(z) => if valid_utf8(b.subrange(p, z)) {
            Some(z)
        } else {
            None
        },
        None => None,
    }
}

/// Where the run of NOP tokens from `q` ends.
pub open spec fn nops_end(b: Seq<u8>, k: FdtBlocks, q: int) -> int
    decreases k.e - q,
{
    if 0 <= q && q + 4 <= k.e && be32_at(b, q) == 4 {
        nops_end(b, k, q + 4)
    } else {
        q
    }
}

/// Where a property token at `p` ends: the token, its length and name
/// offset, its value padded to four bytes, all inside the structure block;
/// its name a UTF-8 string of the strings block; and a name starting with
/// `#` (the cell counts) holding at least four bytes.
pub open spec fn prop_end(b: Seq<u8>, k: FdtBlocks, p: int) -> Option<int> {
    if p < 0 || p + 12 > k.e {
        None
    } else {
        let len = be32_at(b, p + 4);
        let off = be32_at(b, p + 8);
        if be32_at(b, p) == 3 && len <= k.e - p - 12 && p + 12 + align4(len) <= k.e && off < k.se
            - k.ss && cstr_end(b, k.ss + off, k.se) is Some && (b[k.ss + off] == 0x23 ==> len >= 4) {
            Some(p + 12 + align4(len))
        } else {
            None
        }
    }
}

/// Where the run of properties from `q` ends: at the first token that is
/// not a property.
pub open spec fn props_end(b: Seq<u8>, k: FdtBlocks, q: int) -> Option<int>
    decreases k.e - q,
{
    if q < 0 || q + 4 > k.e {
        None
    } else if be32_at(b, q) != 3 {
        Some(q)
    } else {
        match prop_end(b, k, q) {
            Some(r) => if q < r <= k.e {
                props_end(b, k, r)
            } else {
                None
            },
            None => None,
        }
    }
}

/// Where the node at `p` ends: a begin token, a UTF-8 name padded to four
/// bytes, its properties, its child nodes, NOP tokens, and an end token.
pub open spec fn node_end(b: Seq<u8>, k: FdtBlocks, p: int) -> Option<int>
    decreases k.e - p, 0int,
{
    if p < 0 || p + 4 > k.e || be32_at(b, p) != 1 {
        None
    } else {
        match cstr_end(b, p + 4, k.e) {
            None => None,
            Some(z) => {
                let q = p + 4 + align4(z - (p + 4) + 1);
                if q > k.e {
                    None
                } else {
                    match props_end(b, k, q) {
                        None => None,
                        Some(q2) => if q2 <= p || q2 > k.e {
                            None
                        } else {
                            match children_end(b, k, q2) {
                                None => None,
                                Some(q3) => node_close(b, k, q3),
                            }
                        },
                    }
                }
            },
        }
    }
}

/// Where a node whose children end at `q3` ends: NOP tokens, then its end
/// token.
pub open spec fn node_close(b: Seq<u8>, k: FdtBlocks, q3: int) -> Option<int> {
    let q4 = nops_end(b, k, q3);
    if 0 <= q4 && q4 + 4 <= k.e && be32_at(b, q4) == 2 {
        Some(q4 + 4)
    } else {
        None
    }
}

/// Where the run of child nodes from `q` ends: at the first token that does
/// not begin a node.
pub open spec fn children_end(b: Seq<u8>, k: FdtBlocks, q: int) -> Option<int>
    decreases k.e - q, 1int,
{
    if q < 0 || q + 4 > k.e {
        None
    } else if be32_at(b, q) != 1 {
        Some(q)
    } else {
        match node_end(b, k, q) {
            None => None,
            Some(r) => if q < r <= k.e {
                children_end(b, k, r)
            } else {
                None
            },
        }
    }
}

/// The name at `p` is `memory`, alone or with a unit address.
pub open spec fn is_memory_name(b: Seq<u8>, p: int, end: int) -> bool {
    &&& 0 <= p
    &&& p + 7 <= end <= b.len()
    &&& b[p] == 0x6d && b[p + 1] == 0x65 && b[p + 2] == 0x6d && b[p + 3] == 0x6f && b[p + 4] == 0x72
        && b[p + 5] == 0x79
    &&& (b[p + 6] == 0 || b[p + 6] == 0x40)
}

/// Where the properties of a node from `q` end, NOP tokens allowed before
/// each: at the first token that is neither, or where fewer than four
/// bytes of the structure block are left.
pub open spec fn props_nops_end(b: Seq<u8>, k: FdtBlocks, q: int) -> Option<int>
    decreases k.e - q,
{
    let q1 = nops_end(b, k, q);
    if q1 < 0 || q1 + 4 > k.e || be32_at(b, q1) != 3 {
        Some(q1)
    } else {
        match prop_end(b, k, q1) {
            Some(r) => if q < r <= k.e {
                props_nops_end(b, k, r)
            } else {
                None
            },
            None => None,
        }
    }
}

/// The node at `q`, named `memory`, has a UTF-8 name and well-formed
/// properties (NOP tokens allowed between them).
pub open spec fn memory_node_ok(b: Seq<u8>, k: FdtBlocks, q: int) -> bool {
    match cstr_end(b, q + 4, k.e) {
        Some(z) => {
            let q1 = q + 4 + align4(z - (q + 4) + 1);
            q1 <= k.e && props_nops_end(b, k, q1) is Some
        },
        None => false,
    }
}

/// One of the nodes in the run from `q` is named `memory`, with a
/// well-formed name and properties, and the nodes before it are
/// well-formed.
pub open spec fn has_memory_child(b: Seq<u8>, k: FdtBlocks, q: int) -> bool
    decreases k.e - q,
{
    if q < 0 || q + 4 > k.e || be32_at(b, q) != 1 {
        false
    } else if is_memory_name(b, q + 4, k.e) && cstr_end(b, q + 4, k.e) is Some {
        memory_node_ok(b, k, q)
    } else {
        match node_end(b, k, q) {
            Some(r) => if q < r <= k.e {
                has_memory_child(b, k, r)
            } else {
                false
            },
            None => false,
        }
    }
}

/// The blocks that the header of the device tree in `b` gives.
pub open spec fn fdt_blocks(b: Seq<u8>) -> FdtBlocks {
    FdtBlocks {
        e: be32_at(b, 8) + be32_at(b, 36),
        ss: be32_at(b, 12),
        se: be32_at(b, 12) + be32_at(b, 32),
    }
}

/// Where the root node begins: after any NOP tokens at the start of the
/// structure block.
pub open spec fn fdt_root(b: Seq<u8>) -> int {
    nops_end(b, fdt_blocks(b), be32_at(b, 8))
}

/// The header of the device tree in `b` is one `fdt::Fdt::new` accepts and
/// whose blocks lie inside it, and the root node begins with an empty name.
pub open spec fn fdt_header_ok(b: Seq<u8>) -> bool {
    let k = fdt_blocks(b);
    let r = fdt_root(b);
    &&& b.len() >= 40
    &&& be32_at(b, 0) == 0xd00d_feed
    &&& be32_at(b, 4) <= b.len()
    &&& k.e <= be32_at(b, 4)
    &&& k.se <= be32_at(b, 4)
    &&& 0 <= r
    &&& r + 8 <= k.e
    &&& be32_at(b, r) == 1
    &&& b[r + 4] == 0
}

/// The device tree in `b` is one that the `fdt` crate reads to its memory
/// node without panicking: a header `fdt_header_ok` accepts; the root's
/// properties (after any NOP tokens) well-formed up to its first child (no
/// NOP tokens between properties, property names UTF-8, every cell-count
/// property at least four bytes); and, among the root's children, a node
/// named `memory` with well-formed properties, reached through well-formed
/// nodes (`node_end`).
pub open spec fn fdt_blob_ok(b: Seq<u8>) -> bool {
    let k = fdt_blocks(b);
    &&& fdt_header_ok(b)
    &&& match props_end(b, k, nops_end(b, k, fdt_root(b) + 8)) {
        Some(c) => has_memory_child(b, k, c),
        None => false,
    }
}

/// Where the root's child nodes begin: after its empty name, NOP tokens and
/// its properties.
pub open spec fn fdt_root_children(b: Seq<u8>) -> Option<int> {
    let k = fdt_blocks(b);
    props_end(b, k, nops_end(b, k, fdt_root(b) + 8))
}

/// The whole device tree in `b` is well-formed as the `fdt` crate walks it:
/// a header `fdt_header_ok` accepts, the root's properties, and every child
/// node (`node_end`) up to the root's end token. On such a tree
/// `Fdt::find_node`, `FdtNode::children` and `FdtNode::properties` do not
/// panic.
pub open spec fn fdt_tree_ok(b: Seq<u8>) -> bool {
    let k = fdt_blocks(b);
    &&& fdt_header_ok(b)
    &&& match fdt_root_children(b) {
        Some(c) => match children_end(b, k, c) {
            Some(c2) => node_close(b, k, c2) is Some,
            None => false,
        },
        None => false,
    }
}

/// The name at `p` is `name`, alone or followed by `@` and a unit address.
pub open spec fn base_name_is(b: Seq<u8>, p: int, end: int, name: Seq<u8>) -> bool {
    &&& 0 <= p
    &&& p + name.len() < end <= b.len()
    &&& b.subrange(p, p + name.len()) == name
    &&& (b[p + name.len()] == 0 || b[p + name.len()] == 0x40)
}

/// Where the first node of the run from `q` whose base name is `name`
/// begins.
pub open spec fn child_named(b: Seq<u8>, k: FdtBlocks, q: int, name: Seq<u8>) -> Option<int>
    decreases k.e - q,
{
    if q < 0 || q + 4 > k.e || be32_at(b, q) != 1 {
        None
    } else if base_name_is(b, q + 4, k.e, name) {
        Some(q)
    } else {
        match node_end(b, k, q) {
            Some(r) => if q < r <= k.e {
                child_named(b, k, r, name)
            } else {
                None
            },
            None => None,
        }
    }
}

/// Where the root's first child whose base name is `name` begins.
pub open spec fn root_child(b: Seq<u8>, name: Seq<u8>) -> Option<int> {
    match fdt_root_children(b) {
        Some(c) => child_named(b, fdt_blocks(b), c, name),
        None => None,
    }
}

/// `cpus`
pub open spec fn cpus_name() -> Seq<u8> {
    seq![0x63u8, 0x70, 0x75, 0x73]
}

/// `soc`
pub open spec fn soc_name() -> Seq<u8> {
    seq![0x73u8, 0x6f, 0x63]
}

/// `chosen`
pub open spec fn chosen_name() -> Seq<u8> {
    seq![0x63u8, 0x68, 0x6f, 0x73, 0x65, 0x6e]
}

/// `aliases`
pub open spec fn aliases_name() -> Seq<u8> {
    seq![0x61u8, 0x6c, 0x69, 0x61, 0x73, 0x65, 0x73]
}

/// `stdout-path`
pub open spec fn stdout_path_name() -> Seq<u8> {
    seq![0x73u8, 0x74, 0x64, 0x6f, 0x75, 0x74, 0x2d, 0x70, 0x61, 0x74, 0x68]
}

/// The string at `p` of the strings block is `name`.
pub open spec fn string_is(b: Seq<u8>, k: FdtBlocks, p: int, name: Seq<u8>) -> bool {
    &&& 0 <= p
    &&& p + name.len() < k.se <= b.len()
    &&& b.subrange(p, p + name.len()) == name
    &&& b[p + name.len()] == 0
}

/// In the run of properties from `q`, the first one named `stdout-path`,
/// if there is one, holds at least one byte.
pub open spec fn stdout_path_ok(b: Seq<u8>, k: FdtBlocks, q: int) -> bool
    decreases k.e - q,
{
    if q < 0 || q + 12 > k.e || be32_at(b, q) != 3 {
        true
    } else if string_is(b, k, k.ss + be32_at(b, q + 8), stdout_path_name()) {
        be32_at(b, q + 4) >= 1
    } else {
        match prop_end(b, k, q) {
            Some(r) => if q < r <= k.e {
                stdout_path_ok(b, k, r)
            } else {
                true
            },
            None => true,
        }
    }
}

/// Where the properties of the node at `q` begin: after its token and its
/// name padded to four bytes.
pub open spec fn node_props(b: Seq<u8>, k: FdtBlocks, q: int) -> int {
    let z = cstr_end(b, q + 4, k.e)->Some_0;
    q + 4 + align4(z - (q + 4) + 1)
}

/// The tree is one on which `Fdt::cpus` does not panic: well-formed, with a
/// `cpus` node among the root's children.
pub open spec fn cpus_query_ok(b: Seq<u8>) -> bool {
    fdt_tree_ok(b) && root_child(b, cpus_name()) is Some
}

/// The tree is one on which `Fdt::find_node("/soc")` neither panics nor
/// falls back on the aliases: well-formed, with a `soc` node among the
/// root's children or no `aliases` node.
pub open spec fn soc_query_ok(b: Seq<u8>) -> bool {
    fdt_tree_ok(b) && (root_child(b, soc_name()) is Some || root_child(b, aliases_name()) is None)
}

/// The tree is one on which `Chosen::stdout` does not panic: well-formed,
/// with no NOP token before the root's properties (`find_node` walks over
/// the root with `skip_current_node` for a path that does not begin with
/// `/`), with a `chosen` node whose first `stdout-path` property, if any,
/// is not empty, and without an `aliases` node (which `find_node` would
/// fall back on for a path it does not find).
pub open spec fn stdout_query_ok(b: Seq<u8>) -> bool {
    let k = fdt_blocks(b);
    &&& fdt_tree_ok(b)
    &&& node_end(b, k, fdt_root(b)) is Some
    &&& root_child(b, aliases_name()) is None
    &&& match root_child(b, chosen_name()) {
        Some(q) => cstr_end(b, q + 4, k.e) is Some && stdout_path_ok(b, k, node_props(b, k, q)),
        None => false,
    }
}

/// `core::str::from_utf8` on `bytes` succeeds exactly when they are UTF-8.
#[verifier::external_body]
fn is_utf8(bytes: &[u8]) -> (r: bool)
    ensures
        r == valid_utf8(bytes@),
{
    core::str::from_utf8(bytes).is_ok()
}

fn nops_end_exec(b: &[u8], e: usize, ss: usize, se: usize, q: usize) -> (r: usize)
    requires
        e <= b@.len(),
    ensures
        r as int == nops_end(b@, FdtBlocks { e: e as int, ss: ss as int, se: se as int }, q as int),
        q <= r,
        q <= e ==> r <= e,
{
    let ghost k = FdtBlocks { e: e as int, ss: ss as int, se: se as int };
    let mut i = q;
    while i <= e && e - i >= 4 && be32_read(b, i) == 4
        invariant
            e <= b@.len(),
            k == (FdtBlocks { e: e as int, ss: ss as int, se: se as int }),
            q <= i,
            q <= e ==> i <= e,
            nops_end(b@, k, q as int) == nops_end(b@, k, i as int),
        decreases e - i,
    {
        i = i + 4;
    }
    i
}

fn be32_read(b: &[u8], p: usize) -> (r: usize)
    requires
        p + 4 <= b@.len(),
    ensures
        r as int == be32_at(b@, p as int),
{
    (b[p] as usize) * 0x100_0000 + (b[p + 1] as usize) * 0x1_0000 + (b[p + 2] as usize) * 0x100
        + (b[p + 3] as usize)
}

fn cstr_end_exec(b: &[u8], p: usize, end: usize) -> (r: Option<usize>)
    requires
        end <= b@.len(),
    ensures
        match r {
            Some(x) => cstr_end(b@, p as int, end as int) == Some(x as int),
            None => cstr_end(b@, p as int, end as int) is None,
        },
        r matches Some(x) ==> p <= x < end,
{
    let mut i = p;
    while i < end
        invariant
            end <= b@.len(),
            p <= i,
            nul_end(b@, p as int, end as int) == nul_end(b@, i as int, end as int),
        decreases end - i,
    {
        if b[i] == 0 {
            if is_utf8(vstd::slice::slice_subrange(b, p, i)) {
                return Some(i);
            } else {
                return None;
            }
        }
        i = i + 1;
    }
    None
}

fn prop_end_exec(b: &[u8], e: usize, ss: usize, se: usize, p: usize) -> (r: Option<usize>)
    requires
        e <= b@.len(),
        ss <= se <= b@.len(),
    ensures
        match r {
            Some(x) => prop_end(b@, FdtBlocks { e: e as int, ss: ss as int, se: se as int }, p as int) == Some(x as int),
            None => prop_end(b@, FdtBlocks { e: e as int, ss: ss as int, se: se as int }, p as int) is None,
        },
{
    if p > e || e - p < 12 {
        return None;
    }
    let tag = be32_read(b, p);
    let len = be32_read(b, p + 4);
    let off = be32_read(b, p + 8);
    if tag != 3 || len > e - p - 12 {
        return None;
    }
    let a = (len + 3) / 4 * 4;
    if a > e - p - 12 {
        return None;
    }
    if off >= se - ss {
        return None;
    }
    match cstr_end_exec(b, ss + off, se) {
        None => {
            return None;
        },
        Some(_) => {},
    }
    if b[ss + off] == 0x23 && len < 4 {
        return None;
    }
    Some(p + 12 + a)
}

fn props_end_exec(b: &[u8], e: usize, ss: usize, se: usize, p: usize) -> (r: Option<usize>)
    requires
        e <= b@.len(),
        ss <= se <= b@.len(),
    ensures
        match r {
            Some(x) => props_end(b@, FdtBlocks { e: e as int, ss: ss as int, se: se as int }, p as int) == Some(x as int),
            None => props_end(b@, FdtBlocks { e: e as int, ss: ss as int, se: se as int }, p as int) is None,
        },
{
    let ghost k = FdtBlocks { e: e as int, ss: ss as int, se: se as int };
    let mut q = p;
    loop
        invariant
            e <= b@.len(),
            ss <= se <= b@.len(),
            k == (FdtBlocks { e: e as int, ss: ss as int, se: se as int }),
            props_end(b@, k, p as int) == props_end(b@, k, q as int),
        decreases e - q,
    {
        if q > e || e - q < 4 {
            return None;
        }
        if be32_read(b, q) != 3 {
            return Some(q);
        }
        match prop_end_exec(b, e, ss, se, q) {
            None => {
                return None;
            },
            Some(r) => {
                if r <= q || r > e {
                    return None;
                }
                q = r;
            },
        }
    }
}

fn props_nops_end_exec(b: &[u8], e: usize, ss: usize, se: usize, p: usize) -> (r: Option<usize>)
    requires
        e <= b@.len(),
        ss <= se <= b@.len(),
    ensures
        match r {
            Some(x) => props_nops_end(b@, FdtBlocks { e: e as int, ss: ss as int, se: se as int }, p as int) == Some(x as int),
            None => props_nops_end(b@, FdtBlocks { e: e as int, ss: ss as int, se: se as int }, p as int) is None,
        },
{
    let ghost k = FdtBlocks { e: e as int, ss: ss as int, se: se as int };
    let mut q = p;
    loop
        invariant
            e <= b@.len(),
            ss <= se <= b@.len(),
            k == (FdtBlocks { e: e as int, ss: ss as int, se: se as int }),
            props_nops_end(b@, k, p as int) == props_nops_end(b@, k, q as int),
        decreases e - q,
    {
        let q1 = nops_end_exec(b, e, ss, se, q);
        if q1 > e || e - q1 < 4 || be32_read(b, q1) != 3 {
            return Some(q1);
        }
        match prop_end_exec(b, e, ss, se, q1) {
            None => {
                return None;
            },
            Some(r) => {
                if r <= q || r > e {
                    return None;
                }
                q = r;
            },
        }
    }
}

fn node_end_exec(b: &[u8], e: usize, ss: usize, se: usize, p: usize) -> (r: Option<usize>)
    requires
        e <= b@.len(),
        ss <= se <= b@.len(),
    ensures
        match r {
            Some(x) => node_end(b@, FdtBlocks { e: e as int, ss: ss as int, se: se as int }, p as int) == Some(x as int),
            None => node_end(b@, FdtBlocks { e: e as int, ss: ss as int, se: se as int }, p as int) is None,
        },
    decreases e - p,
{
    let ghost k = FdtBlocks { e: e as int, ss: ss as int, se: se as int };
    if p > e || e - p < 4 {
        return None;
    }
    if be32_read(b, p) != 1 {
        return None;
    }
    let z = match cstr_end_exec(b, p + 4, e) {
        None => {
            return None;
        },
        Some(z) => z,
    };
    let nl = z - (p + 4) + 1;
    let a = (nl + 3) / 4 * 4;
    if a > e - (p + 4) {
        return None;
    }
    let q = p + 4 + a;
    let q2 = match props_end_exec(b, e, ss, se, q) {
        None => {
            return None;
        },
        Some(x) => x,
    };
    if q2 <= p || q2 > e {
        return None;
    }
    let mut c = q2;
    loop
        invariant_except_break
            e <= b@.len(),
            ss <= se <= b@.len(),
            k == (FdtBlocks { e: e as int, ss: ss as int, se: se as int }),
            p < c <= e,
            children_end(b@, k, q2 as int) == children_end(b@, k, c as int),
            node_end(b@, k, p as int) == match children_end(b@, k, q2 as int) {
                None => None,
                Some(q3) => node_close(b@, k, q3),
            },
        ensures
            node_end(b@, k, p as int) == match children_end(b@, k, q2 as int) {
                None => None,
                Some(q3) => node_close(b@, k, q3),
            },
            p < c <= e,
            children_end(b@, k, q2 as int) == Some(c as int),
        decreases e - c,
    {
        if e - c < 4 {
            return None;
        }
        if be32_read(b, c) != 1 {
            break;
        }
        match node_end_exec(b, e, ss, se, c) {
            None => {
                return None;
            },
            Some(r) => {
                if r <= c || r > e {
                    return None;
                }
                c = r;
            },
        }
    }
    let c2 = nops_end_exec(b, e, ss, se, c);
    if c2 > e || e - c2 < 4 || be32_read(b, c2) != 2 {
        return None;
    }
    Some(c2 + 4)
}

fn has_memory_child_exec(b: &[u8], e: usize, ss: usize, se: usize, p: usize) -> (r: bool)
    requires
        e <= b@.len(),
        ss <= se <= b@.len(),
    ensures
        r == has_memory_child(b@, FdtBlocks { e: e as int, ss: ss as int, se: se as int }, p as int),
{
    let ghost k = FdtBlocks { e: e as int, ss: ss as int, se: se as int };
    let mut q = p;
    loop
        invariant
            e <= b@.len(),
            ss <= se <= b@.len(),
            k == (FdtBlocks { e: e as int, ss: ss as int, se: se as int }),
            has_memory_child(b@, k, p as int) == has_memory_child(b@, k, q as int),
        decreases e - q,
    {
        if q > e || e - q < 4 {
            return false;
        }
        if be32_read(b, q) != 1 {
            return false;
        }
        if e - (q + 4) >= 7 && b[q + 4] == 0x6d && b[q + 5] == 0x65 && b[q + 6] == 0x6d && b[q + 7]
            == 0x6f && b[q + 8] == 0x72 && b[q + 9] == 0x79 && (b[q + 10] == 0 || b[q + 10] == 0x40) {
            match cstr_end_exec(b, q + 4, e) {
                Some(z) => {
                    let a = (z - (q + 4) + 1 + 3) / 4 * 4;
                    if a > e - (q + 4) {
                        return false;
                    }
                    return props_nops_end_exec(b, e, ss, se, q + 4 + a).is_some();
                },
                None => {},
            }
        }
        match node_end_exec(b, e, ss, se, q) {
            None => {
                return false;
            },
            Some(r) => {
                if r <= q || r > e {
                    return false;
                }
                q = r;
            },
        }
    }
}

/// The blocks of the device tree in `b` and where the root's children
/// begin, when its header and the root's properties are well-formed.
fn root_children_exec(b: &[u8]) -> (r: Option<(usize, usize, usize, usize)>)
    ensures
        r is Some <==> fdt_header_ok(b@) && fdt_root_children(b@) is Some,
        r matches Some((e, ss, se, c)) ==> {
            &&& e <= b@.len()
            &&& ss <= se <= b@.len()
            &&& fdt_blocks(b@) == (FdtBlocks { e: e as int, ss: ss as int, se: se as int })
            &&& fdt_root_children(b@) == Some(c as int)
        },
{
    if b.len() < 40 {
        return None;
    }
    if be32_read(b, 0) != 0xd00d_feed {
        return None;
    }
    let total = be32_read(b, 4);
    if total > b.len() {
        return None;
    }
    let s = be32_read(b, 8);
    let ssize = be32_read(b, 36);
    if s > total || ssize > total - s {
        return None;
    }
    let e = s + ssize;
    let ss = be32_read(b, 12);
    let strsize = be32_read(b, 32);
    if ss > total || strsize > total - ss {
        return None;
    }
    let se = ss + strsize;
    let ghost k = FdtBlocks { e: e as int, ss: ss as int, se: se as int };
    assert(fdt_blocks(b@) == k);
    let r = nops_end_exec(b, e, ss, se, s);
    if r > e || e - r < 8 || be32_read(b, r) != 1 || b[r + 4] != 0 {
        return None;
    }
    let q = nops_end_exec(b, e, ss, se, r + 8);
    match props_end_exec(b, e, ss, se, q) {
        None => None,
        Some(c) => Some((e, ss, se, c)),
    }
}

/// Whether the device tree in `b` is one that the `fdt` crate reads to its
/// memory node without panicking (`fdt_blob_ok`).
pub fn fdt_blob_check(b: &[u8]) -> (r: bool)
    ensures
        r == fdt_blob_ok(b@),
{
    match root_children_exec(b) {
        None => false,
        Some((e, ss, se, c)) => has_memory_child_exec(b, e, ss, se, c),
    }
}

fn children_end_exec(b: &[u8], e: usize, ss: usize, se: usize, p: usize) -> (r: Option<usize>)
    requires
        e <= b@.len(),
        ss <= se <= b@.len(),
    ensures
        match r {
            Some(x) => children_end(b@, FdtBlocks { e: e as int, ss: ss as int, se: se as int }, p as int) == Some(x as int),
            None => children_end(b@, FdtBlocks { e: e as int, ss: ss as int, se: se as int }, p as int) is None,
        },
        r matches Some(x) ==> x <= e,
{
    let ghost k = FdtBlocks { e: e as int, ss: ss as int, se: se as int };
    let mut q = p;
    loop
        invariant
            e <= b@.len(),
            ss <= se <= b@.len(),
            k == (FdtBlocks { e: e as int, ss: ss as int, se: se as int }),
            children_end(b@, k, p as int) == children_end(b@, k, q as int),
        decreases e - q,
    {
        if q > e || e - q < 4 {
            return None;
        }
        if be32_read(b, q) != 1 {
            return Some(q);
        }
        match node_end_exec(b, e, ss, se, q) {
            None => {
                return None;
            },
            Some(r) => {
                if r <= q || r > e {
                    return None;
                }
                q = r;
            },
        }
    }
}

/// Whether the whole device tree in `b` is well-formed (`fdt_tree_ok`).
pub fn fdt_tree_check(b: &[u8]) -> (r: bool)
    ensures
        r == fdt_tree_ok(b@),
{
    match root_children_exec(b) {
        None => false,
        Some((e, ss, se, c)) => {
            let ghost k = FdtBlocks { e: e as int, ss: ss as int, se: se as int };
            match children_end_exec(b, e, ss, se, c) {
                None => false,
                Some(c2) => {
                    let c3 = nops_end_exec(b, e, ss, se, c2);
                    assert(node_close(b@, k, c2 as int) is Some <==> (c3 + 4 <= e && be32_at(b@, c3 as int) == 2));
                    c3 <= e && e - c3 >= 4 && be32_read(b, c3) == 2
                },
            }
        },
    }
}

/// Whether the bytes of `b` at `p` are `name` followed by `term` or, when
/// `at` holds, by `@`, all before `end`.
fn name_at_exec(b: &[u8], p: usize, end: usize, name: &[u8], at: bool) -> (r: bool)
    requires
        end <= b@.len(),
    ensures
        r == (p + name@.len() < end && b@.subrange(p as int, p + name@.len()) == name@ && (b@[p
            + name@.len()] == 0 || (at && b@[p + name@.len()] == 0x40))),
{
    if p >= end || name.len() >= end - p {
        return false;
    }
    let mut i: usize = 0;
    while i < name.len()
        invariant
            end <= b@.len(),
            p + name@.len() < end,
            i <= name@.len(),
            forall|j: int| 0 <= j < i ==> b@[p + j] == name@[j],
        decreases name@.len() - i,
    {
        if b[p + i] != name[i] {
            assert(b@.subrange(p as int, p + name@.len())[i as int] != name@[i as int]);
            return false;
        }
        i = i + 1;
    }
    assert(b@.subrange(p as int, p + name@.len()) =~= name@);
    let t = b[p + name.len()];
    t == 0 || (at && t == 0x40)
}

/// Where the first node of the run from `q` whose base name is `name`
/// begins (`child_named`).
fn child_named_exec(b: &[u8], e: usize, ss: usize, se: usize, p: usize, name: &[u8]) -> (r: Option<usize>)
    requires
        e <= b@.len(),
        ss <= se <= b@.len(),
    ensures
        match r {
            Some(x) => child_named(b@, FdtBlocks { e: e as int, ss: ss as int, se: se as int }, p as int, name@) == Some(x as int),
            None => child_named(b@, FdtBlocks { e: e as int, ss: ss as int, se: se as int }, p as int, name@) is None,
        },
{
    let ghost k = FdtBlocks { e: e as int, ss: ss as int, se: se as int };
    let mut q = p;
    loop
        invariant
            e <= b@.len(),
            ss <= se <= b@.len(),
            k == (FdtBlocks { e: e as int, ss: ss as int, se: se as int }),
            child_named(b@, k, p as int, name@) == child_named(b@, k, q as int, name@),
        decreases e - q,
    {
        if q > e || e - q < 4 {
            return None;
        }
        if be32_read(b, q) != 1 {
            return None;
        }
        if name_at_exec(b, q + 4, e, name, true) {
            return Some(q);
        }
        match node_end_exec(b, e, ss, se, q) {
            None => {
                return None;
            },
            Some(r) => {
                if r <= q || r > e {
                    return None;
                }
                q = r;
            },
        }
    }
}

fn stdout_path_ok_exec(b: &[u8], e: usize, ss: usize, se: usize, p: usize) -> (r: bool)
    requires
        e <= b@.len(),
        ss <= se <= b@.len(),
    ensures
        r == stdout_path_ok(b@, FdtBlocks { e: e as int, ss: ss as int, se: se as int }, p as int),
{
    let ghost k = FdtBlocks { e: e as int, ss: ss as int, se: se as int };
    let name = vec![0x73u8, 0x74, 0x64, 0x6f, 0x75, 0x74, 0x2d, 0x70, 0x61, 0x74, 0x68];
    assert(name@ == stdout_path_name());
    let mut q = p;
    loop
        invariant
            e <= b@.len(),
            ss <= se <= b@.len(),
            k == (FdtBlocks { e: e as int, ss: ss as int, se: se as int }),
            name@ == stdout_path_name(),
            stdout_path_ok(b@, k, p as int) == stdout_path_ok(b@, k, q as int),
        decreases e - q,
    {
        if q > e || e - q < 12 || be32_read(b, q) != 3 {
            return true;
        }
        let off = be32_read(b, q + 8);
        if off < se - ss && name_at_exec(b, ss + off, se, name.as_slice(), false) {
            return be32_read(b, q + 4) >= 1;
        }
        match prop_end_exec(b, e, ss, se, q) {
            None => {
                return true;
            },
            Some(r) => {
                if r <= q || r > e {
                    return true;
                }
                q = r;
            },
        }
    }
}

/// Where the root's first child named `name` begins, in a well-formed tree.
fn root_child_exec(b: &[u8], name: &[u8]) -> (r: Option<usize>)
    requires
        fdt_tree_ok(b@),
    ensures
        match r {
            Some(x) => root_child(b@, name@) == Some(x as int),
            None => root_child(b@, name@) is None,
        },
{
    match root_children_exec(b) {
        None => None,
        Some((e, ss, se, c)) => child_named_exec(b, e, ss, se, c, name),
    }
}

/// Whether `Fdt::cpus` can be asked of the tree in `b` (`cpus_query_ok`).
pub fn cpus_query_check(b: &[u8]) -> (r: bool)
    ensures
        r == cpus_query_ok(b@),
{
    if !fdt_tree_check(b) {
        return false;
    }
    let name = vec![0x63u8, 0x70, 0x75, 0x73];
    assert(name@ == cpus_name());
    root_child_exec(b, name.as_slice()).is_some()
}

/// Whether `Fdt::find_node("/soc")` can be asked of the tree in `b`
/// (`soc_query_ok`).
pub fn soc_query_check(b: &[u8]) -> (r: bool)
    ensures
        r == soc_query_ok(b@),
{
    if !fdt_tree_check(b) {
        return false;
    }
    let soc = vec![0x73u8, 0x6f, 0x63];
    assert(soc@ == soc_name());
    let aliases = vec![0x61u8, 0x6c, 0x69, 0x61, 0x73, 0x65, 0x73];
    assert(aliases@ == aliases_name());
    root_child_exec(b, soc.as_slice()).is_some() || root_child_exec(b, aliases.as_slice()).is_none()
}

/// Whether `Chosen::stdout` can be asked of the tree in `b`
/// (`stdout_query_ok`).
pub fn stdout_query_check(b: &[u8]) -> (r: bool)
    ensures
        r == stdout_query_ok(b@),
{
    if !fdt_tree_check(b) {
        return false;
    }
    let aliases = vec![0x61u8, 0x6c, 0x69, 0x61, 0x73, 0x65, 0x73];
    assert(aliases@ == aliases_name());
    if root_child_exec(b, aliases.as_slice()).is_some() {
        return false;
    }
    let chosen = vec![0x63u8, 0x68, 0x6f, 0x73, 0x65, 0x6e];
    assert(chosen@ == chosen_name());
    let q = match root_child_exec(b, chosen.as_slice()) {
        None => {
            return false;
        },
        Some(q) => q,
    };
    let (e, ss, se, _c) = match root_children_exec(b) {
        None => {
            return false;
        },
        Some(t) => t,
    };
    let ghost k = FdtBlocks { e: e as int, ss: ss as int, se: se as int };
    let root = nops_end_exec(b, e, ss, se, be32_read(b, 8));
    assert(fdt_root(b@) == root);
    if node_end_exec(b, e, ss, se, root).is_none() {
        return false;
    }
    if q > e || e - q < 4 {
        return false;
    }
    let z = match cstr_end_exec(b, q + 4, e) {
        None => {
            return false;
        },
        Some(z) => z,
    };
    let a = (z - (q + 4) + 1 + 3) / 4 * 4;
    if a > e - (q + 4) {
        // No property begins past the structure block.
        assert(node_props(b@, k, q as int) > k.e);
        return true;
    }
    stdout_path_ok_exec(b, e, ss, se, q + 4 + a)
}

} // verus!
