use moeos::mem::page::{align_val, Heap, Page, PageBits, PAGE_SIZE};

#[test]
fn align_val_rounds_up_to_the_order() {
    assert_eq!(align_val(0, 12), 0);
    assert_eq!(align_val(1, 12), 4096);
    assert_eq!(align_val(4096, 12), 4096);
    assert_eq!(align_val(4097, 12), 8192);
    assert_eq!(align_val(0x1010, 12), 0x2000);
    assert_eq!(align_val(5, 0), 5);
    assert_eq!(align_val(9, 3), 16);
}

#[test]
fn page_bits_values() {
    assert_eq!(PageBits::Empty.val(), 0);
    assert_eq!(PageBits::Taken.val(), 1);
    assert_eq!(PageBits::Last.val(), 2);
    assert_eq!(u8::from(PageBits::Last), 2);
    assert_eq!(u8::from(PageBits::Taken), 1);
}

#[test]
fn page_flags_read_back() {
    let mut p = Page { flags: 0 };
    assert!(p.is_free());
    assert!(!p.is_taken());
    assert!(!p.is_last());
    p.set_flags(PageBits::Taken);
    assert_eq!(p.flags, 1);
    assert!(p.is_taken());
    assert!(!p.is_free());
    assert!(!p.is_last());
    p.set_flags(PageBits::Last);
    assert_eq!(p.flags, 2);
    assert!(p.is_last());
    assert!(!p.is_taken());
    assert!(p.is_free());
    p.clear();
    assert_eq!(p.flags, 0);
    let both = Page { flags: 3 };
    assert!(both.is_taken() && both.is_last());
}

fn small_heap(pages: usize) -> Heap {
    Heap::init(0x1000, pages * PAGE_SIZE)
}

#[test]
fn init_lays_out_descriptors_and_area() {
    let h = small_heap(16);
    assert_eq!(h.heap_start(), 0x1000);
    assert_eq!(h.heap_size(), 16 * 4096);
    assert_eq!(h.num_pages(), 16);
    // 16 descriptor bytes after 0x1000, rounded up to the next page.
    assert_eq!(h.alloc_start(), 0x2000);
    for i in 0..16 {
        assert_eq!(h.page_flags(i), 0);
    }
    assert_eq!(h.read_word(0x2000), 0);
    let partial = Heap::init(0x1000, 4096 + 100);
    assert_eq!(partial.num_pages(), 1);
}

#[test]
fn alloc_marks_taken_and_last() {
    let mut h = small_heap(16);
    assert_eq!(h.alloc_pages(3), Some(0x2000));
    assert_eq!(h.page_flags(0), 1);
    assert_eq!(h.page_flags(1), 1);
    assert_eq!(h.page_flags(2), 2);
    assert_eq!(h.page_flags(3), 0);
    // The last page of an allocation reads as free, so the next search
    // starts there.
    assert_eq!(h.alloc_pages(2), Some(0x2000 + 2 * 4096));
    assert_eq!(h.page_flags(2), 1);
    assert_eq!(h.page_flags(3), 2);
}

#[test]
fn alloc_of_one_page_twice_gives_the_same_page() {
    let mut h = small_heap(4);
    assert_eq!(h.alloc_pages(1), Some(0x2000));
    assert_eq!(h.alloc_pages(1), Some(0x2000));
    assert_eq!(h.page_flags(0), 2);
}

#[test]
fn alloc_zero_pages_gives_none() {
    let mut h = small_heap(4);
    assert_eq!(h.alloc_pages(0), None);
    assert_eq!(h.page_flags(0), 0);
}

#[test]
fn alloc_search_window_excludes_the_last_starts() {
    let mut h = small_heap(4);
    // Starts are searched below npages - pages only.
    assert_eq!(h.alloc_pages(4), None);
    assert_eq!(h.alloc_pages(3), Some(0x2000));
    let mut one = small_heap(1);
    assert_eq!(one.alloc_pages(1), None);
}

#[test]
fn alloc_skips_taken_pages() {
    let mut h = small_heap(8);
    assert_eq!(h.alloc_pages(4), Some(0x2000));
    assert_eq!(h.alloc_pages(2), Some(0x2000 + 3 * 4096));
    assert_eq!(h.alloc_pages(3), Some(0x2000 + 4 * 4096));
    assert_eq!(h.alloc_pages(4), None);
}

#[test]
fn dealloc_undoes_alloc() {
    let mut h = small_heap(8);
    let a = h.alloc_pages(3).unwrap();
    h.dealloc(a);
    for i in 0..8 {
        assert_eq!(h.page_flags(i), 0);
    }
    assert_eq!(h.alloc_pages(3), Some(a));
}

#[test]
fn dealloc_from_inside_an_allocation_frees_from_there() {
    let mut h = small_heap(8);
    let a = h.alloc_pages(4).unwrap();
    h.dealloc(a + 2 * 4096 + 100);
    assert_eq!(h.page_flags(0), 1);
    assert_eq!(h.page_flags(1), 1);
    assert_eq!(h.page_flags(2), 0);
    assert_eq!(h.page_flags(3), 0);
}

#[test]
fn dealloc_ignores_null_and_far_pointers() {
    let mut h = small_heap(8);
    let a = h.alloc_pages(2).unwrap();
    h.dealloc(0);
    // Descriptor index at or beyond the heap size in bytes.
    h.dealloc(h.alloc_start() + 8 * 4096 * 4096);
    assert_eq!(h.page_flags(0), 1);
    assert_eq!(h.page_flags(1), 2);
    h.dealloc(a);
    assert_eq!(h.page_flags(0), 0);
    assert_eq!(h.page_flags(1), 0);
}

#[test]
fn zalloc_marks_like_alloc() {
    let mut h = small_heap(8);
    assert_eq!(h.zalloc(2), Some(0x2000));
    assert_eq!(h.page_flags(0), 1);
    assert_eq!(h.page_flags(1), 2);
    assert_eq!(h.zalloc(0), None);
    for w in 0..1024 {
        assert_eq!(h.read_word(0x2000 + 8 * w), 0);
    }
}
