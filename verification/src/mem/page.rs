use vstd::prelude::*;

verus! {

/// log2 of the page size.
pub const PAGE_ORDER: usize = 12;

/// Size of a page in bytes.
pub const PAGE_SIZE: usize = 4096;

/// Rounds `val` up to the next multiple of `2^order`: the least value at
/// or above `val` whose low `order` bits are clear.
pub fn align_val(val: usize, order: usize) -> (r: usize)
    requires
        order < usize::BITS,
        val + ((1usize << order) - 1) <= usize::MAX,
    ensures
        r & (((1usize << order) - 1) as usize) == 0,
        val <= r,
        r - val < (1usize << order),
{
    assert(1usize << order >= 1) by (bit_vector)
        requires order < usize::BITS;
    let o: usize = (1usize << order) - 1;
    let s: usize = val + o;
    let r = s & !o;
    assert(r & o == 0 && val <= r && r - val <= o) by (bit_vector)
        requires
            order < usize::BITS,
            o == (1usize << order) - 1,
            s == val + o,
            r == s & !o,
    ;
    r
}

/// `align_val` at the page order gives `page_align_up`.
pub proof fn lemma_align_page(x: usize, r: usize)
    ensures
        (1usize << PAGE_ORDER) == 4096usize,
        (r & (((1usize << PAGE_ORDER) - 1) as usize) == 0 && x <= r && r - x < (1usize << PAGE_ORDER))
            ==> r == page_align_up(x as int),
{
    assert((1usize << 12usize) == 4096usize) by (bit_vector);
    assert(r & 4095usize == 0 ==> r % 4096 == 0) by (bit_vector);
}

/// Number of 64-bit words in a page.
pub const PAGE_WORDS: usize = 512;

/// The flag values a page descriptor can be set to.
#[derive(Clone, Copy)]
pub enum PageBits {
    Empty,
    Taken,
    Last,
}

impl PageBits {
    /// The byte that stands for this flag in a descriptor.
    pub open spec fn bits(self) -> u8 {
        match self {
            PageBits::Empty => 0,
            PageBits::Taken => 1,
            PageBits::Last => 2,
        }
    }

    pub fn val(self) -> (r: u8)
        ensures
            r == self.bits(),
    {
        match self {
            PageBits::Empty => 0,
            PageBits::Taken => 1,
            PageBits::Last => 2,
        }
    }
}

impl From<PageBits> for u8 {
    fn from(pb: PageBits) -> (r: u8) {
        pb.val()
    }
}

impl vstd::std_specs::convert::FromSpecImpl<PageBits> for u8 {
    open spec fn obeys_from_spec() -> bool {
        true
    }

    open spec fn from_spec(v: PageBits) -> u8 {
        v.bits()
    }
}

/// A descriptor byte marks its page as taken when its lowest bit is set.
pub open spec fn page_taken(f: u8) -> bool {
    f % 2 == 1
}

/// A descriptor byte marks its page as the last of an allocation when its
/// second bit is set.
pub open spec fn page_last(f: u8) -> bool {
    (f / 2) % 2 == 1
}

/// The descriptor of one page of the heap.
#[derive(Clone, Copy)]
pub struct Page {
    pub flags: u8,
}

impl Page {
    pub fn set_flags(&mut self, flags: PageBits)
        ensures
            final(self).flags == flags.bits(),
    {
        self.flags = u8::from(flags);
    }

    pub fn clear(&mut self)
        ensures
            final(self).flags == 0,
    {
        self.flags = u8::from(PageBits::Empty);
    }

    pub fn is_taken(&self) -> (r: bool)
        ensures
            r == page_taken(self.flags),
    {
        let f = self.flags;
        assert((f & 1u8 != 0u8) == (f % 2 == 1)) by (bit_vector);
        self.flags & PageBits::Taken.val() != 0u8
    }

    pub fn is_free(&self) -> (r: bool)
        ensures
            r == !page_taken(self.flags),
    {
        !self.is_taken()
    }

    pub fn is_last(&self) -> (r: bool)
        ensures
            r == page_last(self.flags),
    {
        let f = self.flags;
        assert((f & 2u8 != 0u8) == ((f / 2) % 2 == 1)) by (bit_vector);
        self.flags & PageBits::Last.val() != 0u8
    }
}

/// The abstract state of the heap: where it lies, its page descriptors and
/// the words of the pages it hands out.
pub struct HeapView {
    pub heap_start: int,
    pub heap_size: int,
    pub alloc_start: int,
    pub flags: Seq<u8>,
    pub words: Seq<u64>,
}

/// `x` rounded up to a multiple of the page size.
pub open spec fn page_align_up(x: int) -> int {
    ((x + 4095) / 4096) * 4096
}

/// Pages `i .. i + n` are all free.
pub open spec fn fits_at(flags: Seq<u8>, i: int, n: int) -> bool {
    forall|j: int| i <= j < i + n ==> !page_taken(#[trigger] flags[j])
}

/// `i` is the first start in the search window `0 .. len - n` at which `n`
/// free pages follow.
pub open spec fn is_first_fit(flags: Seq<u8>, n: int, i: int) -> bool {
    &&& 0 <= i < flags.len() - n
    &&& fits_at(flags, i, n)
    &&& forall|k: int| 0 <= k < i ==> !fits_at(flags, k, n)
}

pub open spec fn first_fit(flags: Seq<u8>, n: int) -> Option<int> {
    if exists|i: int| is_first_fit(flags, n, i) {
        Some(choose|i: int| is_first_fit(flags, n, i))
    } else {
        None
    }
}

/// Descriptors after pages `i .. i + n` are handed out: all but the last
/// read `Taken`, the last reads `Last`.
pub open spec fn mark_allocated(flags: Seq<u8>, i: int, n: int) -> Seq<u8> {
    Seq::new(
        flags.len(),
        |j: int|
            if i <= j < i + n - 1 {
                1u8
            } else if j == i + n - 1 {
                2u8
            } else {
                flags[j]
            },
    )
}

/// Words of pages `i .. i + n` set to zero.
pub open spec fn zero_pages(words: Seq<u64>, i: int, n: int) -> Seq<u64> {
    Seq::new(
        words.len(),
        |w: int|
            if i * 512 <= w < (i + n) * 512 {
                0u64
            } else {
                words[w]
            },
    )
}

/// Descriptors `idx ..= j` cleared.
pub open spec fn clear_run(flags: Seq<u8>, idx: int, j: int) -> Seq<u8> {
    Seq::new(flags.len(), |k: int| if idx <= k <= j { 0u8 } else { flags[k] })
}

/// From `idx`, descriptors read taken-but-not-last up to `j`, which reads last.
pub open spec fn run_to_last(flags: Seq<u8>, idx: int, j: int) -> bool {
    &&& 0 <= idx <= j < flags.len()
    &&& page_last(flags[j])
    &&& forall|k: int| idx <= k < j ==> page_taken(#[trigger] flags[k]) && !page_last(flags[k])
}

pub open spec fn run_last(flags: Seq<u8>, idx: int) -> int {
    choose|j: int| run_to_last(flags, idx, j)
}

impl HeapView {
    pub open spec fn npages(self) -> int {
        self.flags.len() as int
    }

    pub open spec fn wf(self) -> bool {
        &&& 0 <= self.heap_start
        &&& 0 <= self.heap_size
        &&& self.heap_start + self.heap_size <= usize::MAX
        &&& self.npages() == self.heap_size / 4096
        &&& self.alloc_start == page_align_up(self.heap_start + self.npages())
        &&& self.alloc_start + self.npages() * 4096 <= usize::MAX
        &&& self.words.len() == self.npages() * 512
    }

    /// Address of page `i` of the allocation area.
    pub open spec fn page_addr(self, i: int) -> int {
        self.alloc_start + i * 4096
    }

    /// Index of the page an allocation of `n` pages starts at, if any.
    pub open spec fn alloc_index(self, n: int) -> Option<int> {
        if n == 0 {
            None
        } else {
            first_fit(self.flags, n)
        }
    }

    pub open spec fn alloc_result(self, n: int) -> Option<usize> {
        match self.alloc_index(n) {
            Some(i) => Some(self.page_addr(i) as usize),
            None => None,
        }
    }

    pub open spec fn after_alloc(self, n: int) -> HeapView {
        match self.alloc_index(n) {
            Some(i) => HeapView { flags: mark_allocated(self.flags, i, n), ..self },
            None => self,
        }
    }

    pub open spec fn after_zalloc(self, n: int) -> HeapView {
        match self.alloc_index(n) {
            Some(i) => HeapView {
                flags: mark_allocated(self.flags, i, n),
                words: zero_pages(self.words, i, n),
                ..self
            },
            None => self,
        }
    }

    /// Index of the descriptor that `dealloc` looks up for `ptr`.
    pub open spec fn dealloc_index(self, ptr: int) -> int {
        (ptr - self.alloc_start) / 4096
    }

    /// `dealloc` returns at once for a null pointer and for one whose
    /// descriptor would lie beyond the heap's size in bytes.
    pub open spec fn dealloc_ignored(self, ptr: int) -> bool {
        ptr == 0 || self.dealloc_index(ptr) >= self.heap_size
    }

    /// The inputs on which `dealloc` neither underflows, nor reads past the
    /// descriptors, nor finds a run that does not end in a last page.
    pub open spec fn dealloc_ok(self, ptr: int) -> bool {
        ptr == 0 || (self.alloc_start <= ptr && (self.dealloc_index(ptr) < self.heap_size ==> exists|j: int|
            run_to_last(self.flags, self.dealloc_index(ptr), j)))
    }

    /// `addr` is the address of a word of the allocation area.
    pub open spec fn holds_word(self, addr: int) -> bool {
        &&& self.alloc_start <= addr < self.alloc_start + self.npages() * 4096
        &&& (addr - self.alloc_start) % 8 == 0
    }

    /// A whole page of the allocation area starts at `t`.
    pub open spec fn holds_table(self, t: int) -> bool {
        &&& self.alloc_start <= t
        &&& t + 4096 <= self.alloc_start + self.npages() * 4096
        &&& (t - self.alloc_start) % 4096 == 0
    }

    /// The word stored at address `addr`.
    pub open spec fn word_at(self, addr: int) -> u64 {
        self.words[(addr - self.alloc_start) / 8]
    }

    /// The heap after `value` is stored at address `addr`.
    pub open spec fn write(self, addr: int, value: u64) -> HeapView {
        HeapView { words: self.words.update((addr - self.alloc_start) / 8, value), ..self }
    }

    pub open spec fn after_dealloc(self, ptr: int) -> HeapView {
        if self.dealloc_ignored(ptr) {
            self
        } else {
            let idx = self.dealloc_index(ptr);
            HeapView { flags: clear_run(self.flags, idx, run_last(self.flags, idx)), ..self }
        }
    }
}

/// The heap after `dealloc` of each pointer of `s` in turn.
pub open spec fn after_deallocs(h: HeapView, s: Seq<usize>) -> HeapView
    decreases s.len(),
{
    if s.len() == 0 {
        h
    } else {
        after_deallocs(h, s.drop_last()).after_dealloc(s.last() as int)
    }
}

/// Each pointer of `s` may be passed to `dealloc` in turn.
pub open spec fn deallocs_ok(h: HeapView, s: Seq<usize>) -> bool
    decreases s.len(),
{
    s.len() == 0 || (deallocs_ok(h, s.drop_last()) && after_deallocs(h, s.drop_last()).dealloc_ok(
        s.last() as int,
    ))
}

/// `a` is a prefix of `b`.
pub open spec fn is_prefix<A>(a: Seq<A>, b: Seq<A>) -> bool {
    a.len() <= b.len() && b.subrange(0, a.len() as int) =~= a
}

pub proof fn lemma_after_deallocs_layout(h: HeapView, s: Seq<usize>)
    requires
        h.wf(),
    ensures
        after_deallocs(h, s).wf(),
        after_deallocs(h, s).heap_start == h.heap_start,
        after_deallocs(h, s).heap_size == h.heap_size,
        after_deallocs(h, s).alloc_start == h.alloc_start,
        after_deallocs(h, s).words == h.words,
        after_deallocs(h, s).npages() == h.npages(),
    decreases s.len(),
{
    if s.len() > 0 {
        lemma_after_deallocs_layout(h, s.drop_last());
    }
}

pub proof fn lemma_deallocs_push(h: HeapView, s: Seq<usize>, x: usize)
    ensures
        after_deallocs(h, s.push(x)) == after_deallocs(h, s).after_dealloc(x as int),
        deallocs_ok(h, s.push(x)) == (deallocs_ok(h, s) && after_deallocs(h, s).dealloc_ok(x as int)),
{
    assert(s.push(x).drop_last() =~= s);
}

pub proof fn lemma_deallocs_ok_prefix(h: HeapView, a: Seq<usize>, b: Seq<usize>)
    requires
        deallocs_ok(h, b),
        is_prefix(a, b),
    ensures
        deallocs_ok(h, a),
    decreases b.len(),
{
    if a.len() == b.len() {
        assert(a =~= b);
    } else {
        assert(is_prefix(a, b.drop_last()));
        lemma_deallocs_ok_prefix(h, a, b.drop_last());
    }
}

pub proof fn lemma_prefix_concat<A>(a: Seq<A>, b: Seq<A>, c: Seq<A>)
    requires
        is_prefix(b, c),
    ensures
        is_prefix(a + b, a + c),
{
    assert((a + c).subrange(0, (a + b).len() as int) =~= a + b);
}

pub proof fn lemma_prefix_trans<A>(a: Seq<A>, b: Seq<A>, c: Seq<A>)
    requires
        is_prefix(a, b),
        is_prefix(b, c),
    ensures
        is_prefix(a, c),
{
    assert(c.subrange(0, a.len() as int) =~= b.subrange(0, a.len() as int));
}

/// An allocation lies inside the allocation area, on a page boundary, and
/// covers only pages whose descriptors were free.
pub proof fn lemma_alloc_in_area(v: HeapView, n: int)
    requires
        v.wf(),
        0 < n,
        v.alloc_result(n) is Some,
    ensures
        ({
            let a = v.alloc_result(n)->Some_0 as int;
            let i = v.alloc_index(n)->Some_0;
            &&& a == v.page_addr(i)
            &&& v.alloc_start <= a
            &&& a + n * 4096 <= v.alloc_start + v.npages() * 4096
            &&& (a - v.alloc_start) % 4096 == 0
            &&& forall|j: int| i <= j < i + n ==> !page_taken(#[trigger] v.flags[j])
        }),
{
    let i = v.alloc_index(n)->Some_0;
    lemma_first_fit_some(v.flags, n, i);
    assert(0 <= i * 4096 && (i + n) * 4096 <= v.npages() * 4096 && (i * 4096) % 4096 == 0) by (nonlinear_arith)
        requires 0 <= i, i + n <= v.npages(), 0 < n;
    assert(i * 4096 + n * 4096 == (i + n) * 4096) by (nonlinear_arith);
    assert(v.page_addr(i) <= usize::MAX);
}

/// A one-page allocation leaves its page reading `Last`, which does not
/// read as taken: the next one-page allocation hands out the same page.
pub proof fn lemma_single_page_alloc_repeats(v: HeapView)
    requires
        v.wf(),
        v.alloc_index(1) is Some,
    ensures
        v.after_alloc(1).alloc_index(1) == v.alloc_index(1),
{
    let k = v.alloc_index(1)->Some_0;
    lemma_first_fit_some(v.flags, 1, k);
    let f = v.after_alloc(1).flags;
    assert(f[k] == 2u8);
    assert(!page_taken(2u8));
    assert forall|j: int| 0 <= j < k implies !fits_at(f, j, 1) by {
        assert(!fits_at(v.flags, j, 1));
        assert(f[j] == v.flags[j]);
    }
    assert(fits_at(f, k, 1));
    assert(is_first_fit(f, 1, k));
    lemma_first_fit_unique(f, 1, k);
}

/// Every word of the pages that `zalloc` hands out reads zero.
pub proof fn lemma_zalloc_zeroed(v: HeapView, n: int, addr: int)
    requires
        v.wf(),
        v.alloc_result(n) is Some,
        0 < n,
        v.alloc_result(n)->Some_0 <= addr < v.alloc_result(n)->Some_0 + n * 4096,
        v.holds_word(addr),
    ensures
        v.after_zalloc(n).word_at(addr) == 0,
{
    assert(n != 0);
    lemma_alloc_in_area(v, n);
    let i = v.alloc_index(n)->Some_0;
    let w = (addr - v.alloc_start) / 8;
    assert(addr - v.alloc_start == 8 * w);
    assert(i * 4096 == 8 * (i * 512));
    assert((i + n) * 512 * 8 == i * 4096 + n * 4096) by (nonlinear_arith);
}

/// Freeing an allocation that was made of empty pages restores the heap
/// the allocation started from.
pub proof fn lemma_dealloc_undoes_alloc(v: HeapView, n: int)
    requires
        v.wf(),
        v.alloc_result(n) is Some,
        0 < n,
        forall|j: int|
            v.alloc_index(n)->Some_0 <= j < v.alloc_index(n)->Some_0 + n ==> #[trigger] v.flags[j] == 0,
    ensures
        v.after_alloc(n).dealloc_ok(v.alloc_result(n)->Some_0 as int),
        v.after_alloc(n).after_dealloc(v.alloc_result(n)->Some_0 as int) == v,
{
    lemma_alloc_in_area(v, n);
    let i = v.alloc_index(n)->Some_0;
    let a = v.alloc_result(n)->Some_0 as int;
    let w = v.after_alloc(n);
    assert(w.dealloc_index(a) == i) by {
        assert((i * 4096) / 4096 == i) by (nonlinear_arith);
    }
    assert(v.npages() <= v.heap_size);
    assert(i < v.heap_size);
    let j = i + n - 1;
    assert(w.flags.len() == v.flags.len());
    assert(w.flags[j] == 2u8);
    assert forall|k: int| i <= k < j implies page_taken(#[trigger] w.flags[k]) && !page_last(w.flags[k]) by {
        assert(w.flags[k] == 1u8);
    }
    assert(page_last(2u8) && page_taken(1u8) && !page_last(1u8));
    assert(run_to_last(w.flags, i, j));
    lemma_run_last_unique(w.flags, i, j);
    assert(clear_run(w.flags, i, j) =~= v.flags);
}

/// A freed allocation cannot be freed again: the check for a double free
/// refuses the same pointer.
pub proof fn lemma_double_free_refused(v: HeapView, ptr: int)
    requires
        v.wf(),
        v.dealloc_ok(ptr),
        !v.dealloc_ignored(ptr),
    ensures
        !v.after_dealloc(ptr).dealloc_ok(ptr),
{
    let idx = v.dealloc_index(ptr);
    let j0 = choose|j: int| run_to_last(v.flags, idx, j);
    lemma_run_last_unique(v.flags, idx, j0);
    let w = v.after_dealloc(ptr);
    assert(w.flags[idx] == 0);
    if exists|j: int| run_to_last(w.flags, idx, j) {
        let j = choose|j: int| run_to_last(w.flags, idx, j);
        if j == idx {
            assert(!page_last(0u8));
        } else {
            assert(!page_taken(w.flags[idx]));
        }
    }
}

/// The kernel heap: a table of page descriptors followed, at the next page
/// boundary, by the allocation area, whose contents are held word by word.
pub struct Heap {
    heap_start: usize,
    heap_size: usize,
    alloc_start: usize,
    pages: Vec<Page>,
    memory: Vec<u64>,
}

impl View for Heap {
    type V = HeapView;

    closed spec fn view(&self) -> HeapView {
        HeapView {
            heap_start: self.heap_start as int,
            heap_size: self.heap_size as int,
            alloc_start: self.alloc_start as int,
            flags: Seq::new(self.pages@.len(), |i: int| self.pages@[i].flags),
            words: self.memory@,
        }
    }
}

proof fn lemma_first_fit_unique(flags: Seq<u8>, n: int, i: int)
    requires
        is_first_fit(flags, n, i),
    ensures
        first_fit(flags, n) == Some(i),
{
    let c = choose|i: int| is_first_fit(flags, n, i);
    assert(is_first_fit(flags, n, c));
    if c < i {
        assert(!fits_at(flags, c, n));
    } else if i < c {
        assert(!fits_at(flags, i, n));
    }
}

pub proof fn lemma_first_fit_some(flags: Seq<u8>, n: int, k: int)
    requires
        first_fit(flags, n) == Some(k),
    ensures
        is_first_fit(flags, n, k),
{
}

proof fn lemma_run_last_unique(flags: Seq<u8>, idx: int, j: int)
    requires
        run_to_last(flags, idx, j),
    ensures
        run_last(flags, idx) == j,
{
    let c = run_last(flags, idx);
    assert(run_to_last(flags, idx, c));
    if c < j {
        assert(page_taken(flags[c]) && !page_last(flags[c]));
    } else if j < c {
        assert(page_taken(flags[j]) && !page_last(flags[j]));
    }
}

impl Heap {
    /// The inputs on which `init`'s arithmetic, and the addresses of the
    /// pages it will hand out, fit a `usize`.
    pub open spec fn init_ok(heap_start: int, heap_size: int) -> bool {
        &&& heap_start + heap_size <= usize::MAX
        &&& heap_start + heap_size / 4096 + 4095 + (heap_size / 4096) * 4096 <= usize::MAX
    }

    /// The heap that `init` sets up.
    pub open spec fn init_view(heap_start: int, heap_size: int) -> HeapView {
        HeapView {
            heap_start,
            heap_size,
            alloc_start: page_align_up(heap_start + heap_size / 4096),
            flags: Seq::new((heap_size / 4096) as nat, |i: int| 0u8),
            words: Seq::new(((heap_size / 4096) * 512) as nat, |i: int| 0u64),
        }
    }

    pub closed spec fn wf(&self) -> bool {
        &&& self@.wf()
        &&& self.pages@.len() == self@.npages()
    }

    /// Sets up a heap of `heap_size` bytes at `heap_start`: one descriptor
    /// per whole page, all empty, and the allocation area at the first page
    /// boundary after the descriptors. The words of the allocation area start
    /// out zero.
    pub fn init(heap_start: usize, heap_size: usize) -> (h: Heap)
        requires
            Heap::init_ok(heap_start as int, heap_size as int),
        ensures
            h.wf(),
            h@ == Heap::init_view(heap_start as int, heap_size as int),
    {
        let num_pages = heap_size / PAGE_SIZE;
        let mut pages: Vec<Page> = Vec::new();
        let mut i: usize = 0;
        while i < num_pages
            invariant
                i <= num_pages,
                pages@.len() == i,
                forall|k: int| 0 <= k < i ==> (#[trigger] pages@[k]).flags == 0,
            decreases num_pages - i,
        {
            let mut p = Page { flags: 0 };
            p.clear();
            pages.push(p);
            i = i + 1;
        }
        let start = heap_start + num_pages;
        proof {
            lemma_align_page(start, 0);
        }
        let alloc_start = align_val(start, PAGE_ORDER);
        proof {
            lemma_align_page(start, alloc_start);
        }
        let num_words = num_pages * PAGE_WORDS;
        let mut memory: Vec<u64> = Vec::new();
        let mut w: usize = 0;
        while w < num_words
            invariant
                w <= num_words,
                memory@.len() == w,
                forall|k: int| 0 <= k < w ==> memory@[k] == 0u64,
            decreases num_words - w,
        {
            memory.push(0u64);
            w = w + 1;
        }
        let h = Heap { heap_start, heap_size, alloc_start, pages, memory };
        assert(h@.flags =~= Seq::new((heap_size / 4096) as nat, |i: int| 0u8));
        assert(h@.words =~= Seq::new(((heap_size / 4096) * 512) as nat, |i: int| 0u64));
        h
    }

    pub proof fn lemma_view_wf(&self)
        requires
            self.wf(),
        ensures
            self@.wf(),
            self@.alloc_start % 4096 == 0,
    {
    }

    /// The word stored at address `addr` of the allocation area.
    pub fn read_word(&self, addr: usize) -> (r: u64)
        requires
            self.wf(),
            self@.holds_word(addr as int),
        ensures
            r == self@.word_at(addr as int),
    {
        self.memory[(addr - self.alloc_start) / 8]
    }

    pub(crate) fn write_word(&mut self, addr: usize, value: u64)
        requires
            old(self).wf(),
            old(self)@.holds_word(addr as int),
        ensures
            final(self).wf(),
            final(self)@ == old(self)@.write(addr as int, value),
    {
        let w = (addr - self.alloc_start) / 8;
        self.memory.set(w, value);
    }

    /// Whether a whole page of the allocation area starts at `t`.
    pub fn holds_table(&self, t: usize) -> (r: bool)
        requires
            self.wf(),
        ensures
            r == self@.holds_table(t as int),
    {
        if t < self.alloc_start {
            return false;
        }
        let off = t - self.alloc_start;
        off % PAGE_SIZE == 0 && off / PAGE_SIZE < self.pages.len()
    }

    pub fn alloc_start(&self) -> (r: usize)
        ensures
            r == self@.alloc_start,
    {
        self.alloc_start
    }

    pub fn heap_start(&self) -> (r: usize)
        ensures
            r == self@.heap_start,
    {
        self.heap_start
    }

    pub fn heap_size(&self) -> (r: usize)
        ensures
            r == self@.heap_size,
    {
        self.heap_size
    }

    pub fn num_pages(&self) -> (r: usize)
        requires
            self.wf(),
        ensures
            r == self@.npages(),
    {
        self.pages.len()
    }

    /// The descriptor byte of page `i`.
    pub fn page_flags(&self, i: usize) -> (r: u8)
        requires
            self.wf(),
            i < self@.npages(),
        ensures
            r == self@.flags[i as int],
    {
        self.pages[i].flags
    }

    /// Hands out `pages` consecutive pages: the first start `i` below
    /// `npages - pages` from which `pages` descriptors are free. The pages are
    /// marked taken, the last one last, and the address of page `i` of the
    /// allocation area is returned; `None` when `pages` is zero or no start
    /// fits.
    pub fn alloc_pages(&mut self, pages: usize) -> (r: Option<usize>)
        requires
            old(self).wf(),
            pages == 0 || pages <= old(self)@.npages(),
        ensures
            final(self).wf(),
            final(self)@ == old(self)@.after_alloc(pages as int),
            r == old(self)@.alloc_result(pages as int),
    {
        if pages == 0 {
            return None;
        }
        let num_pages = self.heap_size / PAGE_SIZE;
        let ghost flags = self@.flags;
        let mut i: usize = 0;
        while i < num_pages - pages
            invariant
                self.wf(),
                *self == *old(self),
                flags == self@.flags,
                num_pages == self@.npages(),
                1 <= pages <= num_pages,
                i <= num_pages - pages,
                forall|k: int| 0 <= k < i ==> !fits_at(flags, k, pages as int),
            decreases num_pages - pages - i,
        {
            let mut found = false;
            if self.pages[i].is_free() {
                found = true;
                let mut j = i;
                while j < i + pages
                    invariant_except_break
                        found,
                    invariant
                        self.wf(),
                        flags == self@.flags,
                        num_pages == self@.npages(),
                        i < num_pages - pages,
                        i <= j <= i + pages,
                        forall|m: int| i <= m < j ==> !page_taken(#[trigger] flags[m]),
                    ensures
                        found <==> fits_at(flags, i as int, pages as int),
                    decreases i + pages - j,
                {
                    if self.pages[j].is_taken() {
                        assert(page_taken(flags[j as int]));
                        found = false;
                        break;
                    }
                    j = j + 1;
                }
            }
            proof {
                if !found && fits_at(flags, i as int, pages as int) {
                    assert(!page_taken(flags[i as int]));
                }
            }
            if found {
                let ghost old_pages = self.pages@;
                let mut k = i;
                while k < i + pages
                    invariant
                        i < num_pages - pages,
                        1 <= pages,
                        i <= k <= i + pages,
                        self.pages@.len() == old_pages.len(),
                        old_pages.len() == flags.len(),
                        num_pages == flags.len(),
                        old(self).wf(),
                        flags == old(self)@.flags,
                        self.heap_start == old(self).heap_start,
                        self.heap_size == old(self).heap_size,
                        self.alloc_start == old(self).alloc_start,
                        self.memory == old(self).memory,
                        flags == Seq::new(old_pages.len(), |m: int| old_pages[m].flags),
                        forall|m: int| 0 <= m < self.pages@.len() ==> (#[trigger] self.pages@[m]).flags
                            == if i <= m < k { 1u8 } else { flags[m] },
                    decreases i + pages - k,
                {
                    let mut p = self.pages[k];
                    p.set_flags(PageBits::Taken);
                    self.pages.set(k, p);
                    k = k + 1;
                }
                let last = i + pages - 1;
                let mut p = self.pages[last];
                p.set_flags(PageBits::Last);
                self.pages.set(last, p);
                proof {
                    assert(is_first_fit(flags, pages as int, i as int));
                    lemma_first_fit_unique(flags, pages as int, i as int);
                    assert(self@.flags =~= mark_allocated(flags, i as int, pages as int));
                    assert(i * 4096 <= (num_pages - 1) * 4096) by (nonlinear_arith)
                        requires i < num_pages;
                }
                return Some(i * PAGE_SIZE + self.alloc_start);
            }
            i = i + 1;
        }
        proof {
            if exists|c: int| is_first_fit(flags, pages as int, c) {
                let c = choose|c: int| is_first_fit(flags, pages as int, c);
                assert(!fits_at(flags, c, pages as int));
            }
        }
        None
    }

    /// `alloc`, then every word of the pages handed out set to zero.
    pub fn zalloc(&mut self, pages: usize) -> (r: Option<usize>)
        requires
            old(self).wf(),
            pages == 0 || pages <= old(self)@.npages(),
        ensures
            final(self).wf(),
            final(self)@ == old(self)@.after_zalloc(pages as int),
            r == old(self)@.alloc_result(pages as int),
    {
        let ret = self.alloc_pages(pages);
        if let Some(addr) = ret {
            let ghost i = old(self)@.alloc_index(pages as int)->Some_0;
            let ghost npages = self@.npages();
            assert(is_first_fit(old(self)@.flags, pages as int, i));
            assert(0 <= i && i + pages <= npages);
            assert(pages * 4096 <= npages * 4096 && i * 4096 + pages * 4096 <= npages * 4096) by (nonlinear_arith)
                requires pages <= npages, 0 <= i, i + pages <= npages;
            let size = (PAGE_SIZE * pages) / 8;
            let base = (addr - self.alloc_start) / 8;
            assert(base == i * 512 && size == pages * 512) by (nonlinear_arith)
                requires
                    addr == self@.alloc_start + i * 4096,
                    base == (addr - self@.alloc_start) / 8,
                    size == (4096 * pages) / 8;
            assert((i + pages) * 512 <= npages * 512) by (nonlinear_arith)
                requires i + pages <= npages;
            let ghost words = self.memory@;
            let mut w: usize = 0;
            while w < size
                invariant
                    self.wf(),
                    base == i * 512,
                    size == pages * 512,
                    (i + pages) * 512 <= npages * 512,
                    npages == self@.npages(),
                    self@.flags == old(self)@.after_alloc(pages as int).flags,
                    self@.heap_start == old(self)@.heap_start,
                    self@.heap_size == old(self)@.heap_size,
                    self@.alloc_start == old(self)@.alloc_start,
                    words == old(self)@.words,
                    w <= size,
                    self.memory@.len() == words.len(),
                    forall|m: int| 0 <= m < words.len() ==> (#[trigger] self.memory@[m])
                        == if base <= m < base + w { 0u64 } else { words[m] },
                decreases size - w,
            {
                self.memory.set(base + w, 0u64);
                w = w + 1;
            }
            assert(self@.words =~= zero_pages(words, i, pages as int));
        }
        ret
    }

    /// Frees the allocation that `ptr` points into: from its descriptor on,
    /// taken-but-not-last descriptors are cleared up to and including the
    /// last one. Does nothing for a null pointer, nor for one whose
    /// descriptor index reaches the heap's size in bytes.
    pub fn dealloc(&mut self, ptr: usize)
        requires
            old(self).wf(),
            old(self)@.dealloc_ok(ptr as int),
        ensures
            final(self).wf(),
            final(self)@ == old(self)@.after_dealloc(ptr as int),
    {
        if ptr == 0 {
            return;
        }
        let addr = self.heap_start + (ptr - self.alloc_start) / PAGE_SIZE;
        if addr < self.heap_start || addr >= self.heap_start + self.heap_size {
            return;
        }
        let idx = addr - self.heap_start;
        let ghost flags = self@.flags;
        let ghost j = run_last(flags, idx as int);
        proof {
            let w = choose|w: int| run_to_last(flags, idx as int, w);
            lemma_run_last_unique(flags, idx as int, w);
        }
        let mut p = idx;
        while self.pages[p].is_taken() && !self.pages[p].is_last()
            invariant
                self.wf(),
                self@.heap_start == old(self)@.heap_start,
                self@.heap_size == old(self)@.heap_size,
                self@.alloc_start == old(self)@.alloc_start,
                self@.words == old(self)@.words,
                flags == old(self)@.flags,
                run_to_last(flags, idx as int, j),
                idx <= p <= j,
                self.pages@.len() == flags.len(),
                forall|m: int| 0 <= m < flags.len() ==> (#[trigger] self.pages@[m]).flags
                    == if idx <= m < p { 0u8 } else { flags[m] },
            decreases j - p,
        {
            let mut pg = self.pages[p];
            pg.clear();
            self.pages.set(p, pg);
            p = p + 1;
        }
        // The run ends in a last page here: `dealloc_ok` rules out a double free.
        let mut pg = self.pages[p];
        pg.clear();
        self.pages.set(p, pg);
        assert(self@.flags =~= clear_run(flags, idx as int, j));
    }
}

} // verus!
