//! The page cache.
//!
//! A [`Pager`] holds the pages of the backing file that are in memory. It
//! never touches the file itself: it says which bytes to read or write, and
//! the caller, who owns the file, does so.

use crate::db::TABLE_MAX_PAGES;
use vstd::prelude::*;

verus! {

/// Bytes of one page.
pub const PAGE_SIZE: usize = 4096;

/// The bytes of one page in memory.
pub type Page = Vec<u8>;

/// A page of zeros.
pub open spec fn zero_page() -> Seq<u8> {
    Seq::new(PAGE_SIZE as nat, |i: int| 0u8)
}

/// The page that a read of `PAGE_SIZE` bytes fills when the file hands back
/// `data`: the bytes that came, then zeros where the file ended early.
pub open spec fn page_image(data: Seq<u8>) -> Seq<u8> {
    Seq::new(PAGE_SIZE as nat, |i: int| if i < data.len() { data[i] } else { 0u8 })
}

/// Where page `page_index` starts in the backing file.
pub open spec fn page_start(page_index: int) -> int {
    page_index * PAGE_SIZE
}

/// One write to the backing file: `data` goes to the bytes from `offset` on.
#[derive(Debug, Clone, PartialEq, Eq)]
pub struct PageWrite {
    pub offset: u64,
    pub data: Vec<u8>,
}

/// A write as a mathematical value.
pub struct WriteView {
    pub offset: int,
    pub data: Seq<u8>,
}

impl View for PageWrite {
    type V = WriteView;

    open spec fn view(&self) -> WriteView {
        WriteView { offset: self.offset as int, data: self.data@ }
    }
}

/// How many of `slots` are empty.
pub open spec fn empty_slots(slots: Seq<Option<Seq<u8>>>) -> nat
    decreases slots.len(),
{
    if slots.len() == 0 {
        0
    } else {
        empty_slots(slots.drop_last()) + if slots.last() is None {
            1nat
        } else {
            0nat
        }
    }
}

/// There are no more empty slots than slots, and at least one where a slot
/// is empty. A page put in a slot takes one from the count if the slot was
/// empty, and leaves the count as it was if not.
pub proof fn lemma_empty_slots(slots: Seq<Option<Seq<u8>>>, page_index: int, page: Seq<u8>)
    requires
        0 <= page_index < slots.len(),
    ensures
        empty_slots(slots) <= slots.len(),
        slots[page_index] is None ==> empty_slots(slots) >= 1 && empty_slots(
            slots.update(page_index, Some(page)),
        ) == empty_slots(slots) - 1,
        slots[page_index] is Some ==> empty_slots(slots.update(page_index, Some(page)))
            == empty_slots(slots),
    decreases slots.len(),
{
    let updated = slots.update(page_index, Some(page));
    if page_index == slots.len() - 1 {
        assert(updated.drop_last() == slots.drop_last());
        lemma_empty_slots_bound(slots.drop_last());
    } else {
        lemma_empty_slots(slots.drop_last(), page_index, page);
        assert(updated.drop_last() == slots.drop_last().update(page_index, Some(page)));
    }
}

/// There are no more empty slots than slots.
pub proof fn lemma_empty_slots_bound(slots: Seq<Option<Seq<u8>>>)
    ensures
        empty_slots(slots) <= slots.len(),
    decreases slots.len(),
{
    if slots.len() > 0 {
        lemma_empty_slots_bound(slots.drop_last());
    }
}

/// The page cache as a mathematical value.
#[verifier::ext_equal]
pub struct PagerState {
    /// One slot for each page index: the page, if it is in memory.
    pub slots: Seq<Option<Seq<u8>>>,
    /// How many pages are known to exist.
    pub num_pages: int,
}

impl PagerState {
    /// Every slot is there, each page in memory has the full size, and the
    /// page count can still take one more page for each empty slot.
    pub open spec fn wf(self) -> bool {
        &&& self.slots.len() == TABLE_MAX_PAGES
        &&& self.num_pages >= 0
        &&& self.num_pages + empty_slots(self.slots) <= usize::MAX
        &&& forall|i: int|
            0 <= i < self.slots.len() && (#[trigger] self.slots[i]) is Some
                ==> self.slots[i]->0.len() == PAGE_SIZE
    }

    /// The cache over a file of `file_len` bytes, with no page in memory.
    pub open spec fn open(file_len: int) -> PagerState {
        PagerState {
            slots: Seq::new(TABLE_MAX_PAGES as nat, |i: int| None),
            num_pages: file_len / (PAGE_SIZE as int),
        }
    }

    /// Whether page `page_index` is in memory.
    pub open spec fn is_resident(self, page_index: int) -> bool {
        0 <= page_index < self.slots.len() && self.slots[page_index] is Some
    }

    /// The cache once page `page_index` was asked for writing: an empty slot
    /// gets a page of zeros, which counts as one more page.
    pub open spec fn touch(self, page_index: int) -> PagerState {
        if self.is_resident(page_index) {
            self
        } else {
            PagerState {
                slots: self.slots.update(page_index, Some(zero_page())),
                num_pages: self.num_pages + 1,
            }
        }
    }

    /// The cache with `page` in slot `page_index`.
    pub open spec fn with_page(self, page_index: int, page: Seq<u8>) -> PagerState {
        PagerState { slots: self.slots.update(page_index, Some(page)), ..self }
    }

    /// The cache once `data`, read from the file at the page's offset, was
    /// put in slot `page_index`.
    pub open spec fn load(self, page_index: int, data: Seq<u8>) -> PagerState {
        self.with_page(page_index, page_image(data))
    }

    /// The write that flushes page `page_index`, if the page is in memory.
    pub open spec fn flush(self, page_index: int) -> Option<WriteView> {
        if self.is_resident(page_index) {
            Some(
                WriteView {
                    offset: page_start(page_index),
                    data: self.slots[page_index]->0,
                },
            )
        } else {
            None
        }
    }

    /// The writes that flush the pages below `end`, lowest page first.
    pub open spec fn flushes(self, end: int) -> Seq<WriteView>
        decreases end,
    {
        if end <= 0 {
            Seq::empty()
        } else {
            match self.flush(end - 1) {
                Some(write) => self.flushes(end - 1).push(write),
                None => self.flushes(end - 1),
            }
        }
    }

    /// The writes of a close: every page in memory below `num_pages`.
    pub open spec fn close(self) -> Seq<WriteView> {
        self.flushes(self.num_pages)
    }

    /// A page taken for writing leaves the pager in order, whatever is
    /// written to the page, as long as the page keeps its size.
    pub proof fn lemma_touch_keeps_wf(self, page_index: int, page: Seq<u8>)
        requires
            self.wf(),
            0 <= page_index < self.slots.len(),
            page.len() == PAGE_SIZE,
        ensures
            self.touch(page_index).wf(),
            self.touch(page_index).with_page(page_index, page).wf(),
    {
        let touched = self.touch(page_index);
        lemma_empty_slots(self.slots, page_index, zero_page());
        lemma_empty_slots(touched.slots, page_index, page);
        let written = touched.with_page(page_index, page);
        assert forall|i: int| 0 <= i < written.slots.len() && (#[trigger] written.slots[i])
            is Some implies written.slots[i]->0.len() == PAGE_SIZE by {
            if i != page_index {
                assert(written.slots[i] == self.slots[i]);
            }
        }
    }

    /// Every flush of the pages below `end` lies below the start of page
    /// `end`.
    pub proof fn lemma_flushes_below(self, end: int, i: int)
        requires
            0 <= end <= self.slots.len(),
            0 <= i < self.flushes(end).len(),
        ensures
            0 <= self.flushes(end)[i].offset < page_start(end),
        decreases end,
    {
        if i < self.flushes(end - 1).len() {
            self.lemma_flushes_below(end - 1, i);
        }
    }

    /// The flushes of the pages below `end` come lowest page first.
    pub proof fn lemma_flushes_rise(self, end: int, i: int, j: int)
        requires
            0 <= end <= self.slots.len(),
            0 <= i < j < self.flushes(end).len(),
        ensures
            self.flushes(end)[i].offset < self.flushes(end)[j].offset,
        decreases end,
    {
        let earlier = self.flushes(end - 1);
        if j < earlier.len() {
            self.lemma_flushes_rise(end - 1, i, j);
        } else {
            assert(self.flushes(end)[j].offset == page_start(end - 1));
            assert(self.flushes(end)[i] == earlier[i]);
            self.lemma_flushes_below(end - 1, i);
        }
    }

    /// Every flush of the pages below `end` is the flush of one of those
    /// pages: the page that the lemma gives back.
    pub proof fn lemma_flush_has_page(self, end: int, i: int) -> (page_index: int)
        requires
            0 <= end <= self.slots.len(),
            0 <= i < self.flushes(end).len(),
        ensures
            0 <= page_index < end,
            self.flush(page_index) == Some(self.flushes(end)[i]),
        decreases end,
    {
        if i < self.flushes(end - 1).len() {
            self.lemma_flush_has_page(end - 1, i)
        } else {
            end - 1
        }
    }

    /// Every page below `end` that is in memory has its flush among the
    /// flushes of the pages below `end`: at the place that the lemma gives
    /// back.
    pub proof fn lemma_page_has_flush(self, end: int, page_index: int) -> (i: int)
        requires
            0 <= page_index < end <= self.slots.len(),
            self.is_resident(page_index),
        ensures
            0 <= i < self.flushes(end).len(),
            self.flush(page_index) == Some(self.flushes(end)[i]),
        decreases end,
    {
        if page_index < end - 1 {
            self.lemma_page_has_flush(end - 1, page_index)
        } else {
            self.flushes(end).len() - 1
        }
    }
}

/// The page cache: a fixed number of slots, each empty or holding a page,
/// and the count of pages known to exist on disk or in memory.
#[derive(Debug)]
pub struct Pager {
    pub pages: Vec<Option<Page>>,
    pub num_pages: usize,
}

impl View for Pager {
    type V = PagerState;

    open spec fn view(&self) -> PagerState {
        PagerState {
            slots: Seq::new(
                self.pages.len() as nat,
                |i: int|
                    match self.pages[i] {
                        Some(page) => Some(page@),
                        None => None,
                    },
            ),
            num_pages: self.num_pages as int,
        }
    }
}

/// The views of a list of writes.
pub open spec fn write_views(writes: Seq<PageWrite>) -> Seq<WriteView> {
    Seq::new(writes.len(), |i: int| writes[i]@)
}

impl Pager {
    /// The pager is in order; see [`PagerState::wf`].
    pub open spec fn wf(&self) -> bool {
        self@.wf()
    }

    /// Where page `page_index` starts in the backing file.
    pub fn page_offset(page_index: usize) -> (offset: u64)
        requires
            page_index < TABLE_MAX_PAGES,
        ensures
            offset == page_start(page_index as int),
    {
        (page_index * PAGE_SIZE) as u64
    }

    /// The cache over a backing file of `file_len` bytes. No page is in
    /// memory yet; the file counts as holding its whole pages. The pages of
    /// the file and the slots together must be countable in a `usize`.
    pub fn new(file_len: u64) -> (pager: Pager)
        requires
            file_len / (PAGE_SIZE as u64) + TABLE_MAX_PAGES <= usize::MAX,
        ensures
            pager.wf(),
            pager@ == PagerState::open(file_len as int),
    {
        let mut pages: Vec<Option<Page>> = Vec::new();
        let mut i: usize = 0;
        while i < TABLE_MAX_PAGES
            invariant
                i <= TABLE_MAX_PAGES,
                pages.len() == i,
                forall|k: int| 0 <= k < i ==> pages[k] is None,
            decreases TABLE_MAX_PAGES - i,
        {
            pages.push(None);
            i += 1;
        }
        let num_pages = (file_len / (PAGE_SIZE as u64)) as usize;
        let pager = Pager { pages, num_pages };
        proof {
            assert(pager@.slots =~= PagerState::open(file_len as int).slots);
            lemma_empty_slots_bound(pager@.slots);
        }
        pager
    }

    /// The page in slot `page_index`, if it is in memory. Where it is not,
    /// the caller reads `PAGE_SIZE` bytes at the page's offset and hands
    /// them to [`Pager::load`].
    pub fn page_to_read(&self, page_index: usize) -> (page: Option<&Page>)
        requires
            self.wf(),
            page_index < TABLE_MAX_PAGES,
        ensures
            match self@.slots[page_index as int] {
                Some(bytes) => page matches Some(p) && p@ == bytes,
                None => page is None,
            },
    {
        self.pages[page_index].as_ref()
    }

    /// The page in slot `page_index`, for writing. An empty slot first gets
    /// a page of zeros, which counts as one more page. The page is not
    /// durable before a flush or a close. The pager stays in order as long
    /// as the caller leaves the page its size.
    pub fn page_to_write(&mut self, page_index: usize) -> (page: &mut Page)
        requires
            old(self).wf(),
            page_index < TABLE_MAX_PAGES,
        ensures
            page@ == old(self)@.touch(page_index as int).slots[page_index as int]->0,
            !old(self)@.is_resident(page_index as int) ==> page@ == zero_page(),
            page@.len() == PAGE_SIZE,
            final(self)@ =~= old(self)@.touch(page_index as int).with_page(
                page_index as int,
                final(page)@,
            ),
            final(page)@.len() == PAGE_SIZE ==> final(self).wf(),
    {
        proof {
            lemma_empty_slots(old(self)@.slots, page_index as int, zero_page());
            assert forall|written: Seq<u8>| written.len() == PAGE_SIZE implies (
            #[trigger] old(self)@.touch(page_index as int).with_page(
                page_index as int,
                written,
            )).wf() by {
                old(self)@.lemma_touch_keeps_wf(page_index as int, written);
            }
        }
        if self.pages[page_index].is_none() {
            let page: Page = vec![0u8; PAGE_SIZE];
            assert(page@ =~= zero_page());
            self.pages[page_index] = Some(page);
            self.num_pages += 1;
        }
        assert(self@.slots =~= old(self)@.touch(page_index as int).slots);
        self.pages[page_index].as_mut().unwrap()
    }

    /// Puts the bytes that were read from the file at the offset of page
    /// `page_index` into the page's slot. Where the file ended before a
    /// full page, the rest of the page is zero.
    pub fn load(&mut self, page_index: usize, data: &[u8])
        requires
            old(self).wf(),
            page_index < TABLE_MAX_PAGES,
        ensures
            final(self).wf(),
            final(self)@ == old(self)@.load(page_index as int, data@),
    {
        let mut page: Page = vec![0u8; PAGE_SIZE];
        let n = if data.len() < PAGE_SIZE { data.len() } else { PAGE_SIZE };
        let mut i: usize = 0;
        while i < n
            invariant
                n <= PAGE_SIZE,
                n <= data.len(),
                i <= n,
                page.len() == PAGE_SIZE,
                forall|k: int| 0 <= k < i ==> page[k] == data[k],
                forall|k: int| i <= k < PAGE_SIZE ==> page[k] == 0,
            decreases n - i,
        {
            page[i] = data[i];
            i += 1;
        }
        assert(page@ =~= page_image(data@));
        self.pages[page_index] = Some(page);
        proof {
            assert(self@.slots =~= old(self)@.load(page_index as int, data@).slots);
            lemma_empty_slots(old(self)@.slots, page_index as int, page_image(data@));
        }
    }

    /// The write that makes page `page_index` durable, or `None` if the
    /// page is not in memory: the file then keeps what it has there.
    pub fn flush(&self, page_index: usize) -> (write: Option<PageWrite>)
        requires
            self.wf(),
            page_index < TABLE_MAX_PAGES,
        ensures
            match self@.flush(page_index as int) {
                Some(w) => write matches Some(out) && out@ == w,
                None => write is None,
            },
    {
        match &self.pages[page_index] {
            Some(page) => {
                let data = page.clone();
                Some(PageWrite { offset: Pager::page_offset(page_index), data })
            },
            None => None,
        }
    }

    /// The writes that make every page in memory durable: one for each
    /// page below `num_pages` that is in memory, lowest page first. The
    /// count must not pass the number of slots.
    pub fn close(&self) -> (writes: Vec<PageWrite>)
        requires
            self.wf(),
            self.num_pages <= TABLE_MAX_PAGES,
        ensures
            write_views(writes@) == self@.close(),
    {
        let mut writes: Vec<PageWrite> = Vec::new();
        let mut i: usize = 0;
        while i < self.num_pages
            invariant
                self.wf(),
                self.num_pages <= TABLE_MAX_PAGES,
                i <= self.num_pages,
                write_views(writes@) == self@.flushes(i as int),
            decreases self.num_pages - i,
        {
            let ghost before = writes@;
            match self.flush(i) {
                Some(write) => {
                    writes.push(write);
                    assert(write_views(writes@) =~= write_views(before).push(write@));
                },
                None => {},
            }
            i += 1;
        }
        writes
    }
}

} // verus!
