//! The backing file as a sequence of bytes, and what the pager's writes do
//! to it.

use crate::db::TABLE_MAX_PAGES;
use crate::pager::page_image;
use crate::pager::page_start;
use crate::pager::PagerState;
use crate::pager::WriteView;
use crate::pager::PAGE_SIZE;
use vstd::prelude::*;

verus! {

/// The file once `write` was carried out: its data stands from its offset
/// on, the file grows where the data runs past the end, and a gap between
/// the old end and the offset holds zeros.
pub open spec fn file_after(file: Seq<u8>, write: WriteView) -> Seq<u8> {
    let end = write.offset + write.data.len();
    let len = if file.len() >= end { file.len() as int } else { end };
    Seq::new(
        len as nat,
        |i: int|
            if write.offset <= i < end {
                write.data[i - write.offset]
            } else if i < file.len() {
                file[i]
            } else {
                0u8
            },
    )
}

/// The file once `writes` were carried out, first write first.
pub open spec fn file_after_all(file: Seq<u8>, writes: Seq<WriteView>) -> Seq<u8>
    decreases writes.len(),
{
    if writes.len() == 0 {
        file
    } else {
        file_after(file_after_all(file, writes.drop_last()), writes.last())
    }
}

/// What a read of `len` bytes at `offset` hands back: the bytes that the
/// file has there, fewer than `len` where the file ends early.
pub open spec fn file_read(file: Seq<u8>, offset: int, len: int) -> Seq<u8> {
    if offset >= file.len() {
        Seq::empty()
    } else if offset + len <= file.len() {
        file.subrange(offset, offset + len)
    } else {
        file.subrange(offset, file.len() as int)
    }
}

/// The file after the flushes of the pages below `end`: each of those pages
/// that is in memory stands in the file at its offset, and every other byte
/// of the file is as before.
pub proof fn lemma_flushes_reach_file(pager: PagerState, file: Seq<u8>, end: int)
    requires
        pager.wf(),
        0 <= end <= TABLE_MAX_PAGES,
    ensures
        ({
            let after = file_after_all(file, pager.flushes(end));
            &&& after.len() >= file.len()
            &&& forall|p: int|
                0 <= p < end && #[trigger] pager.is_resident(p) ==> {
                    &&& after.len() >= page_start(p) + PAGE_SIZE
                    &&& after.subrange(page_start(p), page_start(p) + PAGE_SIZE)
                        == pager.slots[p]->0
                }
            &&& forall|i: int|
                0 <= i < after.len() && !pager.is_resident(i / (PAGE_SIZE as int)) ==> #[trigger] after[i]
                    == (if i < file.len() { file[i] } else { 0u8 })
        }),
    decreases end,
{
    if end > 0 {
        lemma_flushes_reach_file(pager, file, end - 1);
        let before = file_after_all(file, pager.flushes(end - 1));
        let after = file_after_all(file, pager.flushes(end));
        match pager.flush(end - 1) {
            Some(write) => {
                assert(pager.flushes(end) == pager.flushes(end - 1).push(write));
                assert(pager.flushes(end).drop_last() == pager.flushes(end - 1));
                assert(after == file_after(before, write));
                assert forall|p: int| 0 <= p < end && #[trigger] pager.is_resident(p) implies {
                    &&& after.len() >= page_start(p) + PAGE_SIZE
                    &&& after.subrange(page_start(p), page_start(p) + PAGE_SIZE)
                        == pager.slots[p]->0
                } by {
                    if p < end - 1 {
                        assert(before.subrange(
                            page_start(p),
                            page_start(p) + PAGE_SIZE,
                        ) == pager.slots[p]->0);
                        assert(after.subrange(page_start(p), page_start(p) + PAGE_SIZE)
                            =~= before.subrange(
                            page_start(p),
                            page_start(p) + PAGE_SIZE,
                        ));
                    } else {
                        assert(after.subrange(page_start(p), page_start(p) + PAGE_SIZE)
                            =~= write.data);
                    }
                }
            },
            None => {
                assert(after == before);
            },
        }
        assert forall|i: int|
            0 <= i < after.len() && !pager.is_resident(i / (PAGE_SIZE as int)) implies #[trigger] after[i]
            == (if i < file.len() { file[i] } else { 0u8 }) by {
            if i < before.len() {
                assert(before[i] == (if i < file.len() { file[i] } else { 0u8 }));
            }
        }
    }
}

/// A page that a close flushed reads back from the file as it was in
/// memory.
pub proof fn lemma_flushed_page_reads_back(pager: PagerState, file: Seq<u8>, page_index: int)
    requires
        pager.wf(),
        pager.num_pages <= TABLE_MAX_PAGES,
        0 <= page_index < pager.num_pages,
        pager.is_resident(page_index),
    ensures
        page_image(
            file_read(
                file_after_all(file, pager.close()),
                page_start(page_index),
                PAGE_SIZE as int,
            ),
        ) == pager.slots[page_index]->0,
{
    lemma_flushes_reach_file(pager, file, pager.num_pages);
    let after = file_after_all(file, pager.close());
    let data = file_read(after, page_start(page_index), PAGE_SIZE as int);
    assert(data == pager.slots[page_index]->0);
    assert(page_image(data) =~= data);
}

} // verus!
