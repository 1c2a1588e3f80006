//! How rows are packed into pages, and what follows from it: where
//! neighbouring rows live, when the table is full, that unused bytes are
//! zero, and that rows come back after a close and a reopen.

use crate::db::lemma_layout;
use crate::db::offset_of;
use crate::db::overwrite;
use crate::db::page_of;
use crate::db::ReadError;
use crate::db::RowView;
use crate::db::TableState;
use crate::db::ROWS_PER_PAGE;
use crate::db::ROW_SIZE;
use crate::db::TABLE_MAX_PAGES;
use crate::db::TABLE_MAX_ROWS;
use crate::file::file_after_all;
use crate::file::file_read;
use crate::file::lemma_flushed_page_reads_back;
use crate::pager::page_start;
use crate::pager::lemma_empty_slots_bound;
use crate::pager::zero_page;
use crate::pager::PagerState;
use crate::pager::PAGE_SIZE;
use vstd::prelude::*;

verus! {

/// A row and the row after it share a page, the second right behind the
/// first, unless the first is the last of its page; then the second opens
/// the next page. No row reaches past the end of its page.
pub proof fn lemma_page_packing(row: int)
    requires
        0 <= row,
    ensures
        row % (ROWS_PER_PAGE as int) != ROWS_PER_PAGE - 1 ==> page_of(row + 1) == page_of(row)
            && offset_of(row + 1) == offset_of(row) + ROW_SIZE,
        row % (ROWS_PER_PAGE as int) == ROWS_PER_PAGE - 1 ==> page_of(row + 1) == page_of(row) + 1
            && offset_of(row + 1) == 0,
        0 <= offset_of(row),
        offset_of(row) + ROW_SIZE <= PAGE_SIZE,
{
    lemma_layout();
}

/// The last row of the first page and the first row of the second page
/// live in neighbouring pages.
pub proof fn lemma_page_boundary()
    ensures
        page_of(ROWS_PER_PAGE - 1) == 0,
        page_of(ROWS_PER_PAGE as int) == 1,
{
    lemma_layout();
}

/// After any inserts into an empty table, the row count is the number of
/// inserts, capped at `TABLE_MAX_ROWS`.
pub proof fn lemma_row_count(rows: Seq<Seq<u8>>)
    ensures
        TableState::open(0).insert_all(rows).num_row == (if rows.len() <= TABLE_MAX_ROWS {
            rows.len() as int
        } else {
            TABLE_MAX_ROWS as int
        }),
    decreases rows.len(),
{
    lemma_layout();
    if rows.len() > 0 {
        lemma_row_count(rows.drop_last());
    }
}

/// Of the inserts into an empty table, numbered from zero, insert `k` finds
/// the table full exactly if `k` is `TABLE_MAX_ROWS` or more: the first
/// `TABLE_MAX_ROWS` rows go in, and every later one is refused.
pub proof fn lemma_capacity(rows: Seq<Seq<u8>>, k: int)
    requires
        0 <= k <= rows.len(),
    ensures
        TableState::open(0).insert_all(rows.take(k)).is_full() <==> k >= TABLE_MAX_ROWS,
{
    lemma_row_count(rows.take(k));
}

/// An insert changes nothing but the place of the new row. A byte outside
/// that place keeps its value if its page was in memory; it is zero if the
/// insert brought the page in; and a page that was not in memory and does
/// not take the row is still not in memory.
pub proof fn lemma_insert_leaves_the_rest(
    table: TableState,
    bytes: Seq<u8>,
    page_index: int,
    index: int,
)
    requires
        table.wf(),
        !table.is_full(),
        bytes.len() == ROW_SIZE,
        0 <= page_index < TABLE_MAX_PAGES,
        0 <= index < PAGE_SIZE,
        !(page_index == page_of(table.num_row) && offset_of(table.num_row) <= index < offset_of(
            table.num_row,
        ) + ROW_SIZE),
    ensures
        ({
            let after = table.insert(bytes);
            if table.pager.is_resident(page_index) {
                after.pager.is_resident(page_index) && after.pager.slots[page_index]->0[index]
                    == table.pager.slots[page_index]->0[index]
            } else if page_index == page_of(table.num_row) {
                after.pager.is_resident(page_index) && after.pager.slots[page_index]->0[index] == 0
            } else {
                !after.pager.is_resident(page_index)
            }
        }),
{
    lemma_layout();
}

/// Pages that `n` rows take up.
pub open spec fn pages_used(n: int) -> int {
    (n + ROWS_PER_PAGE - 1) / (ROWS_PER_PAGE as int)
}

/// The byte at `index` of page `page_index` when `rows` are packed page by
/// page: a byte of the row that covers the place, or zero where none does.
pub open spec fn packed_byte(rows: Seq<Seq<u8>>, page_index: int, index: int) -> u8 {
    let slot = index / (ROW_SIZE as int);
    let row = page_index * ROWS_PER_PAGE + slot;
    if slot < ROWS_PER_PAGE && row < rows.len() {
        rows[row][index % (ROW_SIZE as int)]
    } else {
        0u8
    }
}

/// Page `page_index` of the packed `rows`.
pub open spec fn packed_page(rows: Seq<Seq<u8>>, page_index: int) -> Seq<u8> {
    Seq::new(PAGE_SIZE as nat, |index: int| packed_byte(rows, page_index, index))
}

/// The table that holds exactly `rows`, packed from the first page on, with
/// no other page in memory.
pub open spec fn packed(rows: Seq<Seq<u8>>) -> TableState {
    TableState {
        pager: PagerState {
            slots: Seq::new(
                TABLE_MAX_PAGES as nat,
                |p: int|
                    if p < pages_used(rows.len() as int) {
                        Some(packed_page(rows, p))
                    } else {
                        None
                    },
            ),
            num_pages: pages_used(rows.len() as int),
        },
        num_row: rows.len() as int,
    }
}

/// Every row is `ROW_SIZE` bytes long.
pub open spec fn all_row_sized(rows: Seq<Seq<u8>>) -> bool {
    forall|i: int| 0 <= i < rows.len() ==> (#[trigger] rows[i]).len() == ROW_SIZE
}

/// One more insert into the packed table of `rows.drop_last()` gives the
/// packed table of `rows`.
proof fn lemma_insert_keeps_packed(rows: Seq<Seq<u8>>)
    requires
        0 < rows.len() <= TABLE_MAX_ROWS,
        all_row_sized(rows),
    ensures
        packed(rows.drop_last()).insert(rows.last()) == packed(rows),
{
    lemma_layout();
    let earlier = rows.drop_last();
    let n = earlier.len() as int;
    let page_index = page_of(n);
    let offset = offset_of(n);
    let before = packed(earlier);
    let touched = before.pager.touch(page_index);
    let page = overwrite(touched.slots[page_index]->0, offset, rows.last());
    let after = before.insert(rows.last());
    assert(after.pager.slots[page_index] == Some(page));
    assert(0 <= offset && offset + ROW_SIZE <= PAGE_SIZE);
    assert(page.len() == PAGE_SIZE);
    assert forall|index: int| 0 <= index < PAGE_SIZE implies page[index] == packed_byte(
        rows,
        page_index,
        index,
    ) by {
        let slot = index / (ROW_SIZE as int);
        let row = page_index * ROWS_PER_PAGE + slot;
        if offset <= index < offset + ROW_SIZE {
            assert(slot == n % (ROWS_PER_PAGE as int));
            assert(row == n);
            assert(index % (ROW_SIZE as int) == index - offset);
            assert(page[index] == rows.last()[index - offset]);
        } else {
            assert(row != n);
            assert(page[index] == touched.slots[page_index]->0[index]);
            if before.pager.is_resident(page_index) {
                assert(touched.slots[page_index]->0[index] == packed_byte(
                    earlier,
                    page_index,
                    index,
                ));
            } else {
                assert(touched.slots[page_index]->0 == zero_page());
                assert(n % (ROWS_PER_PAGE as int) == 0);
            }
            if slot < ROWS_PER_PAGE && row < n {
                assert(earlier[row] == rows[row]);
            }
        }
    }
    assert(page =~= packed_page(rows, page_index));
    assert forall|p: int| 0 <= p < TABLE_MAX_PAGES implies after.pager.slots[p] == packed(
        rows,
    ).pager.slots[p] by {
        if p != page_index {
            assert(after.pager.slots[p] == before.pager.slots[p]);
            if p < pages_used(n) {
                assert forall|index: int| 0 <= index < PAGE_SIZE implies packed_byte(
                    earlier,
                    p,
                    index,
                ) == packed_byte(rows, p, index) by {
                    let slot = index / (ROW_SIZE as int);
                    let row = p * ROWS_PER_PAGE + slot;
                    if slot < ROWS_PER_PAGE && row < n {
                        assert(earlier[row] == rows[row]);
                    }
                }
                assert(packed_page(earlier, p) =~= packed_page(rows, p));
            }
        }
    }
    assert(after.pager.slots =~= packed(rows).pager.slots);
    assert(after.pager.num_pages == packed(rows).pager.num_pages);
}

/// An empty table that took the inserts of `rows` holds exactly those rows:
/// packed into the first pages in the order of the inserts, every other
/// byte of those pages zero, and no other page in memory.
pub proof fn lemma_inserts_pack(rows: Seq<Seq<u8>>)
    requires
        rows.len() <= TABLE_MAX_ROWS,
        all_row_sized(rows),
    ensures
        TableState::open(0).insert_all(rows) == packed(rows),
        packed(rows).wf(),
        packed(rows).pager.num_pages <= TABLE_MAX_PAGES,
    decreases rows.len(),
{
    lemma_layout();
    lemma_empty_slots_bound(packed(rows).pager.slots);
    if rows.len() == 0 {
        assert(TableState::open(0).pager.slots =~= packed(rows).pager.slots);
    } else {
        lemma_inserts_pack(rows.drop_last());
        lemma_insert_keeps_packed(rows);
    }
}

/// Zero-fill: in an empty table that took the inserts of `rows`, a byte of
/// a page in memory that no inserted row covers is zero.
pub proof fn lemma_unwritten_bytes_are_zero(rows: Seq<Seq<u8>>, page_index: int, index: int)
    requires
        rows.len() <= TABLE_MAX_ROWS,
        all_row_sized(rows),
        TableState::open(0).insert_all(rows).pager.is_resident(page_index),
        0 <= index < PAGE_SIZE,
        forall|row: int|
            0 <= row < rows.len() && page_of(row) == page_index ==> !(offset_of(row) <= index
                < offset_of(row) + ROW_SIZE),
    ensures
        TableState::open(0).insert_all(rows).pager.slots[page_index]->0[index] == 0,
{
    lemma_layout();
    lemma_inserts_pack(rows);
    let slot = index / (ROW_SIZE as int);
    let row = page_index * ROWS_PER_PAGE + slot;
    if slot < ROWS_PER_PAGE && row < rows.len() {
        assert(page_of(row) == page_index);
        assert(offset_of(row) <= index < offset_of(row) + ROW_SIZE);
    }
}

/// In an empty table that took the inserts of `rows`, row `k` holds the
/// bytes of insert `k`.
pub proof fn lemma_row_is_stored(rows: Seq<Seq<u8>>, k: int)
    requires
        rows.len() <= TABLE_MAX_ROWS,
        all_row_sized(rows),
        0 <= k < rows.len(),
    ensures
        TableState::open(0).insert_all(rows).row_bytes(k) == Some(rows[k]),
        page_of(k) < TableState::open(0).insert_all(rows).pager.num_pages,
{
    lemma_layout();
    lemma_inserts_pack(rows);
    let page = packed_page(rows, page_of(k));
    let stored = page.subrange(offset_of(k), offset_of(k) + ROW_SIZE);
    assert forall|j: int| 0 <= j < ROW_SIZE implies stored[j] == rows[k][j] by {
        let index = offset_of(k) + j;
        assert(index / (ROW_SIZE as int) == k % (ROWS_PER_PAGE as int));
        assert(index % (ROW_SIZE as int) == j);
    }
    assert(stored =~= rows[k]);
}

/// The encodings of `rows`, in order.
pub open spec fn encodings(rows: Seq<RowView>) -> Seq<Seq<u8>> {
    Seq::new(rows.len(), |i: int| rows[i].encode())
}

/// Persistence: insert `rows` into an empty table, carry out the writes of
/// its close on an empty file, and open a table over that file. Once the
/// page of row `k` is read from the file and loaded, a read of row `k`
/// gives the row of insert `k`. This holds for rows whose texts fit their
/// fields and hold no zero byte.
pub proof fn lemma_rows_survive_reopen(rows: Seq<RowView>, k: int)
    requires
        rows.len() <= TABLE_MAX_ROWS,
        forall|i: int| 0 <= i < rows.len() ==> (#[trigger] rows[i]).round_trips(),
        0 <= k < rows.len(),
    ensures
        ({
            let table = TableState::open(0).insert_all(encodings(rows));
            let file = file_after_all(Seq::empty(), table.pager.close());
            let reopened = TableState::open(file.len() as int);
            let data = file_read(file, page_start(page_of(k)), PAGE_SIZE as int);
            let loaded = TableState { pager: reopened.pager.load(page_of(k), data), ..reopened };
            loaded.read(k) == Ok::<RowView, ReadError>(rows[k])
        }),
{
    lemma_layout();
    let encoded = encodings(rows);
    assert forall|i: int| 0 <= i < encoded.len() implies (#[trigger] encoded[i]).len()
        == ROW_SIZE by {
        rows[i].lemma_encode_len();
    }
    lemma_inserts_pack(encoded);
    lemma_row_is_stored(encoded, k);
    let table = TableState::open(0).insert_all(encoded);
    lemma_flushed_page_reads_back(table.pager, Seq::empty(), page_of(k));
    rows[k].lemma_round_trip();
}

} // verus!
