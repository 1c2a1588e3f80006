//! Rows, their fixed binary layout, and the table that packs them into pages.

use crate::pager::write_views;
use crate::pager::Page;
use crate::pager::PageWrite;
use crate::pager::Pager;
use crate::pager::PagerState;
use crate::pager::PAGE_SIZE;
use crate::text::decimal;
use crate::text::decimal_text;
use crate::text::find;
use crate::text::from_utf8;
use crate::text::lemma_find_stops;
use crate::text::scan;
use crate::text::Stop;
use byteorder::BigEndian;
use byteorder::ByteOrder;
use vstd::prelude::*;
use vstd::slice::slice_subrange;
use vstd::slice::slice_to_vec;
use vstd::string::StringExecFns;
use vstd::utf8::*;

verus! {

/// Bytes of the big-endian row id.
pub const ID_SIZE: usize = 4;

/// Bytes reserved for the username.
pub const USERNAME_SIZE: usize = 32;

/// Bytes reserved for the email address.
pub const EMAIL_SIZE: usize = 256;

/// Where the username field starts inside an encoded row.
pub const USERNAME_OFFSET: usize = ID_SIZE;

/// Where the email field starts inside an encoded row.
pub const EMAIL_OFFSET: usize = ID_SIZE + USERNAME_SIZE;

/// Bytes of one encoded row.
pub const ROW_SIZE: usize = ID_SIZE + USERNAME_SIZE + EMAIL_SIZE;

/// Page slots that the pager has: the table never grows past them.
pub const TABLE_MAX_PAGES: usize = 100;

/// Rows that one page holds.
pub const ROWS_PER_PAGE: usize = PAGE_SIZE / ROW_SIZE;

/// Rows that the table holds at most.
pub const TABLE_MAX_ROWS: usize = ROWS_PER_PAGE * TABLE_MAX_PAGES;

/// The four bytes of `n`, most significant first.
pub open spec fn be_bytes(n: u32) -> Seq<u8> {
    seq![
        (n / 0x100_0000) as u8,
        ((n / 0x1_0000) % 0x100) as u8,
        ((n / 0x100) % 0x100) as u8,
        (n % 0x100) as u8,
    ]
}

/// The number whose big-endian bytes are the first four of `s`.
pub open spec fn be_value(s: Seq<u8>) -> u32 {
    (s[0] * 0x100_0000 + s[1] * 0x1_0000 + s[2] * 0x100 + s[3]) as u32
}

/// `n` zero bytes.
pub open spec fn zeros(n: nat) -> Seq<u8> {
    Seq::new(n, |i: int| 0u8)
}

/// What a text field of `width` bytes holds for a `text` that fits it: the
/// text, then zeros up to the width.
pub open spec fn field_bytes(text: Seq<u8>, width: nat) -> Seq<u8>
    recommends
        text.len() <= width,
{
    text + zeros((width - text.len()) as nat)
}

/// `buf` with `data` laid over it from `pos` on.
pub open spec fn overwrite(buf: Seq<u8>, pos: int, data: Seq<u8>) -> Seq<u8> {
    buf.take(pos) + data + buf.skip(pos + data.len())
}

/// The text stored in a field: everything before its first zero byte.
pub open spec fn field_text(field: Seq<u8>) -> Seq<u8> {
    field.take(find(field, 0, Stop::Zero))
}

/// No byte of `text` is zero.
pub open spec fn has_no_zero(text: Seq<u8>) -> bool {
    forall|i: int| 0 <= i < text.len() ==> #[trigger] text[i] != 0
}

/// Whether `text` holds a zero byte. Such a text cannot be stored: the zero
/// would end it.
pub fn has_zero(text: &[u8]) -> (r: bool)
    ensures
        r == !has_no_zero(text@),
{
    let end = scan(text, 0, Stop::Zero);
    end < text.len()
}

/// Decoding the big-endian bytes of a number gives the number back.
pub proof fn lemma_be_round_trip(n: u32)
    ensures
        be_bytes(n).len() == 4,
        be_value(be_bytes(n)) == n,
{
}

/// A field gives back the text it was filled with, if the text fits and has
/// no zero byte in it.
pub proof fn lemma_field_round_trip(text: Seq<u8>, width: nat)
    requires
        text.len() <= width,
        has_no_zero(text),
    ensures
        field_bytes(text, width).len() == width,
        field_text(field_bytes(text, width)) == text,
{
    let field = field_bytes(text, width);
    lemma_find_stops(field, 0, text.len() as int, Stop::Zero);
    assert(field.take(text.len() as int) == text);
}

/// A failed read of a stored text field: its bytes are not well-formed UTF-8.
#[derive(Debug, Clone, Copy, PartialEq, Eq)]
pub struct DecodeError {}

/// One record of the table.
#[derive(Debug, Clone, PartialEq, Eq)]
pub struct Row {
    pub id: u32,
    pub username: String,
    pub email: String,
}

/// A row as a mathematical value.
pub struct RowView {
    pub id: u32,
    pub username: Seq<char>,
    pub email: Seq<char>,
}

impl View for Row {
    type V = RowView;

    open spec fn view(&self) -> RowView {
        RowView { id: self.id, username: self.username@, email: self.email@ }
    }
}

impl RowView {
    /// Both texts fit their fields.
    pub open spec fn fits(self) -> bool {
        &&& encode_utf8(self.username).len() <= USERNAME_SIZE
        &&& encode_utf8(self.email).len() <= EMAIL_SIZE
    }

    /// Both texts fit their fields and hold no zero byte, so that the end
    /// of each can be found again.
    pub open spec fn round_trips(self) -> bool {
        &&& self.fits()
        &&& has_no_zero(encode_utf8(self.username))
        &&& has_no_zero(encode_utf8(self.email))
    }

    /// The encoded row: id, username field, email field.
    pub open spec fn encode(self) -> Seq<u8> {
        be_bytes(self.id) + field_bytes(encode_utf8(self.username), USERNAME_SIZE as nat)
            + field_bytes(encode_utf8(self.email), EMAIL_SIZE as nat)
    }

    /// The row that `bytes` encode, or `None` if a text field is not
    /// well-formed UTF-8.
    pub open spec fn decode(bytes: Seq<u8>) -> Option<RowView> {
        let username = field_text(
            bytes.subrange(USERNAME_OFFSET as int, USERNAME_OFFSET + USERNAME_SIZE),
        );
        let email = field_text(bytes.subrange(EMAIL_OFFSET as int, EMAIL_OFFSET + EMAIL_SIZE));
        if valid_utf8(username) && valid_utf8(email) {
            Some(
                RowView {
                    id: be_value(bytes.subrange(0, ID_SIZE as int)),
                    username: decode_utf8(username),
                    email: decode_utf8(email),
                },
            )
        } else {
            None
        }
    }

    /// The line that shows the row: id, username and email in brackets.
    pub open spec fn shown(self) -> Seq<char> {
        "("@ + decimal_text(self.id as nat) + ", "@ + self.username + ", "@ + self.email + ")"@
    }

    /// An encoded row is `ROW_SIZE` bytes long.
    pub proof fn lemma_encode_len(self)
        requires
            self.fits(),
        ensures
            self.encode().len() == ROW_SIZE,
    {
    }

    /// Decoding an encoded row gives the row back, for every row whose texts
    /// fit their fields and hold no zero byte.
    pub proof fn lemma_round_trip(self)
        requires
            self.round_trips(),
        ensures
            RowView::decode(self.encode()) == Some(self),
    {
        let username = encode_utf8(self.username);
        let email = encode_utf8(self.email);
        let bytes = self.encode();
        lemma_be_round_trip(self.id);
        lemma_field_round_trip(username, USERNAME_SIZE as nat);
        lemma_field_round_trip(email, EMAIL_SIZE as nat);
        assert(bytes.subrange(0, ID_SIZE as int) == be_bytes(self.id));
        assert(bytes.subrange(USERNAME_OFFSET as int, USERNAME_OFFSET + USERNAME_SIZE)
            == field_bytes(username, USERNAME_SIZE as nat));
        assert(bytes.subrange(EMAIL_OFFSET as int, EMAIL_OFFSET + EMAIL_SIZE) == field_bytes(
            email,
            EMAIL_SIZE as nat,
        ));
        encode_utf8_valid_utf8(self.username);
        encode_utf8_valid_utf8(self.email);
        encode_utf8_decode_utf8(self.username);
        encode_utf8_decode_utf8(self.email);
    }
}

/// Calls `BigEndian::write_u32` of byteorder. The contract is trusted: the
/// first four bytes of the buffer become the big-endian bytes of `n`, and
/// the rest of the buffer stays as it was.
#[verifier::external_body]
fn write_u32_be(buf: &mut Vec<u8>, n: u32)
    requires
        old(buf).len() >= 4,
    ensures
        final(buf)@ == overwrite(old(buf)@, 0, be_bytes(n)),
{
    BigEndian::write_u32(buf.as_mut_slice(), n)
}

/// Calls `BigEndian::read_u32` of byteorder. The contract is trusted: the
/// result is the number whose big-endian bytes are the first four of `buf`.
#[verifier::external_body]
fn read_u32_be(buf: &Vec<u8>) -> (n: u32)
    requires
        buf.len() >= 4,
    ensures
        n == be_value(buf@.subrange(0, 4)),
{
    BigEndian::read_u32(buf.as_slice())
}

impl Row {
    /// The line that shows the row, for the caller to print.
    pub fn print_row(&self) -> (line: String)
        ensures
            line@ == self@.shown(),
    {
        let mut line = String::from_str("(");
        line.append(decimal(self.id).as_str());
        line.append(", ");
        line.append(self.username.as_str());
        line.append(", ");
        line.append(self.email.as_str());
        line.append(")");
        line
    }

    /// Encodes the row into `ROW_SIZE` bytes. The texts must fit their
    /// fields and hold no zero byte: the caller checks that before.
    pub fn serialize(&self) -> (buf: Vec<u8>)
        requires
            self@.round_trips(),
        ensures
            buf@ == self@.encode(),
    {
        let mut buf: Vec<u8> = vec![0u8; ROW_SIZE];
        write_u32_be(&mut buf, self.id);
        Row::write_string(&mut buf, USERNAME_OFFSET, USERNAME_SIZE, &self.username);
        Row::write_string(&mut buf, EMAIL_OFFSET, EMAIL_SIZE, &self.email);
        assert(buf@ =~= self@.encode());
        buf
    }

    /// Decodes a row from `ROW_SIZE` bytes.
    pub fn deserialize(buf: Vec<u8>) -> (r: Result<Row, DecodeError>)
        requires
            buf.len() == ROW_SIZE,
        ensures
            match RowView::decode(buf@) {
                Some(row) => r matches Ok(out) && out@ == row,
                None => r is Err,
            },
    {
        let id = read_u32_be(&buf);
        let username = match Row::read_string(&buf, USERNAME_OFFSET, USERNAME_SIZE) {
            Ok(s) => s,
            Err(e) => { return Err(e); },
        };
        let email = match Row::read_string(&buf, EMAIL_OFFSET, EMAIL_SIZE) {
            Ok(s) => s,
            Err(e) => { return Err(e); },
        };
        Ok(Row { id, username, email })
    }

    /// Fills the field of `max_len` bytes at `pos` with the bytes of `s`
    /// and pads it with zeros. The text must fit the field.
    pub fn write_string(buf: &mut Vec<u8>, pos: usize, max_len: usize, s: &String)
        requires
            pos + max_len <= old(buf).len(),
            encode_utf8(s@).len() <= max_len,
        ensures
            final(buf)@ == overwrite(old(buf)@, pos as int, field_bytes(encode_utf8(s@), max_len as nat)),
    {
        let bytes = s.as_str().as_bytes();
        let ghost before = buf@;
        let mut i: usize = 0;
        while i < bytes.len()
            invariant
                bytes@ == encode_utf8(s@),
                buf.len() == before.len(),
                bytes.len() <= max_len,
                pos + max_len <= buf.len(),
                i <= bytes.len(),
                buf@ == overwrite(before, pos as int, bytes@.take(i as int)),
            decreases bytes.len() - i,
        {
            buf[pos + i] = bytes[i];
            i += 1;
            assert(buf@ =~= overwrite(before, pos as int, bytes@.take(i as int)));
        }
        assert(bytes@.take(i as int) == bytes@);
        while i < max_len
            invariant
                bytes@ == encode_utf8(s@),
                buf.len() == before.len(),
                pos + max_len <= buf.len(),
                bytes.len() <= i <= max_len,
                buf@ == overwrite(before, pos as int, bytes@ + zeros((i - bytes.len()) as nat)),
            decreases max_len - i,
        {
            buf[pos + i] = 0;
            i += 1;
            assert(buf@ =~= overwrite(
                before,
                pos as int,
                bytes@ + zeros((i - bytes.len()) as nat),
            ));
        }
        assert(bytes@ + zeros((i - bytes.len()) as nat) == field_bytes(bytes@, max_len as nat));
    }

    /// Reads the text of the field of `max_len` bytes at `pos`: the bytes
    /// up to the first zero byte or the field's end, decoded as UTF-8.
    pub fn read_string(buf: &Vec<u8>, pos: usize, max_len: usize) -> (r: Result<String, DecodeError>)
        requires
            pos + max_len <= buf.len(),
        ensures
            ({
                let text = field_text(buf@.subrange(pos as int, pos + max_len));
                if valid_utf8(text) {
                    r matches Ok(s) && s@ == decode_utf8(text)
                } else {
                    r is Err
                }
            }),
    {
        let ghost field = buf@.subrange(pos as int, pos + max_len);
        let mut end: usize = pos;
        while end < max_len + pos && buf[end] != 0
            invariant
                pos <= end <= pos + max_len,
                pos + max_len <= buf.len(),
                field == buf@.subrange(pos as int, pos + max_len),
                find(field, 0, Stop::Zero) == find(field, end - pos, Stop::Zero),
            decreases pos + max_len - end,
        {
            end += 1;
        }
        let bytes = slice_to_vec(slice_subrange(buf.as_slice(), pos, end));
        assert(bytes@ == field_text(field));
        match from_utf8(bytes) {
            Ok(s) => Ok(s),
            Err(_) => Err(DecodeError {}),
        }
    }
}

/// The numbers of the layout.
pub proof fn lemma_layout()
    ensures
        ROW_SIZE == 292,
        ROWS_PER_PAGE == 14,
        TABLE_MAX_ROWS == 1400,
        ROWS_PER_PAGE * ROW_SIZE <= PAGE_SIZE,
{
}

/// The page that holds row `row`.
pub open spec fn page_of(row: int) -> int {
    row / (ROWS_PER_PAGE as int)
}

/// Where row `row` starts inside its page.
pub open spec fn offset_of(row: int) -> int {
    (row % (ROWS_PER_PAGE as int)) * ROW_SIZE
}

/// The table holds `TABLE_MAX_ROWS` rows and takes no more.
#[derive(Debug, Clone, Copy, PartialEq, Eq)]
pub struct TableFull {}

/// Why a row could not be read.
#[derive(Debug, Clone, Copy, PartialEq, Eq)]
pub enum ReadError {
    /// The row's page is not in memory. The caller reads it from the file
    /// and hands it to [`Pager::load`], then asks again.
    NotResident { page_index: usize },
    /// A text field of the stored row is not well-formed UTF-8.
    Decode,
}

/// The table as a mathematical value.
#[verifier::ext_equal]
pub struct TableState {
    pub pager: PagerState,
    pub num_row: int,
}

impl TableState {
    /// The pager is in order, and the row count is within the maximum.
    pub open spec fn wf(self) -> bool {
        &&& self.pager.wf()
        &&& 0 <= self.num_row <= TABLE_MAX_ROWS
    }

    /// The table over a backing file of `file_len` bytes. The row count is
    /// a guess from the page count: none for an empty file, one for a
    /// single page, a thousand for more.
    pub open spec fn open(file_len: int) -> TableState {
        let pager = PagerState::open(file_len);
        TableState {
            pager,
            num_row: if pager.num_pages == 0 {
                0
            } else if pager.num_pages == 1 {
                1
            } else {
                1000
            },
        }
    }

    /// Whether the table has no room for another row.
    pub open spec fn is_full(self) -> bool {
        self.num_row >= TABLE_MAX_ROWS
    }

    /// The table after an insert of the encoded row `bytes`. A full table
    /// stays as it is. Otherwise the row's page is taken for writing, the
    /// bytes go to the row's place in it, and the row count grows by one.
    pub open spec fn insert(self, bytes: Seq<u8>) -> TableState {
        if self.is_full() {
            self
        } else {
            let page_index = page_of(self.num_row);
            let pager = self.pager.touch(page_index);
            let page = overwrite(pager.slots[page_index]->0, offset_of(self.num_row), bytes);
            TableState { pager: pager.with_page(page_index, page), num_row: self.num_row + 1 }
        }
    }

    /// The table after the inserts of `rows`, first row first.
    pub open spec fn insert_all(self, rows: Seq<Seq<u8>>) -> TableState
        decreases rows.len(),
    {
        if rows.len() == 0 {
            self
        } else {
            self.insert_all(rows.drop_last()).insert(rows.last())
        }
    }

    /// The stored bytes of row `row`, if its page is in memory.
    pub open spec fn row_bytes(self, row: int) -> Option<Seq<u8>> {
        if self.pager.is_resident(page_of(row)) {
            Some(
                self.pager.slots[page_of(row)]->0.subrange(
                    offset_of(row),
                    offset_of(row) + ROW_SIZE,
                ),
            )
        } else {
            None
        }
    }

    /// What a read of row `row` gives.
    pub open spec fn read(self, row: int) -> Result<RowView, ReadError> {
        match self.row_bytes(row) {
            None => Err(ReadError::NotResident { page_index: page_of(row) as usize }),
            Some(bytes) => match RowView::decode(bytes) {
                Some(decoded) => Ok(decoded),
                None => Err(ReadError::Decode),
            },
        }
    }
}

/// The table: a pager and the number of rows.
#[derive(Debug)]
pub struct Table {
    pub pager: Pager,
    pub num_row: usize,
}

impl View for Table {
    type V = TableState;

    open spec fn view(&self) -> TableState {
        TableState { pager: self.pager@, num_row: self.num_row as int }
    }
}

/// Copies `bytes` into `page` from `offset` on.
fn copy_into(page: &mut Page, offset: usize, bytes: &Vec<u8>)
    requires
        offset + bytes.len() <= old(page).len(),
    ensures
        final(page)@ == overwrite(old(page)@, offset as int, bytes@),
{
    let ghost before = page@;
    let mut i: usize = 0;
    while i < bytes.len()
        invariant
            page.len() == before.len(),
            offset + bytes.len() <= page.len(),
            i <= bytes.len(),
            page@ == overwrite(before, offset as int, bytes@.take(i as int)),
        decreases bytes.len() - i,
    {
        page[offset + i] = bytes[i];
        i += 1;
        assert(page@ =~= overwrite(before, offset as int, bytes@.take(i as int)));
    }
    assert(bytes@.take(i as int) == bytes@);
}

impl Table {
    /// The table is in order; see [`TableState::wf`].
    pub open spec fn wf(&self) -> bool {
        self@.wf()
    }

    /// The table over a backing file of `file_len` bytes; see
    /// [`TableState::open`] for the row count. The pages of the file and
    /// the pager's slots together must be countable in a `usize`.
    pub fn new(file_len: u64) -> (table: Table)
        requires
            file_len / (PAGE_SIZE as u64) + TABLE_MAX_PAGES <= usize::MAX,
        ensures
            table.wf(),
            table@ == TableState::open(file_len as int),
    {
        proof {
            lemma_layout();
        }
        let pager = Pager::new(file_len);
        let num_row: usize = if pager.num_pages == 0 {
            0
        } else if pager.num_pages == 1 {
            1
        } else {
            1000
        };
        Table { pager, num_row }
    }

    /// The writes that make every row durable; see [`Pager::close`]. The
    /// page count must not pass the number of slots.
    pub fn close(&self) -> (writes: Vec<PageWrite>)
        requires
            self.wf(),
            self.pager.num_pages <= TABLE_MAX_PAGES,
        ensures
            write_views(writes@) == self@.pager.close(),
    {
        self.pager.close()
    }

    /// Appends `row`, unless the table is full. The row's texts must fit
    /// their fields and hold no zero byte. Nothing is written to the file
    /// before a close.
    pub fn insert_row(&mut self, row: Row) -> (r: Result<(), TableFull>)
        requires
            old(self).wf(),
            row@.round_trips(),
        ensures
            final(self).wf(),
            r is Err <==> old(self)@.is_full(),
            final(self)@ == old(self)@.insert(row@.encode()),
    {
        proof {
            lemma_layout();
        }
        if self.num_row >= TABLE_MAX_ROWS {
            return Err(TableFull {});
        }
        let bytes = row.serialize();
        let page_index = self.num_row / ROWS_PER_PAGE;
        let row_index = (self.num_row % ROWS_PER_PAGE) * ROW_SIZE;
        copy_into(self.pager.page_to_write(page_index), row_index, &bytes);
        self.num_row += 1;
        assert(self@ =~= old(self)@.insert(row@.encode()));
        Ok(())
    }

    /// Reads row `num_row` from its page, which has to be one of the
    /// pager's pages. A page that is not in memory is named in the error.
    pub fn read_row(&self, num_row: usize) -> (r: Result<Row, ReadError>)
        requires
            self.wf(),
            num_row < TABLE_MAX_ROWS,
        ensures
            match self@.read(num_row as int) {
                Ok(row) => r matches Ok(out) && out@ == row,
                Err(e) => r == Err::<Row, ReadError>(e),
            },
    {
        proof {
            lemma_layout();
        }
        let page_index = num_row / ROWS_PER_PAGE;
        let page = match self.pager.page_to_read(page_index) {
            Some(page) => page,
            None => { return Err(ReadError::NotResident { page_index }); },
        };
        let row_index = (num_row % ROWS_PER_PAGE) * ROW_SIZE;
        let bytes = slice_to_vec(slice_subrange(page.as_slice(), row_index, row_index + ROW_SIZE));
        match Row::deserialize(bytes) {
            Ok(row) => Ok(row),
            Err(_) => Err(ReadError::Decode),
        }
    }

    /// The lines that show the table: one for every row from the first to
    /// the last, in order. The first row that cannot be read ends the walk
    /// with its error.
    pub fn print_table(&self) -> (r: Result<Vec<String>, ReadError>)
        requires
            self.wf(),
        ensures
            match r {
                Ok(lines) => {
                    &&& lines.len() == self.num_row
                    &&& forall|k: int|
                        0 <= k < lines.len() ==> ((#[trigger] self@.read(k)) matches Ok(row)
                            && lines[k]@ == row.shown())
                },
                Err(e) => exists|k: int|
                    {
                        &&& 0 <= k < self.num_row
                        &&& #[trigger] self@.read(k) == Err::<RowView, ReadError>(e)
                        &&& forall|j: int| 0 <= j < k ==> (#[trigger] self@.read(j)) is Ok
                    },
            },
    {
        let mut lines: Vec<String> = Vec::new();
        let mut i: usize = 0;
        while i < self.num_row
            invariant
                self.wf(),
                i <= self.num_row,
                lines.len() == i,
                forall|k: int|
                    0 <= k < i ==> ((#[trigger] self@.read(k)) matches Ok(row) && lines[k]@
                        == row.shown()),
            decreases self.num_row - i,
        {
            match self.read_row(i) {
                Ok(row) => {
                    lines.push(row.print_row());
                },
                Err(e) => {
                    assert(self@.read(i as int) == Err::<RowView, ReadError>(e));
                    return Err(e);
                },
            }
            i += 1;
        }
        Ok(lines)
    }
}

} // verus!
