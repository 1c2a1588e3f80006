//! Statements: from a line of text to a change of the table.

use crate::db::has_no_zero;
use crate::db::has_zero;
use crate::db::Row;
use crate::db::RowView;
use crate::db::Table;
use crate::db::TableState;
use crate::db::EMAIL_SIZE;
use crate::db::USERNAME_SIZE;
use crate::text::bytes_eq;
use crate::text::decimal_u32;
use crate::text::find;
use crate::text::lemma_find_ends;
use crate::text::lemma_valid_between;
use crate::text::from_utf8;
use crate::text::parse_u32;
use crate::text::scan;
use crate::text::starts_with;
use crate::text::trim;
use crate::text::trimmed;
use crate::text::Stop;
use vstd::prelude::*;
use vstd::slice::slice_subrange;
use vstd::slice::slice_to_vec;
use vstd::string::StringSliceAdditionalSpecFns;
use vstd::utf8::*;

verus! {

/// What a statement does.
#[derive(Debug, Clone, Copy, PartialEq, Eq)]
pub enum StatementType {
    Insert,
    Select,
}

/// A statement, ready to run: its kind, and for an insert the row.
#[derive(Debug, Clone, PartialEq, Eq)]
pub struct Statement {
    pub statement_type: StatementType,
    pub row: Option<Row>,
}

/// A statement as a mathematical value.
pub struct StatementView {
    pub statement_type: StatementType,
    pub row: Option<RowView>,
}

impl View for Statement {
    type V = StatementView;

    open spec fn view(&self) -> StatementView {
        StatementView {
            statement_type: self.statement_type,
            row: match self.row {
                Some(row) => Some(row@),
                None => None,
            },
        }
    }
}

impl StatementView {
    /// An insert has a row, and the row's texts fit their fields and hold
    /// no zero byte.
    pub open spec fn wf(self) -> bool {
        self.statement_type is Insert ==> self.row is Some && self.row->0.round_trips()
    }
}

/// Why a line is no statement.
#[derive(Debug, Clone, Copy, PartialEq, Eq)]
pub enum PrepareError {
    /// A text is longer than its field.
    StringTooLong,
    /// A text holds a zero byte, which would end it where it is stored.
    ZeroByte,
    /// The line starts as an insert and does not go on as one.
    Syntax,
    /// The line starts with no known keyword.
    UnrecognizedStatement,
}

impl PrepareError {
    /// The message for the user.
    pub fn description(&self) -> (s: &'static str)
        ensures
            s@ == match *self {
                PrepareError::StringTooLong => "Error: String is too long"@,
                PrepareError::ZeroByte => "Error: String contains a zero byte"@,
                PrepareError::Syntax => "Error: Could not parse statement"@,
                PrepareError::UnrecognizedStatement => "Error: Unrecognized keyword at start of statement"@,
            },
    {
        match *self {
            PrepareError::StringTooLong => "Error: String is too long",
            PrepareError::ZeroByte => "Error: String contains a zero byte",
            PrepareError::Syntax => "Error: Could not parse statement",
            PrepareError::UnrecognizedStatement => "Error: Unrecognized keyword at start of statement",
        }
    }
}

/// Why a command or a statement was not carried out.
#[derive(Debug, Clone, Copy, PartialEq, Eq)]
pub enum ExecuteError {
    TableFull,
    UnrecognizedMetaCommand,
}

impl ExecuteError {
    /// The message for the user.
    pub fn description(&self) -> (s: &'static str)
        ensures
            s@ == match *self {
                ExecuteError::TableFull => "Error: The table is full"@,
                ExecuteError::UnrecognizedMetaCommand => "Error: Unrecognized meta command"@,
            },
    {
        match *self {
            ExecuteError::TableFull => "Error: The table is full",
            ExecuteError::UnrecognizedMetaCommand => "Error: Unrecognized meta command",
        }
    }
}

/// Why the fields of an insert could not be read.
#[derive(Debug, Clone, Copy, PartialEq, Eq)]
pub enum ScanError {
    /// The line leaves the pattern: the pattern's byte, and the byte found
    /// in its place, if the line had one.
    UnexpectedValue(u8, Option<u8>),
    /// The id is no decimal `u32`.
    Parse,
}

/// The bytes that a line has to start with to be taken for an insert.
pub open spec fn insert_keyword() -> Seq<u8> {
    encode_utf8("insert"@)
}

/// The bytes that a line has to start with to be taken for a select.
pub open spec fn select_keyword() -> Seq<u8> {
    encode_utf8("select"@)
}

/// What the fields of an insert come behind: the keyword and one space.
pub open spec fn insert_head() -> Seq<u8> {
    encode_utf8("insert "@)
}

/// The first index at or after `from` where `s` and `pattern` differ or
/// `s` has ended, or the pattern's length if `s` follows the pattern to
/// its end.
pub open spec fn mismatch(s: Seq<u8>, pattern: Seq<u8>, from: int) -> int
    decreases pattern.len() - from,
{
    if from < 0 || from >= pattern.len() || from >= s.len() || s[from] != pattern[from] {
        from
    } else {
        mismatch(s, pattern, from + 1)
    }
}

/// Where the next field starts after one that ended at `end`: behind the
/// byte that ended it, if there was one.
pub open spec fn after(s: Seq<u8>, end: int) -> int {
    if end < s.len() {
        end + 1
    } else {
        end
    }
}

/// The three raw fields of an insert whose head is in order: the id and the
/// username each run up to the next space, the email starts at the next
/// byte that is not blank and runs up to the next blank one. A field also
/// ends where the line does, and what follows the email is not looked at.
pub open spec fn raw_fields(s: Seq<u8>) -> (Seq<u8>, Seq<u8>, Seq<u8>) {
    let id_start = insert_head().len() as int;
    let id_end = find(s, id_start, Stop::Space);
    let username_start = after(s, id_end);
    let username_end = find(s, username_start, Stop::Space);
    let email_start = find(s, after(s, username_end), Stop::NonBlank);
    let email_end = find(s, email_start, Stop::Blank);
    (
        s.subrange(id_start, id_end),
        s.subrange(username_start, username_end),
        s.subrange(email_start, email_end),
    )
}

/// The id and the bytes of the username and of the email that the line `s`
/// gives for an insert, or the first thing that is wrong with it.
pub open spec fn scan_insert(s: Seq<u8>) -> Result<(u32, Seq<u8>, Seq<u8>), ScanError> {
    let head = insert_head();
    let stop = mismatch(s, head, 0);
    if stop < head.len() {
        Err(ScanError::UnexpectedValue(head[stop], if stop < s.len() { Some(s[stop]) } else { None }))
    } else {
        let (id, username, email) = raw_fields(s);
        match decimal_u32(id) {
            Some(id) => Ok((id, username, email)),
            None => Err(ScanError::Parse),
        }
    }
}

/// The statement that the trimmed line `s` stands for. An insert whose
/// fields scan is turned down if a text is longer than its field, and
/// else if a text holds a zero byte.
pub open spec fn prepared(s: Seq<u8>) -> Result<StatementView, PrepareError> {
    if insert_keyword().is_prefix_of(s) {
        match scan_insert(s) {
            Err(_) => Err(PrepareError::Syntax),
            Ok((id, username, email)) => {
                if username.len() > USERNAME_SIZE || email.len() > EMAIL_SIZE {
                    Err(PrepareError::StringTooLong)
                } else if !has_no_zero(username) || !has_no_zero(email) {
                    Err(PrepareError::ZeroByte)
                } else {
                    Ok(
                        StatementView {
                            statement_type: StatementType::Insert,
                            row: Some(
                                RowView {
                                    id,
                                    username: decode_utf8(username),
                                    email: decode_utf8(email),
                                },
                            ),
                        },
                    )
                }
            },
        }
    } else if select_keyword().is_prefix_of(s) {
        Ok(StatementView { statement_type: StatementType::Select, row: None })
    } else {
        Err(PrepareError::UnrecognizedStatement)
    }
}

/// What a meta command asks for: `.exit` the exit code zero, `.help` the
/// help text.
pub open spec fn meta_command(command: Seq<char>) -> Result<Option<i32>, ExecuteError> {
    if command == ".exit"@ {
        Ok(Some(0i32))
    } else if command == ".help"@ {
        Ok(None)
    } else {
        Err(ExecuteError::UnrecognizedMetaCommand)
    }
}

/// Copies the bytes of `s` from `start` up to `end` and decodes them.
fn field(s: &[u8], start: usize, end: usize) -> (text: String)
    requires
        start <= end <= s.len(),
        valid_utf8(s@.subrange(start as int, end as int)),
    ensures
        text@ == decode_utf8(s@.subrange(start as int, end as int)),
{
    from_utf8(slice_to_vec(slice_subrange(s, start, end))).unwrap()
}

/// Where the field after one that ended at `end` starts.
fn next_start(s: &[u8], end: usize) -> (start: usize)
    requires
        end <= s.len(),
    ensures
        start == after(s@, end as int),
        start <= s.len(),
{
    if end < s.len() {
        end + 1
    } else {
        end
    }
}

/// The fields of a line are well-formed UTF-8 if the line is, as they
/// begin behind and end before bytes that stand for themselves.
pub proof fn lemma_fields_are_text(s: Seq<u8>)
    requires
        valid_utf8(s),
        mismatch(s, insert_head(), 0) >= insert_head().len(),
    ensures
        valid_utf8(raw_fields(s).0),
        valid_utf8(raw_fields(s).1),
        valid_utf8(raw_fields(s).2),
{
    let head = insert_head();
    let id_start = head.len() as int;
    lemma_follows(s, head, 0);
    assert(s.subrange(0, id_start) =~= head);
    encode_utf8_valid_utf8("insert "@);
    if !valid_utf8(s.subrange(id_start, s.len() as int)) {
        partial_valid_partial_invalid_utf8(s, id_start);
    }
    let id_end = find(s, id_start, Stop::Space);
    lemma_find_ends(s, id_start, Stop::Space);
    lemma_valid_between(s, id_start, id_start, id_end);
    let username_start = after(s, id_end);
    let username_end = find(s, username_start, Stop::Space);
    lemma_find_ends(s, username_start, Stop::Space);
    lemma_valid_between(s, id_end, username_start, username_end);
    let email_from = after(s, username_end);
    let email_start = find(s, email_from, Stop::NonBlank);
    lemma_find_ends(s, email_from, Stop::NonBlank);
    let email_end = find(s, email_start, Stop::Blank);
    lemma_find_ends(s, email_start, Stop::Blank);
    lemma_valid_between(s, username_end, email_start, email_end);
}

/// Where `s` follows `pattern` to its end, it holds the pattern's bytes.
pub proof fn lemma_follows(s: Seq<u8>, pattern: Seq<u8>, from: int)
    requires
        0 <= from <= pattern.len(),
        from <= s.len(),
        mismatch(s, pattern, from) >= pattern.len(),
    ensures
        pattern.len() <= s.len(),
        forall|j: int| from <= j < pattern.len() ==> s[j] == pattern[j],
    decreases pattern.len() - from,
{
    if from < pattern.len() {
        lemma_follows(s, pattern, from + 1);
    }
}

/// Reads the fields of an insert from a line of the form
/// `insert <id> <username> <email>`.
pub fn parse_insert(statement: &str) -> (r: Result<(u32, String, String), ScanError>)
    ensures
        match scan_insert(statement.spec_bytes()) {
            Ok((id, username, email)) => r matches Ok(out) && out.0 == id && out.1@
                == decode_utf8(username) && out.2@ == decode_utf8(email),
            Err(e) => r == Err::<(u32, String, String), ScanError>(e),
        },
{
    let s = statement.as_bytes();
    let head = "insert ".as_bytes();
    let mut i: usize = 0;
    while i < head.len()
        invariant
            i <= head.len(),
            i <= s.len(),
            s@ == statement.spec_bytes(),
            head@ == insert_head(),
            mismatch(s@, insert_head(), 0) == mismatch(s@, insert_head(), i as int),
        decreases head.len() - i,
    {
        if i >= s.len() {
            return Err(ScanError::UnexpectedValue(head[i], None));
        }
        if s[i] != head[i] {
            return Err(ScanError::UnexpectedValue(head[i], Some(s[i])));
        }
        i += 1;
    }
    proof {
        encode_utf8_valid_utf8(statement@);
        lemma_fields_are_text(s@);
    }
    let id_end = scan(s, i, Stop::Space);
    let username_start = next_start(s, id_end);
    let id_text = field(s, i, id_end);
    proof {
        decode_utf8_encode_utf8(s@.subrange(i as int, id_end as int));
    }
    let id = match parse_u32(id_text.as_str().as_bytes()) {
        Some(id) => id,
        None => { return Err(ScanError::Parse); },
    };
    let username_end = scan(s, username_start, Stop::Space);
    let username = field(s, username_start, username_end);
    let email_start = scan(s, next_start(s, username_end), Stop::NonBlank);
    let email_end = scan(s, email_start, Stop::Blank);
    let email = field(s, email_start, email_end);
    Ok((id, username, email))
}

/// Turns a trimmed line into a statement.
pub fn prepare(statement: &str) -> (r: Result<Statement, PrepareError>)
    ensures
        match prepared(statement.spec_bytes()) {
            Ok(wanted) => r matches Ok(out) && out@ == wanted,
            Err(e) => r == Err::<Statement, PrepareError>(e),
        },
        r matches Ok(out) ==> out@.wf(),
{
    let s = statement.as_bytes();
    if starts_with(s, "insert".as_bytes()) {
        match parse_insert(statement) {
            Ok((id, username, email)) => {
                proof {
                    let fields = raw_fields(s@);
                    assert(scan_insert(s@) == Ok::<(u32, Seq<u8>, Seq<u8>), ScanError>(
                        (id, fields.1, fields.2),
                    ));
                    encode_utf8_valid_utf8(statement@);
                    lemma_fields_are_text(s@);
                    decode_utf8_encode_utf8(fields.1);
                    decode_utf8_encode_utf8(fields.2);
                }
                if username.as_str().as_bytes().len() > USERNAME_SIZE
                    || email.as_str().as_bytes().len() > EMAIL_SIZE {
                    return Err(PrepareError::StringTooLong);
                }
                if has_zero(username.as_str().as_bytes()) || has_zero(email.as_str().as_bytes()) {
                    return Err(PrepareError::ZeroByte);
                }
                let row = Row { id, username, email };
                Ok(Statement { statement_type: StatementType::Insert, row: Some(row) })
            },
            Err(_) => Err(PrepareError::Syntax),
        }
    } else if starts_with(s, "select".as_bytes()) {
        Ok(Statement { statement_type: StatementType::Select, row: None })
    } else {
        Err(PrepareError::UnrecognizedStatement)
    }
}

/// Turns a line of input into a statement: the line is trimmed, then read
/// as [`prepare`] reads it.
pub fn prepare_statement(input_buffer: String) -> (r: Result<Statement, PrepareError>)
    ensures
        match prepared(encode_utf8(trimmed(input_buffer@))) {
            Ok(wanted) => r matches Ok(out) && out@ == wanted,
            Err(e) => r == Err::<Statement, PrepareError>(e),
        },
        r matches Ok(out) ==> out@.wf(),
{
    prepare(trim(input_buffer.as_str()))
}

/// Reads a trimmed meta command; see [`meta_command`].
pub fn read_meta_command(command: &str) -> (r: Result<Option<i32>, ExecuteError>)
    ensures
        r == meta_command(command@),
{
    proof {
        encode_utf8_decode_utf8(command@);
        encode_utf8_decode_utf8(".exit"@);
        encode_utf8_decode_utf8(".help"@);
    }
    if bytes_eq(command.as_bytes(), ".exit".as_bytes()) {
        Ok(Some(0))
    } else if bytes_eq(command.as_bytes(), ".help".as_bytes()) {
        Ok(None)
    } else {
        Err(ExecuteError::UnrecognizedMetaCommand)
    }
}

/// Reads a line that starts with a dot as a meta command. `Ok(Some(code))`
/// ends the session with `code`; on `Ok(None)` the caller shows the help
/// text.
pub fn execute_meta_command(input_buffer: String) -> (r: Result<Option<i32>, ExecuteError>)
    ensures
        r == meta_command(trimmed(input_buffer@)),
{
    read_meta_command(trim(input_buffer.as_str()))
}

/// What the caller does once a statement was carried out.
#[derive(Debug, Clone, Copy, PartialEq, Eq)]
pub enum Executed {
    /// The row is in the table; nothing is left to do.
    Inserted,
    /// The rows of the table are to be shown, first row first.
    ShowTable,
}

/// What carrying out `statement` on `table` gives: the table afterwards,
/// and the outcome. An insert appends its row, unless the table is full. A
/// select leaves the table as it is and asks for it to be shown.
pub open spec fn executed(table: TableState, statement: StatementView) -> (
    TableState,
    Result<Executed, ExecuteError>,
) {
    match statement.statement_type {
        StatementType::Insert => (
            table.insert(statement.row->0.encode()),
            if table.is_full() {
                Err(ExecuteError::TableFull)
            } else {
                Ok(Executed::Inserted)
            },
        ),
        StatementType::Select => (table, Ok(Executed::ShowTable)),
    }
}

/// Carries out `statement` on `table`; see [`executed`].
pub fn execute_statement(statement: Statement, table: &mut Table) -> (r: Result<
    Executed,
    ExecuteError,
>)
    requires
        old(table).wf(),
        statement@.wf(),
    ensures
        final(table).wf(),
        (final(table)@, r) == executed(old(table)@, statement@),
{
    match statement.statement_type {
        StatementType::Insert => {
            let row_to_insert = statement.row.unwrap();
            match table.insert_row(row_to_insert) {
                Ok(()) => Ok(Executed::Inserted),
                Err(_) => Err(ExecuteError::TableFull),
            }
        },
        StatementType::Select => Ok(Executed::ShowTable),
    }
}

/// What the caller does with one line of input once [`run`] has seen it.
#[derive(Debug, Clone, Copy, PartialEq, Eq)]
pub enum Reply {
    /// End the session with this exit code.
    Exit(i32),
    /// Show the help text.
    Help,
    /// The statement was carried out, with this outcome.
    Done(Executed),
    /// The line is no statement.
    Rejected(PrepareError),
    /// The command or the statement was not carried out.
    Failed(ExecuteError),
}

/// Whether a trimmed line is a meta command: its first byte is a dot.
pub open spec fn is_meta(line: Seq<u8>) -> bool {
    line.len() > 0 && line[0] == 0x2e
}

/// What one line of input does to `table`, and the reply to it. The line
/// is trimmed. One that starts with a dot is read as a meta command,
/// any other as a statement, which is carried out if it is one.
pub open spec fn ran(table: TableState, input: Seq<char>) -> (TableState, Reply) {
    let line = trimmed(input);
    if is_meta(encode_utf8(line)) {
        (
            table,
            match meta_command(trimmed(line)) {
                Ok(Some(code)) => Reply::Exit(code),
                Ok(None) => Reply::Help,
                Err(e) => Reply::Failed(e),
            },
        )
    } else {
        match prepared(encode_utf8(trimmed(line))) {
            Err(e) => (table, Reply::Rejected(e)),
            Ok(statement) => {
                let (after, outcome) = executed(table, statement);
                (
                    after,
                    match outcome {
                        Ok(done) => Reply::Done(done),
                        Err(e) => Reply::Failed(e),
                    },
                )
            },
        }
    }
}

/// Runs one line of input against `table` and says what the caller has to
/// do; see [`ran`]. The caller reads the lines and shows the replies.
pub fn run(table: &mut Table, input_buffer: String) -> (reply: Reply)
    requires
        old(table).wf(),
    ensures
        final(table).wf(),
        (final(table)@, reply) == ran(old(table)@, input_buffer@),
{
    let line = trim(input_buffer.as_str());
    let bytes = line.as_bytes();
    if bytes.len() > 0 && bytes[0] == 0x2e {
        return match execute_meta_command(line.to_owned()) {
            Ok(Some(exit_code)) => Reply::Exit(exit_code),
            Ok(None) => Reply::Help,
            Err(e) => Reply::Failed(e),
        };
    }
    match prepare_statement(line.to_owned()) {
        Ok(statement) => match execute_statement(statement, table) {
            Ok(done) => Reply::Done(done),
            Err(e) => Reply::Failed(e),
        },
        Err(e) => Reply::Rejected(e),
    }
}

} // verus!
