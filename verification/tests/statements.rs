use sqlite_rust::cli::execute_meta_command;
use sqlite_rust::cli::execute_statement;
use sqlite_rust::cli::parse_insert;
use sqlite_rust::cli::prepare;
use sqlite_rust::cli::prepare_statement;
use sqlite_rust::cli::read_meta_command;
use sqlite_rust::cli::run;
use sqlite_rust::cli::ExecuteError;
use sqlite_rust::cli::Executed;
use sqlite_rust::cli::PrepareError;
use sqlite_rust::cli::Reply;
use sqlite_rust::cli::ScanError;
use sqlite_rust::cli::Statement;
use sqlite_rust::cli::StatementType;
use sqlite_rust::db::Row;
use sqlite_rust::db::Table;

fn row(id: u32, username: &str, email: &str) -> Row {
    Row { id, username: String::from(username), email: String::from(email) }
}

fn insert(id: u32, username: &str, email: &str) -> Statement {
    Statement { statement_type: StatementType::Insert, row: Some(row(id, username, email)) }
}

fn select() -> Statement {
    Statement { statement_type: StatementType::Select, row: None }
}

fn fields(id: u32, username: &str, email: &str) -> Result<(u32, String, String), ScanError> {
    Ok((id, String::from(username), String::from(email)))
}

/// What the scanning macro of text_io does for the pattern
/// `insert {} {} {}`, written out with the crate's own functions.
fn scanned_by_text_io(statement: &str) -> Option<(u32, String, String)> {
    let mut input = statement.bytes();
    for c in "insert ".bytes() {
        text_io::match_next(c, &mut input).ok()?;
    }
    let id: u32 = text_io::parse_capture("id", Some(b' '), &mut input).ok()?;
    let username: String = text_io::parse_capture("username", Some(b' '), &mut input).ok()?;
    let email: String = text_io::parse_capture("email", None, &mut input).ok()?;
    Some((id, username, email))
}

#[test]
fn parse_insert_reads_the_three_fields() {
    assert_eq!(
        parse_insert("insert 1 alice alice@example.com"),
        fields(1, "alice", "alice@example.com")
    );
    assert_eq!(parse_insert("insert +7 b c"), fields(7, "b", "c"));
    assert_eq!(parse_insert("insert 4294967295 ü é@x"), fields(u32::MAX, "ü", "é@x"));
}

#[test]
fn parse_insert_lets_missing_fields_be_empty() {
    assert_eq!(parse_insert("insert 1"), fields(1, "", ""));
    assert_eq!(parse_insert("insert 1 "), fields(1, "", ""));
    assert_eq!(parse_insert("insert 1 a"), fields(1, "a", ""));
    assert_eq!(parse_insert("insert 1 a "), fields(1, "a", ""));
    assert_eq!(parse_insert("insert 1  b"), fields(1, "", "b"));
}

#[test]
fn parse_insert_skips_blanks_before_the_email_only() {
    assert_eq!(parse_insert("insert 1 a  \t\n b"), fields(1, "a", "b"));
    assert_eq!(parse_insert("insert 1 a\tb c"), fields(1, "a\tb", "c"));
    assert_eq!(parse_insert("insert 1 a b\tc"), fields(1, "a", "b"));
}

#[test]
fn parse_insert_ignores_what_follows_the_email() {
    assert_eq!(parse_insert("insert 1 a b c d"), fields(1, "a", "b"));
    assert_eq!(parse_insert("insert 1 a b\n"), fields(1, "a", "b"));
}

#[test]
fn parse_insert_reports_where_the_line_leaves_the_pattern() {
    assert_eq!(parse_insert(""), Err(ScanError::UnexpectedValue(b'i', None)));
    assert_eq!(parse_insert("select"), Err(ScanError::UnexpectedValue(b'i', Some(b's'))));
    assert_eq!(parse_insert("ins"), Err(ScanError::UnexpectedValue(b'e', None)));
    assert_eq!(parse_insert("insert"), Err(ScanError::UnexpectedValue(b' ', None)));
    assert_eq!(parse_insert("inserted 1 a b"), Err(ScanError::UnexpectedValue(b' ', Some(b'e'))));
    assert_eq!(parse_insert("insert\t1 a b"), Err(ScanError::UnexpectedValue(b' ', Some(b'\t'))));
    assert_eq!(parse_insert("Insert 1 a b"), Err(ScanError::UnexpectedValue(b'i', Some(b'I'))));
}

#[test]
fn parse_insert_reports_an_id_that_is_no_number() {
    assert_eq!(parse_insert("insert "), Err(ScanError::Parse));
    assert_eq!(parse_insert("insert  1 a b"), Err(ScanError::Parse));
    assert_eq!(parse_insert("insert x a b"), Err(ScanError::Parse));
    assert_eq!(parse_insert("insert -1 a b"), Err(ScanError::Parse));
    assert_eq!(parse_insert("insert 1.5 a b"), Err(ScanError::Parse));
    assert_eq!(parse_insert("insert 4294967296 a b"), Err(ScanError::Parse));
    assert_eq!(parse_insert("insert 1\ta b"), Err(ScanError::Parse));
}

#[test]
fn parse_insert_agrees_with_text_io() {
    let lines = [
        "insert 1 alice alice@example.com",
        "insert 1",
        "insert 1 ",
        "insert 1 a",
        "insert 1 a ",
        "insert 1 a b",
        "insert 1 a b c",
        "insert 1  b",
        "insert 1   b",
        "insert 1 a  \t b\tc",
        "insert 1 a\tb c",
        "insert  1 a b",
        "insert",
        "insert ",
        "inserted 1 a b",
        "insert\t1 a b",
        "insert +5 a b",
        "insert -5 a b",
        "insert 4294967295 a b",
        "insert 4294967296 a b",
        "insert 00012 a b",
        "insert 1 ü é@x",
        "insert 1 a\u{a0}b c",
        "insert 1 a \u{2003}b",
        "insert 12x a b",
        "select",
        "",
        "i",
        "insert 7 日本語 メール@例.jp trailing",
    ];
    for line in lines {
        assert_eq!(parse_insert(line).ok(), scanned_by_text_io(line), "{:?}", line);
    }
}

#[test]
fn prepare_reads_an_insert() {
    assert_eq!(
        prepare("insert 1 alice alice@example.com"),
        Ok(insert(1, "alice", "alice@example.com"))
    );
    assert_eq!(prepare("insert 2 bob"), Ok(insert(2, "bob", "")));
}

#[test]
fn prepare_reads_a_select() {
    assert_eq!(prepare("select"), Ok(select()));
    assert_eq!(prepare("select * from users"), Ok(select()));
    assert_eq!(prepare("selection"), Ok(select()));
}

#[test]
fn prepare_rejects_other_keywords() {
    assert_eq!(prepare(""), Err(PrepareError::UnrecognizedStatement));
    assert_eq!(prepare("delete 1"), Err(PrepareError::UnrecognizedStatement));
    assert_eq!(prepare("INSERT 1 a b"), Err(PrepareError::UnrecognizedStatement));
    assert_eq!(prepare("Select"), Err(PrepareError::UnrecognizedStatement));
    assert_eq!(prepare("inser"), Err(PrepareError::UnrecognizedStatement));
    assert_eq!(prepare(" select"), Err(PrepareError::UnrecognizedStatement));
}

#[test]
fn prepare_rejects_an_insert_that_does_not_scan() {
    assert_eq!(prepare("insert"), Err(PrepareError::Syntax));
    assert_eq!(prepare("inserted 1 a b"), Err(PrepareError::Syntax));
    assert_eq!(prepare("insert x a b"), Err(PrepareError::Syntax));
    assert_eq!(prepare("insert -1 a b"), Err(PrepareError::Syntax));
    assert_eq!(prepare("insert 4294967296 a b"), Err(PrepareError::Syntax));
}

#[test]
fn prepare_rejects_texts_that_do_not_fit() {
    let fits = format!("insert 1 {} {}", "u".repeat(32), "e".repeat(256));
    assert_eq!(prepare(&fits), Ok(insert(1, &"u".repeat(32), &"e".repeat(256))));
    let long_username = format!("insert 1 {} e", "u".repeat(33));
    assert_eq!(prepare(&long_username), Err(PrepareError::StringTooLong));
    let long_email = format!("insert 1 u {}", "e".repeat(257));
    assert_eq!(prepare(&long_email), Err(PrepareError::StringTooLong));
    // The width counts bytes: sixteen letters of two bytes fit, seventeen do not.
    let wide = format!("insert 1 {} e", "é".repeat(16));
    assert_eq!(prepare(&wide), Ok(insert(1, &"é".repeat(16), "e")));
    let too_wide = format!("insert 1 {} e", "é".repeat(17));
    assert_eq!(prepare(&too_wide), Err(PrepareError::StringTooLong));
}

#[test]
fn prepare_rejects_texts_with_a_zero_byte() {
    assert_eq!(prepare("insert 1 al\0ice a@b.c"), Err(PrepareError::ZeroByte));
    assert_eq!(prepare("insert 1 alice a@b\0.c"), Err(PrepareError::ZeroByte));
    assert_eq!(prepare("insert 1 \0 a@b.c"), Err(PrepareError::ZeroByte));
    assert_eq!(prepare("insert 1 alice \0"), Err(PrepareError::ZeroByte));
    assert_eq!(prepare("insert 1 alice a@b.c\0"), Err(PrepareError::ZeroByte));
    // Behind the email nothing is looked at.
    assert_eq!(prepare("insert 1 alice a@b.c \0"), Ok(insert(1, "alice", "a@b.c")));
    // A zero byte in the id makes it no number.
    assert_eq!(prepare("insert 1\0 alice a@b.c"), Err(PrepareError::Syntax));
    // A text that is too long counts as too long, zero byte or not.
    let long = format!("insert 1 {}\0 e", "u".repeat(32));
    assert_eq!(prepare(&long), Err(PrepareError::StringTooLong));
    let full = format!("insert 1 {}\0 e", "u".repeat(31));
    assert_eq!(prepare(&full), Err(PrepareError::ZeroByte));
}

#[test]
fn prepare_statement_rejects_texts_with_a_zero_byte() {
    assert_eq!(
        prepare_statement(String::from("insert 1 al\0ice a@b.c")),
        Err(PrepareError::ZeroByte)
    );
    assert_eq!(
        prepare_statement(String::from("  insert 1 alice a\0b \n")),
        Err(PrepareError::ZeroByte)
    );
}

#[test]
fn run_rejects_texts_with_a_zero_byte() {
    let mut table = Table::new(0);
    assert_eq!(
        run(&mut table, String::from("insert 1 al\0ice a@b.c\n")),
        Reply::Rejected(PrepareError::ZeroByte)
    );
    assert_eq!(table.num_row, 0);
    assert_eq!(table.pager.num_pages, 0);
}

#[test]
fn prepare_statement_trims_the_line_first() {
    assert_eq!(prepare_statement(String::from("  select  \n")), Ok(select()));
    assert_eq!(
        prepare_statement(String::from("\t insert 3 carol carol@example.com \r\n")),
        Ok(insert(3, "carol", "carol@example.com"))
    );
    assert_eq!(prepare_statement(String::from("\u{2003}select\u{a0}")), Ok(select()));
    assert_eq!(
        prepare_statement(String::from("   ")),
        Err(PrepareError::UnrecognizedStatement)
    );
    assert_eq!(prepare_statement(String::from(" insert ")), Err(PrepareError::Syntax));
}

#[test]
fn read_meta_command_knows_exit_and_help() {
    assert_eq!(read_meta_command(".exit"), Ok(Some(0)));
    assert_eq!(read_meta_command(".help"), Ok(None));
    assert_eq!(read_meta_command(".quit"), Err(ExecuteError::UnrecognizedMetaCommand));
    assert_eq!(read_meta_command(".exit now"), Err(ExecuteError::UnrecognizedMetaCommand));
    assert_eq!(read_meta_command(".EXIT"), Err(ExecuteError::UnrecognizedMetaCommand));
    assert_eq!(read_meta_command(" .exit"), Err(ExecuteError::UnrecognizedMetaCommand));
    assert_eq!(read_meta_command("."), Err(ExecuteError::UnrecognizedMetaCommand));
    assert_eq!(read_meta_command(""), Err(ExecuteError::UnrecognizedMetaCommand));
}

#[test]
fn execute_meta_command_trims_the_line_first() {
    assert_eq!(execute_meta_command(String::from(".exit")), Ok(Some(0)));
    assert_eq!(execute_meta_command(String::from("  .exit \n")), Ok(Some(0)));
    assert_eq!(execute_meta_command(String::from(".help\r\n")), Ok(None));
    assert_eq!(
        execute_meta_command(String::from(".tables")),
        Err(ExecuteError::UnrecognizedMetaCommand)
    );
}

#[test]
fn errors_describe_themselves() {
    assert_eq!(PrepareError::StringTooLong.description(), "Error: String is too long");
    assert_eq!(PrepareError::ZeroByte.description(), "Error: String contains a zero byte");
    assert_eq!(PrepareError::Syntax.description(), "Error: Could not parse statement");
    assert_eq!(
        PrepareError::UnrecognizedStatement.description(),
        "Error: Unrecognized keyword at start of statement"
    );
    assert_eq!(ExecuteError::TableFull.description(), "Error: The table is full");
    assert_eq!(
        ExecuteError::UnrecognizedMetaCommand.description(),
        "Error: Unrecognized meta command"
    );
}

#[test]
fn execute_statement_inserts_the_row() {
    let mut table = Table::new(0);
    assert_eq!(
        execute_statement(insert(1, "alice", "alice@example.com"), &mut table),
        Ok(Executed::Inserted)
    );
    assert_eq!(table.num_row, 1);
    assert_eq!(table.read_row(0), Ok(row(1, "alice", "alice@example.com")));
}

#[test]
fn execute_statement_asks_for_the_table_on_select() {
    let mut table = Table::new(0);
    execute_statement(insert(1, "a", "b"), &mut table).unwrap();
    let before = table.close();
    assert_eq!(execute_statement(select(), &mut table), Ok(Executed::ShowTable));
    assert_eq!(table.num_row, 1);
    assert_eq!(table.close(), before);
}

#[test]
fn execute_statement_reports_a_full_table() {
    let mut table = Table::new(0);
    for i in 0..1400u32 {
        assert_eq!(execute_statement(insert(i, "a", "b"), &mut table), Ok(Executed::Inserted));
    }
    assert_eq!(execute_statement(insert(1400, "a", "b"), &mut table), Err(ExecuteError::TableFull));
    assert_eq!(table.num_row, 1400);
    assert_eq!(execute_statement(select(), &mut table), Ok(Executed::ShowTable));
}

#[test]
fn run_answers_meta_commands() {
    let mut table = Table::new(0);
    assert_eq!(run(&mut table, String::from(".exit\n")), Reply::Exit(0));
    assert_eq!(run(&mut table, String::from("  .help\n")), Reply::Help);
    assert_eq!(
        run(&mut table, String::from(".nope\n")),
        Reply::Failed(ExecuteError::UnrecognizedMetaCommand)
    );
    assert_eq!(
        run(&mut table, String::from(".\n")),
        Reply::Failed(ExecuteError::UnrecognizedMetaCommand)
    );
    assert_eq!(table.num_row, 0);
}

#[test]
fn run_carries_statements_out() {
    let mut table = Table::new(0);
    assert_eq!(
        run(&mut table, String::from("insert 1 alice alice@example.com\n")),
        Reply::Done(Executed::Inserted)
    );
    assert_eq!(
        run(&mut table, String::from("  insert 2 bob bob@example.com  \n")),
        Reply::Done(Executed::Inserted)
    );
    assert_eq!(run(&mut table, String::from("select\n")), Reply::Done(Executed::ShowTable));
    assert_eq!(
        table.print_table(),
        Ok(vec![
            String::from("(1, alice, alice@example.com)"),
            String::from("(2, bob, bob@example.com)"),
        ])
    );
}

#[test]
fn run_rejects_what_is_no_statement() {
    let mut table = Table::new(0);
    assert_eq!(
        run(&mut table, String::from("\n")),
        Reply::Rejected(PrepareError::UnrecognizedStatement)
    );
    assert_eq!(
        run(&mut table, String::from("update 1\n")),
        Reply::Rejected(PrepareError::UnrecognizedStatement)
    );
    assert_eq!(run(&mut table, String::from("insert one a b\n")), Reply::Rejected(PrepareError::Syntax));
    assert_eq!(
        run(&mut table, format!("insert 1 {} b\n", "u".repeat(33))),
        Reply::Rejected(PrepareError::StringTooLong)
    );
    assert_eq!(table.num_row, 0);
}

#[test]
fn run_reports_a_full_table() {
    let mut table = Table::new(0);
    for i in 0..1400 {
        assert_eq!(
            run(&mut table, format!("insert {} u{} e{}\n", i, i, i)),
            Reply::Done(Executed::Inserted)
        );
    }
    assert_eq!(
        run(&mut table, String::from("insert 1400 late late\n")),
        Reply::Failed(ExecuteError::TableFull)
    );
    assert_eq!(table.num_row, 1400);
}
