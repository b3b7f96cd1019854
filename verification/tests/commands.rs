use rsdb::command::{
    execute_command, execute_statment, parse_command, parse_statement, Command, CommandEffect,
    Statement,
};
use rsdb::pager::Pager;
use rsdb::row::Row;
use rsdb::table::Table;
use rsdb::{COLUMN_EMAIL_SIZE, COLUMN_USERNAME_SIZE};

#[test]
fn commands() {
    assert_eq!(parse_command(String::from(".help")).unwrap(), Command::Help);
    assert_eq!(parse_command(String::from(".exit")).unwrap(), Command::Exit);
    assert_eq!(
        parse_command(String::from(".elxit")),
        Err("unknown command")
    );
}

#[test]
fn statement_select() {
    assert_eq!(
        parse_statement(String::from("select")).unwrap(),
        Statement::Select
    );
}

#[test]
fn statement_insert() {
    assert_eq!(
        parse_statement(String::from("insert 1 abc def")).unwrap(),
        Statement::Insert(Row::new(1, "abc", "def"))
    );
    assert_eq!(
        parse_statement(String::from("insert")),
        Err("invalid insert expected 3 args")
    );
    assert_eq!(
        parse_statement(String::from("insert a abc def")),
        Err("invalid id. not a number")
    );
}

#[test]
fn insert_truncate() {
    let username = "0123456789123456789012345678901234".to_string();
    let email = (0..COLUMN_EMAIL_SIZE + 4).map(|_| "X").collect::<String>();
    let query = format!("insert 1 {} {}", username, email);
    let Statement::Insert(row) = parse_statement(query).unwrap() else {
        panic!("expected an insert statement")
    };
    assert_eq!(row, Row::new(1, username.as_str(), email.as_str()));
    assert_ne!(row.username.len(), username.len());
    assert_eq!(row.username.len(), COLUMN_USERNAME_SIZE);
    assert_ne!(row.email.len(), email.len());
    assert_eq!(row.email.len(), COLUMN_EMAIL_SIZE);
}

#[test]
fn statement_edges() {
    assert_eq!(parse_statement(String::from("")), Err("unknown command"));
    assert_eq!(
        parse_statement(String::from("  select  ")).unwrap(),
        Statement::Select
    );
    assert_eq!(
        parse_statement(String::from("select now")),
        Err("unknown command")
    );
    assert_eq!(
        parse_statement(String::from("insert 1  a b")),
        Err("invalid insert expected 3 args")
    );
    assert_eq!(
        parse_statement(String::from("insert  a b")),
        Err("invalid id. not a number")
    );
    assert_eq!(
        parse_statement(String::from("insert 1 a b c")),
        Err("invalid insert expected 3 args")
    );
    assert_eq!(
        parse_statement(String::from("insert 1 a")),
        Err("invalid insert expected 3 args")
    );
}

#[test]
fn statement_trims_unicode_whitespace() {
    assert_eq!(
        parse_statement(String::from("\u{a0}select\u{2003}")).unwrap(),
        Statement::Select
    );
    assert_eq!(parse_command(String::from("\t.exit\u{3000}")).unwrap(), Command::Exit);
}

#[test]
fn statement_insert_id_parsing() {
    assert_eq!(
        parse_statement(String::from("insert +7 a b")).unwrap(),
        Statement::Insert(Row::new(7, "a", "b"))
    );
    assert_eq!(
        parse_statement(String::from("insert 4294967295 a b")).unwrap(),
        Statement::Insert(Row::new(4294967295, "a", "b"))
    );
    assert_eq!(
        parse_statement(String::from("insert 4294967296 a b")),
        Err("invalid id. not a number")
    );
    assert_eq!(
        parse_statement(String::from("insert -1 a b")),
        Err("invalid id. not a number")
    );
}

#[test]
fn command_effects() {
    assert_eq!(
        execute_command(Command::Help),
        CommandEffect::Output(String::from("help"))
    );
    assert_eq!(execute_command(Command::Exit), CommandEffect::Exit);
}

#[test]
fn execute_insert_then_select() {
    let mut table = Table::new(Pager::new(Vec::new()));
    let insert = parse_statement(String::from("insert 0 foo bar")).unwrap();
    assert_eq!(execute_statment(insert, &mut table), Ok(String::new()));
    let select = parse_statement(String::from("select")).unwrap();
    assert_eq!(
        execute_statment(select, &mut table),
        Ok(String::from("Row { id: 0, username: \"foo\", email: \"bar\" }\n"))
    );
}

#[test]
fn execute_insert_when_full() {
    let mut table = Table::new(Pager::new(Vec::new()));
    let per_page = table.get_row_per_page() as u32;
    for i in 0..per_page * 100 {
        assert!(table.insert_row(&Row::new(i, "foo", "bar")).is_ok());
    }
    let insert = parse_statement(String::from("insert 0 foo bar")).unwrap();
    assert_eq!(execute_statment(insert, &mut table), Err("Table is full"));
}
