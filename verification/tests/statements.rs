use cql_migrate::cql_file::{CqlFile, EMPTY_FILE};
use cql_migrate::error::MigrateError;
use cql_migrate::statement::parse_statements;
use nom::branch::alt;
use nom::bytes::complete::tag;
use nom::character::complete::{anychar, char, line_ending, one_of};
use nom::combinator::{all_consuming, recognize};
use nom::error::Error;
use nom::multi::{many1, many_till};
use nom::sequence::preceded;
use nom::Parser;
use nom_locate::LocatedSpan;

fn texts(cql: &str) -> Vec<String> {
    parse_statements(cql).into_iter().map(|s| s.cql).collect()
}

fn lines(cql: &str) -> Vec<(usize, usize)> {
    parse_statements(cql).into_iter().map(|s| s.lines).collect()
}

fn file() -> CqlFile {
    CqlFile::from_path("/m/v001.cql".to_string(), "v001.cql".to_string(), Ok(Vec::new())).unwrap()
}

fn error_of(content: Result<Vec<u8>, String>) -> (String, String) {
    match file().read_statements(content) {
        Ok(_) => panic!("should have errored"),
        Err(MigrateError::CqlFileReadError { filename, error }) => (filename, error),
    }
}

#[test]
fn a_line_break_separates_two_words() {
    assert_eq!(texts("select a\n  from b;"), vec!["select a from b"]);
    assert_eq!(texts("select a\r\nfrom b;"), vec!["select a from b"]);
    assert_eq!(lines("select a\n  from b;"), vec![(1, 2)]);
}

#[test]
fn a_line_break_next_to_a_bracket_leaves_nothing() {
    assert_eq!(texts("f (\n  a,\n  b\n);"), vec!["f (a, b)"]);
    assert_eq!(texts("f\n(a)\n;"), vec!["f (a)"]);
}

#[test]
fn spaces_are_kept_inside_and_dropped_at_the_ends() {
    assert_eq!(texts("   a  ( b )   ;"), vec!["a  ( b )"]);
    assert_eq!(texts("\ta;"), vec!["\ta"]);
}

#[test]
fn a_carriage_return_alone_is_no_line_break() {
    assert_eq!(texts("a\rb;"), vec!["a\rb"]);
    assert_eq!(texts("f (\r a\r);"), vec!["f (\r a\r)"]);
    assert_eq!(texts("\r a\r ;"), vec!["a"]);
    assert_eq!(texts("a\r/*x*/\rb;"), vec!["a b"]);
    assert_eq!(texts("-- x\r a;\nb;"), vec!["b"]);
    assert_eq!(lines("a\rb;"), vec![(1, 1)]);
    assert_eq!(texts("f (\r\n a\r\n);"), vec!["f (a)"]);
}

#[test]
fn a_plain_line_is_kept_as_it_stands() {
    for text in ["a  ( b )", "a\rb", "x 'y  z' - /* q", "\t$$ - $$\t"] {
        let mut ended = text.to_string();
        ended.push(';');
        assert_eq!(texts(&ended), vec![text]);
        assert_eq!(lines(&ended), vec![(1, 1)]);
    }
}

#[test]
fn a_comment_is_one_space() {
    assert_eq!(texts("a/*x*/b;"), vec!["a b"]);
    assert_eq!(texts("a /*x*/ /*y*/ -- z\n b;"), vec!["a b"]);
    assert_eq!(texts("f (/*x*/a/*y*/);"), vec!["f ( a )"]);
    assert_eq!(texts("a -- x;\n;"), vec!["a"]);
}

#[test]
fn a_semicolon_in_a_comment_ends_nothing() {
    assert_eq!(texts("a /* ; */ b; -- ; \n /* ; */ c;"), vec!["a b", "c"]);
    assert_eq!(lines("a /* ;\n */ b; -- ; \n /* ; */ c;"), vec![(1, 2), (3, 3)]);
}

#[test]
fn block_comments_do_not_nest_and_need_an_end() {
    assert_eq!(texts("/*/ a; */ b;"), vec!["b"]);
    assert_eq!(texts("/* /* */ a;"), vec!["a"]);
    assert_eq!(texts("a /* b;"), vec!["a /* b"]);
    assert_eq!(texts("/* a;"), vec!["/* a"]);
}

#[test]
fn quoted_text_is_kept() {
    assert_eq!(texts("a 'x -- y\n  z' b;"), vec!["a 'x -- y\n  z' b"]);
    assert_eq!(texts("a \"/*x*/\" b;"), vec!["a \"/*x*/\" b"]);
    assert_eq!(texts("a $$ i-- $$ -- x\n b;"), vec!["a $$ i-- $$ b"]);
    assert_eq!(texts("a 'it''s -- x' -- y\n;"), vec!["a 'it''s -- x'"]);
    assert_eq!(texts("a '\"' -- x\n;"), vec!["a '\"'"]);
}

#[test]
fn a_semicolon_ends_the_statement_in_quotes_too() {
    assert_eq!(texts("a 'x;y -- z\n';"), vec!["a 'x", "y '"]);
}

#[test]
fn an_empty_statement_is_a_statement() {
    assert_eq!(texts(";;"), vec!["", ""]);
    assert_eq!(lines("\n;\n -- x\n ;"), vec![(2, 2), (4, 4)]);
}

#[test]
fn text_that_is_not_ended_is_left_out() {
    assert_eq!(texts("a; b"), vec!["a"]);
    assert_eq!(texts("a; 'b"), vec!["a"]);
    assert_eq!(texts("a; -- b;"), vec!["a"]);
    assert_eq!(texts("a, b"), Vec::<String>::new());
    assert_eq!(texts(""), Vec::<String>::new());
    assert_eq!(texts(" \r\n -- a;\n /* b; */ "), Vec::<String>::new());
}

#[test]
fn other_characters_are_kept() {
    assert_eq!(texts("insert 'gr\u{fc}n \u{1f600}';"), vec!["insert 'gr\u{fc}n \u{1f600}'"]);
    assert_eq!(texts("a - - b / * c $ $ d;"), vec!["a - - b / * c $ $ d"]);
}

#[test]
fn a_statement_read_again_is_the_same() {
    for cql in [
        "create table t (\n -- x\n a int, /* y */ b 'q\n--z' \n);",
        "a /* b;",
        "(\n) ( ) 'x ;",
        "$$ ' \" -- $$ ;",
        "a\rb (\r c\r) ;",
    ] {
        for text in texts(cql) {
            let mut ended = text.clone();
            ended.push(';');
            assert_eq!(texts(&ended), vec![text]);
        }
    }
}

#[test]
fn what_stands_in_front_only_moves_the_lines() {
    let cql = "a\n b;\nc;";
    let expected = texts(cql);
    for (front, down) in [
        (" ", 0),
        ("\n", 1),
        ("--x;\n", 1),
        ("/*x;\n\n*/", 2),
        ("/***/", 0),
        (" \r\n--x;\n /*;\n*//*y*/ --\n", 4),
        ("", 0),
    ] {
        let mut text = front.to_string();
        text.push_str(cql);
        assert_eq!(texts(&text), expected);
        assert_eq!(lines(&text), vec![(1 + down, 2 + down), (3 + down, 3 + down)]);
    }
}

#[test]
fn two_files_in_a_row_give_the_statements_of_both() {
    let a = "a\n;b;";
    let b = " c\n; d";
    let mut both = a.to_string();
    both.push_str(b);
    assert_eq!(texts(&both), vec!["a", "b", "c"]);
    assert_eq!(lines(&both), vec![(1, 2), (2, 2), (2, 3)]);
}

#[test]
fn an_open_block_is_closed_by_what_follows() {
    assert_eq!(texts("a /* b;"), vec!["a /* b"]);
    assert_eq!(texts("a /* b;*/ c;"), vec!["a c"]);
}

#[test]
fn no_statement_holds_a_semicolon_and_the_lines_are_in_order() {
    let statements = parse_statements("a 'b;c\n\n'; -- x\n d /* ;\n */ ;e;");
    let mut line = 1;
    for statement in statements.iter() {
        assert!(!statement.cql.contains(';'));
        assert!(line <= statement.lines.0 && statement.lines.0 <= statement.lines.1);
        line = statement.lines.1;
    }
    assert_eq!(statements.len(), 4);
}

#[test]
fn a_file_that_cannot_be_read_gives_the_error() {
    assert_eq!(
        error_of(Err("no such file".to_string())),
        ("/m/v001.cql".to_string(), "no such file".to_string())
    );
}

#[test]
fn a_file_that_is_not_utf8_gives_the_error() {
    let (filename, error) = error_of(Ok(vec![b'a', 0xff, b';']));
    assert_eq!(filename, "/m/v001.cql");
    assert_eq!(
        error,
        "CQL file contains invalid UTF-8 sequence: invalid utf-8 sequence of 1 bytes from index 1"
    );
    let (_, error) = error_of(Ok(vec![b'a', 0xc3]));
    assert_eq!(
        error,
        "CQL file contains invalid UTF-8 sequence: incomplete utf-8 byte sequence from index 1"
    );
}

#[test]
fn a_file_that_is_utf8_is_decoded() {
    let statements = file().read_statements(Ok(vec![0xc3, 0xbc, b';'])).unwrap();
    assert_eq!(statements.len(), 1);
    assert_eq!(statements[0].cql, "\u{fc}");
}

#[test]
fn an_empty_file_gives_the_error() {
    let (filename, error) = error_of(Ok(Vec::new()));
    assert_eq!(filename, "/m/v001.cql");
    assert_eq!(error, EMPTY_FILE);
    assert!(file().read_statements(Ok(vec![b' '])).unwrap().is_empty());
}

// A file without a single character is refused in the words of nom.
#[test]
fn the_error_of_an_empty_file_is_that_of_nom() {
    let mut parser = all_consuming(many1(alt((
        recognize(many1(one_of::<_, _, Error<LocatedSpan<&str>>>("\n\r "))),
        recognize(preceded(tag("--"), many_till(anychar, line_ending))),
        recognize(preceded(tag("/*"), many_till(anychar, tag("*/")))),
        recognize(many_till(anychar, char(';'))),
    ))));
    match parser.parse_complete(LocatedSpan::new("")) {
        Ok(_) => panic!("should have errored"),
        Err(e) => assert_eq!(format!("Unable to parse migration file: {e}"), EMPTY_FILE),
    }
}
