use cql_migrate::cql_file::CqlFile;
use cql_migrate::directory::{files_from_dir, DirEntry, DirListing};
use cql_migrate::filename::is_cql_filename;
use cql_migrate::statement::CqlStatement;

fn bytes(text: &str) -> Vec<u8> {
    text.as_bytes().to_vec()
}

fn record(filename: &str, cql: &str) -> CqlFile {
    let path = format!("/tmp/migrations/{}", filename);
    CqlFile::from_path(path, filename.to_string(), Ok(bytes(cql))).expect("cql file")
}

fn entry(filename: &str) -> DirEntry {
    DirEntry {
        path: format!("/tmp/migrations/{}", filename),
        file_name: Some(filename.to_string()),
        raw_name: bytes(filename),
        is_file: true,
        content: Ok(Vec::new()),
    }
}

fn listing(filenames: &[&str]) -> DirListing {
    DirListing::Listed { listed: filenames.iter().map(|f| Ok(entry(f))).collect() }
}

fn dir() -> String {
    "/tmp/migrations".to_string()
}

#[test]
fn test_cql_filename_regex() {
    assert!(is_cql_filename("v000.cql"));
    assert!(is_cql_filename("v001-init-schema.cql"));
    assert!(is_cql_filename("V002_add_column_families.cql"));
    assert!(!is_cql_filename("init-schema.cql"));
}

#[test]
fn test_cql_file() {
    let cql = "  create table big_business_data (id timeuuid primary key)  ;";
    match CqlFile::from_path(
        "/tmp/migrations/v073-more_tables.cql".to_string(),
        "v073-more_tables.cql".to_string(),
        Ok(bytes(cql)),
    ) {
        Err(_) => panic!(),
        Ok(cql_file) => {
            assert_eq!(cql_file.filename, String::from("v073-more_tables.cql"));
            assert_eq!(cql_file.version, 73);
            assert_eq!(cql_file.hash, "e995c628cf1a06863dc86760020ecb43");
            let statements_result = cql_file.read_statements(Ok(bytes(cql)));
            assert!(statements_result.is_ok());
            let statements = statements_result.unwrap();
            assert_eq!(statements.len(), 1);
            assert_eq!(
                statements.get(0).unwrap().cql,
                "create table big_business_data (id timeuuid primary key)"
            );
        }
    }
}

fn read_statements_test(cql: &'static str, expected: Vec<CqlStatement>) {
    let cql_file = record("v001-no_more_tests.cql", cql);
    let statements_result = cql_file.read_statements(Ok(bytes(cql)));
    assert!(statements_result.is_ok());
    let statements = statements_result.unwrap();
    assert_eq!(statements.len(), expected.len());
    for (i, statement) in statements.iter().enumerate() {
        let other = expected.get(i).unwrap();
        assert_eq!(statement.cql, other.cql);
        assert_eq!(statement.lines.0, other.lines.0, "{}", statement.cql.as_str());
        assert_eq!(statement.lines.1, other.lines.1, "{}", statement.cql.as_str());
    }
}

#[test]
fn test_cql_file_read_statements_incomplete_line() {
    read_statements_test(
        "create table big_business_data (id timeuuid primary key)",
        Vec::new(),
    );
}

#[test]
fn test_cql_file_read_statements_complete_line() {
    read_statements_test(
        "create table big_business_data (id timeuuid primary key);",
        Vec::from([CqlStatement {
            cql: "create table big_business_data (id timeuuid primary key)".to_string(),
            lines: (1, 1),
        }]),
    );
}

#[test]
fn test_cql_file_read_statements_two_lines() {
    read_statements_test(
        "create table big_business_data (id timeuuid primary key);
                      create table more_business_data (id timeuuid primary key);",
        Vec::from([
            CqlStatement {
                cql: "create table big_business_data (id timeuuid primary key)".to_string(),
                lines: (1, 1),
            },
            CqlStatement {
                cql: "create table more_business_data (id timeuuid primary key)".to_string(),
                lines: (2, 2),
            },
        ]),
    );
}

#[test]
fn test_cql_file_read_statements_block_comment_only() {
    read_statements_test(
        "/*create table big_business_data (id timeuuid primary key);*/",
        Vec::new(),
    );
}

#[test]
fn test_cql_file_read_statements_line_comment_only() {
    read_statements_test(
        "--create table big_business_data (id timeuuid primary key);",
        Vec::new(),
    );
}

#[test]
fn test_cql_file_read_statements_multiline_statement_with_line_comments() {
    read_statements_test(
        "create table big_business_data (
            id timeuuid primary key,
            -- here's some docs
            data text, -- and more docs
            created timestamp
            );",
        vec![CqlStatement {
            cql: "create table big_business_data (id timeuuid primary key, data text, created timestamp)"
                .to_string(),
            lines: (1, 6),
        }],
    );
}

#[test]
fn test_cql_file_read_statements_block_comment_in_statement() {
    read_statements_test(
        "create table big_business_data (
            /*id timeuuid primary key,*/
            another_id uuid primary key,
            /*data text,*/
            data text
            );",
        vec![CqlStatement {
            cql: "create table big_business_data ( another_id uuid primary key, data text)"
                .to_string(),
            lines: (1, 6),
        }],
    );
}

#[test]
fn test_cql_file_read_statements_line_comment_out_statement_ending() {
    read_statements_test(
        "create table big_business_data (--id timeuuid primary key);\nanother_id uuid primary key);",
        vec!(
            CqlStatement {
                cql: "create table big_business_data ( another_id uuid primary key)".to_string(),
                lines: (1, 2),
            })
    );
}

#[test]
fn test_cql_file_read_statements_block_comment_between_statements() {
    read_statements_test(
        "create table big_business_data (id timeuuid primary key);
            /*create table another_business_data (id timeuuid primary key);*/
            create table more_business_data (id timeuuid primary key);",
        vec![
            CqlStatement {
                cql: "create table big_business_data (id timeuuid primary key)".to_string(),
                lines: (1, 1),
            },
            CqlStatement {
                cql: "create table more_business_data (id timeuuid primary key)".to_string(),
                lines: (3, 3),
            },
        ],
    );
}

#[test]
fn test_cql_file_read_statements_line_comment_between_statements() {
    read_statements_test(
        "create table big_business_data (id timeuuid primary key);
            --create table another_business_data (id timeuuid primary key);
            create table more_business_data (id timeuuid primary key);",
        vec![
            CqlStatement {
                cql: "create table big_business_data (id timeuuid primary key)".to_string(),
                lines: (1, 1),
            },
            CqlStatement {
                cql: "create table more_business_data (id timeuuid primary key)".to_string(),
                lines: (3, 3),
            },
        ],
    );
}

#[test]
fn test_cql_file_read_statements_partial_line_comment_between_statements() {
    read_statements_test(
        "create table big_business_data (id timeuuid primary key);
            create table --another_business_data (id timeuuid primary key);
            more_business_data (id timeuuid primary key);
            create table even_more_business_data (id timeuuid primary key);",
        vec![
            CqlStatement {
                cql: "create table big_business_data (id timeuuid primary key)".to_string(),
                lines: (1, 1),
            },
            CqlStatement {
                cql: "create table more_business_data (id timeuuid primary key)".to_string(),
                lines: (2, 3),
            },
            CqlStatement {
                cql: "create table even_more_business_data (id timeuuid primary key)"
                    .to_string(),
                lines: (4, 4),
            },
        ],
    );
}


#[test]
fn test_files_from_dir() {
    match files_from_dir(dir(), listing(&["v001.cql", "foo.sh", "foo.sql"])) {
        Err(err) => {
            println!("{}", err.message());
            panic!();
        }
        Ok(cql_files) => {
            assert_eq!(cql_files.len(), 1);
            assert!(cql_files.iter().any(|p| { p.filename == "v001.cql" }));
        }
    }
}

#[test]
fn test_files_from_dir_errors_with_cql_name() {
    match files_from_dir(dir(), listing(&["foo.cql"])) {
        Ok(_) => panic!(),
        Err(err) => {
            assert_eq!(err.message(), "foo.cql is not a valid cql file name");
        }
    }
}

#[test]
fn test_files_from_dir_allows_non_migrating_cql() {
    match files_from_dir(dir(), listing(&["v001-foo.cql", "_foo.cql"])) {
        Ok(cql_files) => {
            assert_eq!(cql_files.len(), 1);
            assert_eq!(cql_files.get(0).unwrap().filename, "v001-foo.cql".to_string());
        }
        Err(err) => panic!("should not have errored with: {}", err.message()),
    }
}

#[test]
fn test_files_from_dir_errors_with_out_of_order_versions() {
    match files_from_dir(dir(), listing(&["v001-foo.cql", "v002-foo.cql", "v004-foo.cql"])) {
        Ok(_) => panic!("cql::files_from_dir should have errored"),
        Err(err) => {
            assert_eq!(
                err.message(),
                "v004-foo.cql found without a preceding v003 version cql file"
            );
        }
    }
}

#[test]
fn test_files_from_dir_errors_with_repeating_versions() {
    match files_from_dir(dir(), listing(&["v001-foo.cql", "v001-bar.cql"])) {
        Ok(_) => panic!("cql::files_from_dir should have errored"),
        Err(err) => {
            assert_eq!(
                err.message(),
                "v001-bar.cql and v001-foo.cql repeat versions instead of incrementing to v002"
            );
        }
    }
}
