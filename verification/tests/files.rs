use cql_migrate::cql_file::CqlFile;
use cql_migrate::digest::{hash_content, to_hex};
use cql_migrate::directory::{
    files_from_dir, is_inclusive_cql_filename, read_cql_file_paths, take_up, DirEntry, DirListing,
};
use cql_migrate::error::{CqlFileError, NumberError, ScanError};
use cql_migrate::filename::{find_version, is_cql_filename, parse_number};

fn entry(name: &str, is_file: bool) -> DirEntry {
    DirEntry {
        path: format!("/m/{}", name),
        file_name: Some(name.to_string()),
        raw_name: name.as_bytes().to_vec(),
        is_file,
        content: Ok(name.as_bytes().to_vec()),
    }
}

fn entries(names: &[&str]) -> DirListing {
    DirListing::Listed { listed: names.iter().map(|n| Ok(entry(n, true))).collect() }
}

fn files(names: &[&str]) -> Vec<CqlFile> {
    files_from_dir("/m".to_string(), entries(names)).unwrap()
}

fn message(listing: DirListing) -> String {
    files_from_dir("/m".to_string(), listing).unwrap_err().message()
}

fn record(name: &str) -> Result<CqlFile, CqlFileError> {
    CqlFile::from_path(format!("/m/{}", name), name.to_string(), Ok(Vec::new()))
}

#[test]
fn names_of_migrations() {
    for name in ["v001.cql", "V999-a_B-9.cql", "v0001.cql", "v001xcql", "v001\u{fc}cql"] {
        assert!(is_cql_filename(name), "{}", name);
    }
    for name in
        ["", "v01.cql", "x001.cql", "v001 a.cql", "v001.sql", "v001.cql ", "v001.cql\n", "v001\ncql", "av001.cql"]
    {
        assert!(!is_cql_filename(name), "{}", name);
    }
}

#[test]
fn versions_in_names() {
    assert_eq!(find_version("v073-more_tables.cql"), Some("073".to_string()));
    assert_eq!(find_version("V1234.cql"), Some("123".to_string()));
    assert_eq!(find_version("\u{fc}.cql"), None);
    assert_eq!(record("v1234.cql").unwrap().version, 123);
    assert_eq!(record("v000.cql").unwrap().version, 0);
    assert_eq!(record("v999.cql").unwrap().version, 999);
}

#[test]
fn digits_of_other_scripts_are_no_version() {
    let name = "v\u{660}\u{661}\u{662}.cql";
    assert!(is_cql_filename(name));
    assert_eq!(
        record(name).unwrap_err().message(),
        "Migration file `v\u{660}\u{661}\u{662}.cql` has invalid version `\u{660}\u{661}\u{662}`"
    );
    assert_eq!(
        record(name).unwrap_err().cause_message(),
        Some("invalid digit found in string".to_string())
    );
    assert_eq!(
        record("v00\u{662}.cql").unwrap_err().cause_message(),
        Some("invalid digit found in string".to_string())
    );
}

#[test]
fn numbers() {
    assert_eq!(parse_number("000"), Ok(0));
    assert_eq!(parse_number("+12"), Ok(12));
    assert_eq!(parse_number("-99"), Ok(-99));
    assert_eq!(parse_number("32767"), Ok(32767));
    assert_eq!(parse_number("-32768"), Ok(-32768));
    assert_eq!(parse_number("000000000000000000001"), Ok(1));
    assert_eq!(parse_number(""), Err(NumberError::Empty));
    for text in ["+", "-", "1 ", "1_0", "--1", "+-1", "\u{661}", "9999x", "32767 ", "-3276x"] {
        assert_eq!(parse_number(text), Err(NumberError::InvalidDigit), "{}", text);
    }
    for text in ["32768", "+32768", "99999999999999999999", "99999x"] {
        assert_eq!(parse_number(text), Err(NumberError::TooLarge), "{}", text);
    }
    for text in ["-32769", "-99999999999999999999", "-99999x"] {
        assert_eq!(parse_number(text), Err(NumberError::TooSmall), "{}", text);
    }
}

#[test]
fn numbers_are_those_of_the_standard_library() {
    for text in [
        "", "0", "007", "+", "-", "+5", "-5", "32767", "32768", "-32768", "-32769", "1x", "x1", "9999x",
        "99999x", "-9999x", "-99999x", "--1", "\u{661}", "00000000000012", "4\u{fc}", "40000\u{fc}",
    ] {
        assert_eq!(
            parse_number(text).map_err(|e| e.message()),
            text.parse::<i16>().map_err(|e| e.to_string()),
            "{}",
            text
        );
    }
}

#[test]
fn errors_name_versions_with_three_digits() {
    for (expected, text) in [(1, "001"), (42, "042"), (999, "999"), (1000, "1000"), (-5, "0-5"), (-32768, "-32768")] {
        let error = CqlFileError::MissingVersion { filename: "x".to_string(), expected };
        assert_eq!(
            error.message(),
            format!("x found without a preceding v{} version cql file", text)
        );
        assert_eq!(
            error.message(),
            format!("x found without a preceding v{:0>3} version cql file", expected)
        );
    }
}

#[test]
fn digests() {
    assert_eq!(hash_content(&Vec::new()), "d41d8cd98f00b204e9800998ecf8427e");
    assert_eq!(
        hash_content(&b"abcdefghijklmnopqrstuvwxyz".to_vec()),
        "c3fcd3d76192e4007dfb496cca67e13b"
    );
    assert_eq!(to_hex(&vec![0x00, 0x09, 0x0a, 0xf0, 0xff]), "00090af0ff");
    assert_eq!(record("v001.cql").unwrap().hash.len(), 32);
}

#[test]
fn a_file_is_recorded_with_its_path_and_name() {
    let file = record("v001-x.cql").unwrap();
    assert_eq!(file.path, "/m/v001-x.cql");
    assert_eq!(file.to_string(), "v001-x.cql");
    assert_eq!(file.clone().filename, file.filename);
}

#[test]
fn a_file_that_cannot_be_read_is_refused() {
    let file =
        CqlFile::from_path("/m/v001.cql".to_string(), "v001.cql".to_string(), Err("gone".to_string()));
    assert_eq!(file.unwrap_err().message(), "failed reading file v001.cql: gone");
    let file = CqlFile::from_path("/m/x".to_string(), "x".to_string(), Err("gone".to_string()));
    assert_eq!(file.unwrap_err().message(), "x is not a valid cql file name");
}

#[test]
fn a_file_is_recorded_from_its_parts() {
    let of = |version: Option<&str>| {
        CqlFile::from_parts("p".to_string(), "f".to_string(), version.map(|v| v.to_string()), Ok(vec![]))
    };
    assert_eq!(of(Some("-12")).unwrap().version, -12);
    assert_eq!(of(Some("x")).unwrap_err().message(), "Migration file `f` has invalid version `x`");
    assert_eq!(of(None).unwrap_err().message(), "f is not a valid cql file name");
    assert_eq!(of(None).unwrap_err().cause_message(), None);
    for (version, cause) in [
        ("", "cannot parse integer from empty string"),
        ("x", "invalid digit found in string"),
        ("40000", "number too large to fit in target type"),
        ("-40000", "number too small to fit in target type"),
    ] {
        assert_eq!(of(Some(version)).unwrap_err().cause_message(), Some(cause.to_string()));
    }
}

#[test]
fn entries_that_take_part() {
    for name in ["a.cql", "..cql", "a.b.cql", ".a.cql"] {
        assert!(is_inclusive_cql_filename(&entry(name, true)), "{}", name);
        assert!(!is_inclusive_cql_filename(&entry(name, false)), "{}", name);
    }
    for name in ["", ".cql", "_a.cql", "a.CQL", "a.cql.bak", "acql", "cql"] {
        assert!(!is_inclusive_cql_filename(&entry(name, true)), "{}", name);
    }
    let mut nameless = entry("a.cql", true);
    nameless.file_name = None;
    assert!(!is_inclusive_cql_filename(&nameless));
}

#[test]
fn migrations_are_sorted_by_name() {
    let sorted =
        read_cql_file_paths("/m".to_string(), entries(&["b.cql", "a.sh", "B.cql", "a.cql", "a-.cql"]))
            .unwrap();
    let names: Vec<String> = sorted.into_iter().map(|e| e.file_name.unwrap()).collect();
    assert_eq!(names, vec!["B.cql", "a-.cql", "a.cql", "b.cql"]);
}

#[test]
fn migrations_are_sorted_by_the_bytes_of_their_names() {
    // The first name is not text: its byte 0xff is replaced by U+FFFD, which stands in front of
    // U+10000, while 0xff stands behind the bytes of U+10000.
    let mut replaced = entry("\u{fffd}.cql", true);
    replaced.raw_name = vec![0xff, b'.', b'c', b'q', b'l'];
    let listing =
        DirListing::Listed { listed: vec![Ok(replaced), Ok(entry("\u{10000}.cql", true))] };
    assert_eq!(message(listing), "\u{10000}.cql is not a valid cql file name");
    let sorted =
        read_cql_file_paths("/m".to_string(), entries(&["\u{10000}.cql", "\u{fffd}.cql", "z.cql"]))
            .unwrap();
    let names: Vec<String> = sorted.into_iter().map(|e| e.file_name.unwrap()).collect();
    assert_eq!(names, vec!["z.cql", "\u{fffd}.cql", "\u{10000}.cql"]);
}

#[test]
fn versions_count_up_whatever_the_order_of_the_listing() {
    for names in [
        ["v001-c.cql", "v002-b.cql", "v003-a.cql", "_x.cql"],
        ["v003-a.cql", "_x.cql", "v001-c.cql", "v002-b.cql"],
    ] {
        let found = files(&names);
        let versions: Vec<i16> = found.iter().map(|f| f.version).collect();
        let filenames: Vec<&str> = found.iter().map(|f| f.filename.as_str()).collect();
        assert_eq!(versions, vec![1, 2, 3]);
        assert_eq!(filenames, vec!["v001-c.cql", "v002-b.cql", "v003-a.cql"]);
    }
}

#[test]
fn versions_run_up_to_999() {
    let mut names: Vec<String> = (1..1000).map(|n| format!("v{:0>3}.cql", n)).collect();
    let found = files(&names.iter().map(|n| n.as_str()).collect::<Vec<&str>>());
    assert_eq!(found.len(), 999);
    assert_eq!(found[998].version, 999);
    names.push("v999a.cql".to_string());
    assert_eq!(
        message(entries(&names.iter().map(|n| n.as_str()).collect::<Vec<&str>>())),
        "v999.cql and v999a.cql repeat versions instead of incrementing to v1000"
    );
}

#[test]
fn other_entries_do_not_matter_to_the_scan() {
    let names = |listing: DirListing| -> Vec<String> {
        let sorted = read_cql_file_paths("/m".to_string(), listing).unwrap();
        sorted.into_iter().map(|e| e.file_name.unwrap()).collect()
    };
    assert_eq!(
        names(entries(&["b.cql", "_a.cql", "a.cql", "c.sh"])),
        names(entries(&["a.cql", "b.cql"]))
    );
    assert_eq!(
        names(entries(&["b.cql", "_a.cql", "a.cql", "c.sh"])),
        names(entries(&["x.txt", "a.cql", "_b.cql", "b.cql"]))
    );
}

#[test]
fn each_file_keeps_its_own_content() {
    let found = files(&["v002.cql", "v001.cql"]);
    assert_eq!(found[0].hash, hash_content(&b"v001.cql".to_vec()));
    assert_eq!(found[1].hash, hash_content(&b"v002.cql".to_vec()));
    assert_eq!(found[1].path, "/m/v002.cql");
}

#[test]
fn versions_start_at_one() {
    assert_eq!(message(entries(&["v000.cql"])), "Previous index invalid");
    assert_eq!(
        files_from_dir("/m".to_string(), entries(&["v000.cql"])).unwrap_err().cause_message(),
        Some(usize::try_from(-1i16).unwrap_err().to_string())
    );
    assert_eq!(
        files_from_dir("/m".to_string(), entries(&["v002.cql"])).unwrap_err().cause_message(),
        None
    );
    assert_eq!(
        message(entries(&["v002.cql"])),
        "v002.cql found without a preceding v001 version cql file"
    );
    assert_eq!(
        message(entries(&["v001.cql", "v002.cql", "v002a.cql", "v004.cql"])),
        "v002.cql and v002a.cql repeat versions instead of incrementing to v003"
    );
    assert_eq!(
        message(entries(&["v001.cql", "V001.cql"])),
        "V001.cql and v001.cql repeat versions instead of incrementing to v002"
    );
}

#[test]
fn the_first_file_that_fails_is_told() {
    let mut bad = entry("v002.cql", true);
    bad.content = Err("gone".to_string());
    let listing = DirListing::Listed {
        listed: vec![Ok(entry("v004.cql", true)), Ok(bad), Ok(entry("v001.cql", true))],
    };
    assert_eq!(message(listing), "failed reading file v002.cql: gone");
}

#[test]
fn scans_that_fail() {
    let cause = |listing: DirListing| match files_from_dir("/m".to_string(), listing) {
        Err(CqlFileError::ScanFailed { cause }) => cause,
        _ => panic!("should have failed to scan"),
    };
    assert_eq!(cause(DirListing::NotFound).message(), "could not find directory '/m'");
    assert_eq!(cause(entries(&[])).message(), "no cql files found in directory '/m'");
    assert_eq!(cause(entries(&["a.sh"])).message(), "no cql files found in directory '/m'");
    let interrupted = DirListing::Listed {
        listed: vec![
            Ok(entry("v001.cql", true)),
            Err("bad entry".to_string()),
            Ok(entry("v002.cql", true)),
            Err("another".to_string()),
        ],
    };
    assert_eq!(cause(interrupted).message(), "bad entry");
    assert_eq!(message(DirListing::NotFound), "Failed to scan migration directory");
    assert_eq!(
        files_from_dir("/m".to_string(), DirListing::NotFound).unwrap_err().cause_message(),
        Some("could not find directory '/m'".to_string())
    );
    assert!(matches!(cause(DirListing::NotFound), ScanError::DirectoryNotFound { .. }));
}

#[test]
fn a_file_is_taken_up_in_turn() {
    let mut taken: Vec<CqlFile> = Vec::new();
    assert!(take_up(&mut taken, record("v001.cql").unwrap()).is_ok());
    assert!(take_up(&mut taken, record("v003.cql").unwrap()).is_err());
    assert!(take_up(&mut taken, record("v002.cql").unwrap()).is_ok());
    assert_eq!(taken.len(), 2);
}
