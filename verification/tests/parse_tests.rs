use pacman_db_util::Database;
use pacman_db_util::ProgramError;

#[test]
fn round_trip_two_values() {
    let pkg = Database::parse_entry_desc(String::from("%NAME%\npkg\n%KEY%\nA\nB\n")).unwrap();
    assert_eq!(pkg.name(), "pkg");
    let vals = pkg.metadata().get("key").unwrap();
    assert_eq!(vals.len(), 2);
    assert_eq!(vals[0], "A");
    assert_eq!(vals[1], "B");
}

#[test]
fn blank_line_inside_block_dropped() {
    let pkg = Database::parse_entry_desc(String::from("%NAME%\npkg\n%KEY%\nA\n\nB\n")).unwrap();
    let vals = pkg.metadata().get("key").unwrap();
    assert_eq!(vals.len(), 2);
    assert_eq!(vals[0], "A");
    assert_eq!(vals[1], "B");
}

#[test]
fn last_block_without_trailing_marker_committed() {
    let pkg = Database::parse_entry_desc(String::from(
        "%NAME%\npkg\n%DEPENDS%\nlibfoo\nlibbar>=2.0",
    ))
    .unwrap();
    let vals = pkg.metadata().get("depends").unwrap();
    assert_eq!(vals.len(), 2);
    assert_eq!(vals[0], "libfoo");
    assert_eq!(vals[1], "libbar>=2.0");
}

#[test]
fn last_block_with_trailing_newline_committed() {
    let pkg =
        Database::parse_entry_desc(String::from("%NAME%\npkg\n%DEPENDS%\nlibfoo\n")).unwrap();
    let vals = pkg.metadata().get("depends").unwrap();
    assert_eq!(vals.len(), 1);
    assert_eq!(vals[0], "libfoo");
}

#[test]
fn missing_name_block_is_parse_error() {
    let r = Database::parse_entry_desc(String::from("%VERSION%\n1.2.3-1\n"));
    assert!(matches!(r, Err(ProgramError::ParseError)));
}

#[test]
fn empty_name_block_is_parse_error() {
    let r = Database::parse_entry_desc(String::from("%NAME%\n%VERSION%\n1.2.3-1\n"));
    assert!(matches!(r, Err(ProgramError::ParseError)));
}

#[test]
fn empty_text_is_parse_error() {
    let r = Database::parse_entry_desc(String::new());
    assert!(matches!(r, Err(ProgramError::ParseError)));
}

#[test]
fn keys_are_lowercased() {
    let pkg = Database::parse_entry_desc(String::from("%NaMe%\npkg\n%VERSION%\n1.0\n")).unwrap();
    assert_eq!(pkg.name(), "pkg");
    assert!(pkg.metadata().get("version").is_some());
    assert!(pkg.metadata().get("VERSION").is_none());
}

#[test]
fn every_percent_is_stripped_from_the_key() {
    let pkg = Database::parse_entry_desc(String::from("%%NAME%%\npkg\n")).unwrap();
    assert_eq!(pkg.name(), "pkg");
    assert!(pkg.metadata().get("name").is_some());
}

#[test]
fn lines_before_first_marker_are_dropped() {
    let pkg = Database::parse_entry_desc(String::from("stray\n%NAME%\npkg\n")).unwrap();
    let keys = pkg.keys();
    assert_eq!(keys.len(), 1);
    assert_eq!(keys[0], "name");
    let vals = pkg.metadata().get("name").unwrap();
    assert_eq!(vals.len(), 1);
    assert_eq!(vals[0], "pkg");
}

#[test]
fn keys_in_order_of_first_appearance() {
    let pkg = Database::parse_entry_desc(String::from(
        "%NAME%\npkg\n%ZULU%\nz\n%ALPHA%\na\n",
    ))
    .unwrap();
    let keys = pkg.keys();
    assert_eq!(keys.len(), 3);
    assert_eq!(keys[0], "name");
    assert_eq!(keys[1], "zulu");
    assert_eq!(keys[2], "alpha");
}

#[test]
fn repeated_key_keeps_last_values() {
    let pkg = Database::parse_entry_desc(String::from(
        "%NAME%\npkg\n%KEY%\nfirst\n%KEY%\nsecond\n",
    ))
    .unwrap();
    let vals = pkg.metadata().get("key").unwrap();
    assert_eq!(vals.len(), 1);
    assert_eq!(vals[0], "second");
    assert_eq!(pkg.keys().len(), 2);
}

#[test]
fn crlf_lines_are_tolerated() {
    let pkg = Database::parse_entry_desc(String::from("%NAME%\r\npkg\r\n")).unwrap();
    assert_eq!(pkg.name(), "pkg");
}

#[test]
fn error_descriptions() {
    assert_eq!(ProgramError::NotFound.describe(), "file not found");
    assert_eq!(ProgramError::IoError.describe(), "an io error occurred");
    assert_eq!(
        ProgramError::DecodeError.describe(),
        "the database could not be decompressed"
    );
    assert_eq!(
        ProgramError::ArchiveError.describe(),
        "the database archive is corrupt"
    );
    assert_eq!(
        ProgramError::ParseError.describe(),
        "a package descriptor is malformed"
    );
}
