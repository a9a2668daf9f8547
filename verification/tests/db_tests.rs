use pacman_db_util::Database;
use pacman_db_util::ProgramError;
use std::io::Write;

fn tar_bytes(entries: &[(&str, &[u8])]) -> Vec<u8> {
    let mut builder = tar::Builder::new(Vec::new());
    for (path, data) in entries {
        let mut header = tar::Header::new_gnu();
        header.set_size(data.len() as u64);
        header.set_mode(0o644);
        header.set_cksum();
        builder.append_data(&mut header, *path, *data).unwrap();
    }
    builder.into_inner().unwrap()
}

fn zstd_of(bytes: &[u8]) -> Vec<u8> {
    zstd::stream::encode_all(std::io::Cursor::new(bytes), 0).unwrap()
}

fn gzip_of(bytes: &[u8]) -> Vec<u8> {
    let mut enc = flate2::write::GzEncoder::new(Vec::new(), flate2::Compression::default());
    enc.write_all(bytes).unwrap();
    enc.finish().unwrap()
}

const DESC_FOO: &[u8] = b"%NAME%\nfoo\n%VERSION%\n1.2.3-1\n%DEPENDS%\nlibfoo\nlibbar>=2.0\n";
const DESC_BAR: &[u8] = b"%NAME%\nbar\n%VERSION%\n0.9-2\n";

#[test]
fn zstd_archive_loads_all_desc_entries() {
    let tar = tar_bytes(&[
        ("foo-1.2.3-1/desc", DESC_FOO),
        ("foo-1.2.3-1/files", b"not a descriptor"),
        ("bar-0.9-2/desc", DESC_BAR),
    ]);
    let db = Database::from_bytes(String::from("core.db"), &zstd_of(&tar)).unwrap();
    assert_eq!(db.packages().len(), 2);
    assert_eq!(db.file().as_str(), "core.db");
    let foo = db.lookup("foo").unwrap();
    assert_eq!(foo.name(), "foo");
    let deps = foo.metadata().get("depends").unwrap();
    assert_eq!(deps.len(), 2);
    assert_eq!(deps[0], "libfoo");
    assert_eq!(deps[1], "libbar>=2.0");
}

#[test]
fn gzip_fallback_yields_identical_packages() {
    let tar = tar_bytes(&[("foo-1.2.3-1/desc", DESC_FOO), ("bar-0.9-2/desc", DESC_BAR)]);
    let from_zstd = Database::from_bytes(String::from("a.db"), &zstd_of(&tar)).unwrap();
    let from_gzip = Database::from_bytes(String::from("a.db"), &gzip_of(&tar)).unwrap();
    assert_eq!(from_zstd.packages().len(), from_gzip.packages().len());
    let mut names_z: Vec<String> = from_zstd.names().clone();
    let mut names_g: Vec<String> = from_gzip.names().clone();
    names_z.sort();
    names_g.sort();
    assert_eq!(names_z, names_g);
    for name in &names_z {
        let pz = from_zstd.lookup(name).unwrap();
        let pg = from_gzip.lookup(name).unwrap();
        assert_eq!(pz.keys(), pg.keys());
        for key in pz.keys() {
            assert_eq!(pz.metadata().get(key), pg.metadata().get(key));
        }
    }
}

#[test]
fn lookup_of_absent_name_is_none() {
    let tar = tar_bytes(&[("foo-1.2.3-1/desc", DESC_FOO)]);
    let db = Database::from_bytes(String::from("core.db"), &zstd_of(&tar)).unwrap();
    assert!(db.lookup("no-such-package").is_none());
    assert!(db.lookup("").is_none());
}

#[test]
fn duplicate_names_keep_only_the_last_record() {
    let first: &[u8] = b"%NAME%\nfoo\n%VERSION%\n1.0-1\n";
    let second: &[u8] = b"%NAME%\nfoo\n%VERSION%\n2.0-1\n";
    let tar = tar_bytes(&[("foo-1.0-1/desc", first), ("foo-2.0-1/desc", second)]);
    let db = Database::from_bytes(String::from("core.db"), &zstd_of(&tar)).unwrap();
    assert_eq!(db.packages().len(), 1);
    let vals = db.lookup("foo").unwrap().metadata().get("version").unwrap();
    assert_eq!(vals.len(), 1);
    assert_eq!(vals[0], "2.0-1");
}

#[test]
fn non_desc_entries_are_skipped_without_error() {
    let tar = tar_bytes(&[
        ("foo-1.2.3-1/desc", DESC_FOO),
        ("foo-1.2.3-1/descx", b"%NAME%\nwrong\n"),
        ("bar-0.9-2/sig", b"binary junk"),
    ]);
    let db = Database::from_bytes(String::from("core.db"), &zstd_of(&tar)).unwrap();
    assert_eq!(db.packages().len(), 1);
    assert!(db.lookup("wrong").is_none());
}

#[test]
fn desc_entry_at_archive_root_is_read() {
    let tar = tar_bytes(&[("desc", DESC_BAR)]);
    let db = Database::from_bytes(String::from("core.db"), &zstd_of(&tar)).unwrap();
    assert_eq!(db.packages().len(), 1);
    assert_eq!(db.lookup("bar").unwrap().name(), "bar");
}

#[test]
fn garbage_input_is_decode_error() {
    let r = Database::from_bytes(String::from("core.db"), b"this is neither format");
    assert!(matches!(r, Err(ProgramError::DecodeError)));
}

#[test]
fn valid_compression_of_garbage_is_archive_error() {
    let junk = [0xffu8; 1024];
    let r = Database::from_bytes(String::from("core.db"), &zstd_of(&junk));
    assert!(matches!(r, Err(ProgramError::ArchiveError)));
}

#[test]
fn empty_input_loads_empty_or_fails_cleanly() {
    match Database::from_bytes(String::from("core.db"), b"") {
        Ok(db) => assert_eq!(db.packages().len(), 0),
        Err(e) => assert!(matches!(e, ProgramError::DecodeError)),
    }
}

#[test]
fn bad_descriptor_aborts_the_whole_load() {
    let tar = tar_bytes(&[
        ("foo-1.2.3-1/desc", DESC_FOO),
        ("broken/desc", b"%VERSION%\n1.0\n"),
    ]);
    let r = Database::from_bytes(String::from("core.db"), &zstd_of(&tar));
    assert!(matches!(r, Err(ProgramError::ParseError)));
}

#[test]
fn invalid_utf8_descriptor_is_parse_error() {
    let bad: &[u8] = b"%NAME%\n\xff\xfe\n";
    let tar = tar_bytes(&[("broken/desc", bad)]);
    let r = Database::from_bytes(String::from("core.db"), &zstd_of(&tar));
    assert!(matches!(r, Err(ProgramError::ParseError)));
}

#[test]
fn names_lists_each_package_once() {
    let tar = tar_bytes(&[
        ("foo-1.2.3-1/desc", DESC_FOO),
        ("bar-0.9-2/desc", DESC_BAR),
        ("foo-again/desc", b"%NAME%\nfoo\n%VERSION%\n9\n"),
    ]);
    let db = Database::from_bytes(String::from("core.db"), &zstd_of(&tar)).unwrap();
    let mut names: Vec<String> = db.names().clone();
    names.sort();
    assert_eq!(names, vec![String::from("bar"), String::from("foo")]);
}

#[test]
fn multi_member_gzip_is_accepted() {
    let tar = tar_bytes(&[("foo-1.2.3-1/desc", DESC_FOO)]);
    let mid = tar.len() / 2;
    let mut bytes = gzip_of(&tar[..mid]);
    bytes.extend_from_slice(&gzip_of(&tar[mid..]));
    let db = Database::from_bytes(String::from("core.db"), &bytes).unwrap();
    assert_eq!(db.packages().len(), 1);
}
