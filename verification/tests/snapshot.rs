use codegraide::snapshot::{
    add_snapshot_bytes, check_blob_size, check_byte_range, check_reference_blob, parse_renames,
    snapshot_exclusion, snapshot_source, tree_entry, SourceReference,
};

fn oid(c: char) -> String {
    std::iter::repeat(c).take(40).collect()
}

fn hex(path: &str) -> String {
    path.bytes().map(|b| format!("{b:02x}")).collect()
}

fn text(start: &str, end: &str, path_hex: &str) -> String {
    format!("rc1:{}:{}:{start}:{end}:{path_hex}", oid('a'), oid('b'))
}

fn error(text: &str) -> String {
    SourceReference::parse(text).expect_err("invalid reference").0
}

#[test]
fn encode_writes_the_path_as_lowercase_hex() {
    let reference = SourceReference {
        commit: oid('a'),
        object: oid('b'),
        path: "src/main.cpp".to_owned(),
        start: 3,
        end: 10,
    };
    assert_eq!(
        reference.encode(),
        format!("rc1:{}:{}:3:10:7372632f6d61696e2e637070", oid('a'), oid('b'))
    );
}

#[test]
fn parse_reads_back_what_encode_writes() {
    let reference = SourceReference {
        commit: "0123456789abcdef0123456789ABCDEF01234567".to_owned(),
        object: "e".repeat(64),
        path: "dir/ünï côde.py".to_owned(),
        start: 0,
        end: usize::MAX,
    };
    let parsed = SourceReference::parse(&reference.encode()).expect("round trip");
    assert_eq!(parsed.commit, reference.commit);
    assert_eq!(parsed.object, reference.object);
    assert_eq!(parsed.path, reference.path);
    assert_eq!(parsed.start, reference.start);
    assert_eq!(parsed.end, reference.end);
}

#[test]
fn offsets_accept_a_plus_sign() {
    let parsed = SourceReference::parse(&text("+4", "7", &hex("a.cpp"))).expect("plus sign");
    assert_eq!((parsed.start, parsed.end), (4, 7));
}

#[test]
fn malformed_references_are_rejected() {
    let malformed = "invalid rc1 symbol reference; copy the complete reference from JSON";
    assert_eq!(error("rc1:abc"), malformed);
    assert_eq!(error(&text("1", "2", &hex("a.cpp")).replacen("rc1", "rc2", 1)), malformed);
    assert_eq!(error(&text("1", "2", "616")), malformed);
    assert_eq!(error(&text("1", "2", "zz")), malformed);
    assert_eq!(error(&format!("rc1:{}:{}:1:2:61", "a".repeat(39), oid('b'))), malformed);
    assert_eq!(error(&format!("{}:extra", text("1", "2", "61"))), malformed);
}

#[test]
fn paths_must_be_utf8_and_repository_relative() {
    assert_eq!(error(&text("1", "2", "ff")), "Git paths must be UTF-8");
    for path in ["", "/etc/passwd", "../x", "a/../b", "./a", "."] {
        assert_eq!(
            error(&text("1", "2", &hex(path))),
            "reference path must be repository-relative",
            "{path}"
        );
    }
    assert!(SourceReference::parse(&text("1", "2", &hex("a/./b"))).is_ok());
    assert!(SourceReference::parse(&text("1", "2", &hex("a//b/"))).is_ok());
}

#[test]
fn offsets_must_be_numbers_in_order() {
    assert_eq!(error(&text("x", "2", &hex("a"))), "invalid reference offset");
    assert_eq!(error(&text("", "2", &hex("a"))), "invalid reference offset");
    assert_eq!(error(&text("1", "-2", &hex("a"))), "invalid reference offset");
    assert_eq!(
        error(&text("1", "99999999999999999999999", &hex("a"))),
        "invalid reference offset"
    );
    assert_eq!(error(&text("9", "2", &hex("a"))), "reference range is reversed");
}

#[test]
fn tree_entries_split_mode_object_and_path() {
    let (mode, object, path) =
        tree_entry(b"100644 blob 0123abcd\tsrc/a file.cpp").expect("entry");
    assert_eq!(mode, "100644");
    assert_eq!(object, "0123abcd");
    assert_eq!(path, "src/a file.cpp");
    let (mode, object, path) = tree_entry(b"  160000   commit  beef\tvendor\tlib").expect("entry");
    assert_eq!((mode.as_str(), object.as_str(), path.as_str()), ("160000", "beef", "vendor\tlib"));
    assert_eq!(tree_entry(b"100644 blob abc").expect_err("no tab").0, "invalid Git tree entry");
    assert_eq!(tree_entry(b"100644 blob\tpath").expect_err("no object").0, "invalid Git tree object");
    assert_eq!(tree_entry(&[0xff, b'\t']).expect_err("bytes").0, "Git paths must be UTF-8");
}

#[test]
fn renames_pair_old_and_new_paths() {
    let output = b"M\0src/a.cpp\0R100\0old.cpp\0new.cpp\0\0C075\0x.cpp\0y.cpp\0A\0b.cpp\0";
    let renames = parse_renames(output).expect("renames");
    assert_eq!(renames, vec![("old.cpp".to_owned(), "new.cpp".to_owned())]);
    assert_eq!(parse_renames(b"").expect("empty"), Vec::new());
    assert_eq!(parse_renames(b"M\0").expect_err("path").0, "invalid Git diff path");
    assert_eq!(parse_renames(b"R090\0a\0").expect_err("rename").0, "invalid Git rename");
    assert_eq!(
        parse_renames(b"R090\0\xff\0b\0").expect_err("utf8").0,
        "Git paths must be UTF-8"
    );
}

#[test]
fn snapshots_read_only_regular_cpp_files() {
    assert_eq!(snapshot_exclusion("120000", "src/a.cpp"), Some("non-regular-file"));
    assert_eq!(snapshot_exclusion("100644", "src/a.py"), Some("unsupported-file"));
    assert_eq!(snapshot_exclusion("100755", "README"), Some("unsupported-file"));
    assert_eq!(snapshot_exclusion("100644", "src/a.cpp"), None);
    assert_eq!(snapshot_exclusion("100755", "include/a.HPP"), None);
}

#[test]
fn snapshot_totals_respect_the_limit() {
    assert_eq!(add_snapshot_bytes(10, 5, 15).expect("within"), 15);
    assert_eq!(
        add_snapshot_bytes(10, 6, 15).expect_err("over").0,
        "snapshot exceeds --max-input-bytes 15; increase the limit explicitly"
    );
    assert_eq!(
        add_snapshot_bytes(usize::MAX, 1, usize::MAX).expect_err("overflow").0,
        "snapshot size overflow"
    );
    assert!(check_blob_size(15, 15).is_ok());
    assert_eq!(
        check_blob_size(16, 15).expect_err("over").0,
        "source blob exceeds --max-input-bytes 15"
    );
}

#[test]
fn snapshot_sources_are_utf8_without_zero_characters() {
    assert_eq!(snapshot_source("int x;".as_bytes()), Some("int x;".to_owned()));
    assert_eq!(snapshot_source(b"a\0b"), None);
    assert_eq!(snapshot_source(&[0xc3]), None);
}

#[test]
fn referenced_blobs_and_ranges_are_checked() {
    let reference = SourceReference {
        commit: oid('a'),
        object: oid('b'),
        path: "src/a.cpp".to_owned(),
        start: 0,
        end: 2,
    };
    assert!(check_reference_blob(&reference, "100644", &oid('b'), "src/a.cpp").is_ok());
    for (mode, object, path) in [
        ("120000", oid('b'), "src/a.cpp"),
        ("100644", oid('c'), "src/a.cpp"),
        ("100644", oid('b'), "src/b.cpp"),
    ] {
        assert_eq!(
            check_reference_blob(&reference, mode, &object, path).expect_err("mismatch").0,
            "reference does not match the snapshot blob"
        );
    }
    let source = "aé b";
    assert!(check_byte_range(source, 0, 1).is_ok());
    assert!(check_byte_range(source, 1, 3).is_ok());
    assert!(check_byte_range(source, 5, 5).is_ok());
    assert_eq!(check_byte_range(source, 2, 3).expect_err("boundary").0, "invalid reference byte range");
    assert!(check_byte_range(source, 3, 1).is_err());
    assert!(check_byte_range(source, 0, 6).is_err());
}
