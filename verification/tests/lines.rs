use codegraide::lines::{count_file, LineCounts};

fn count(source: &str, language: &str) -> LineCounts {
    count_file(source.as_bytes(), language)
}

#[test]
fn counts_python_code_comments_and_blank_lines() {
    let counts = count("# comment\n\nvalue = 1 # trailing\n", "python");

    assert_eq!(counts.total, 3);
    assert_eq!(counts.source, 1);
    assert_eq!(counts.comment, 1);
    assert_eq!(counts.blank, 1);
}

#[test]
fn treats_python_strings_and_docstrings_as_source() {
    let counts = count("\"\"\"doc\n# text\n\"\"\"\n", "python");

    assert_eq!(counts.total, 3);
    assert_eq!(counts.source, 3);
    assert_eq!(counts.comment, 0);
    assert_eq!(counts.blank, 0);
}

#[test]
fn counts_c_like_block_comments_and_mixed_lines() {
    let counts = count("/* start\n\nend */\nint x = 1; // note\n", "cpp");

    assert_eq!(counts.total, 4);
    assert_eq!(counts.source, 1);
    assert_eq!(counts.comment, 3);
    assert_eq!(counts.blank, 0);
}

#[test]
fn ignores_comment_markers_inside_strings() {
    let counts = count("const char* x = \"// not a comment\";\n", "rust");

    assert_eq!(counts.total, 1);
    assert_eq!(counts.source, 1);
    assert_eq!(counts.comment, 0);
    assert_eq!(counts.blank, 0);
}

#[test]
fn handles_rust_raw_strings() {
    let counts = count("let x = r#\"// text\n/* text */\"#;\n", "rust");

    assert_eq!(counts.total, 2);
    assert_eq!(counts.source, 2);
    assert_eq!(counts.comment, 0);
}

#[test]
fn handles_cpp_raw_strings_with_delimiters() {
    let counts = count("auto x = R\"tag(// text\n/* text */)tag\";\n", "cpp");

    assert_eq!(counts.total, 2);
    assert_eq!(counts.source, 2);
    assert_eq!(counts.comment, 0);
}

#[test]
fn an_empty_file_has_no_physical_lines() {
    assert_eq!(count("", "python").total, 0);
}

#[test]
fn a_last_line_without_newline_still_counts() {
    let counts = count("x = 1\n\ny = 2", "python");
    assert_eq!(counts.files, 1);
    assert_eq!(counts.total, 3);
    assert_eq!(counts.source, 2);
    assert_eq!(counts.blank, 1);
}

#[test]
fn line_counts_add_field_by_field() {
    let mut a = count("# c\nx\n", "python");
    let b = count("\n", "rust");
    a.add(b);
    assert_eq!(a.files, 2);
    assert_eq!(a.total, 3);
    assert_eq!(a.source, 1);
    assert_eq!(a.comment, 1);
    assert_eq!(a.blank, 1);
    assert_eq!(a.total, a.source + a.comment + a.blank);
}
