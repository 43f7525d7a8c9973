use codegraide::report::percent_encode_path;

fn decode(text: &str) -> Vec<u8> {
    let bytes = text.as_bytes();
    let mut out = Vec::new();
    let mut i = 0;
    while i < bytes.len() {
        if bytes[i] == b'%' {
            out.push(u8::from_str_radix(&text[i + 1..i + 3], 16).expect("hex"));
            i += 3;
        } else {
            out.push(bytes[i]);
            i += 1;
        }
    }
    out
}

#[test]
fn json_paths_encode_non_utf8_and_percent_bytes_losslessly() {
    assert_eq!(percent_encode_path(b"dir/mod%\\\xFF.rs"), "dir/mod%25%5C%FF.rs");
}

#[test]
fn well_formed_characters_are_kept_and_broken_sequences_escaped() {
    assert_eq!(percent_encode_path("dir/é/ü.py".as_bytes()), "dir/é/ü.py");
    assert_eq!(percent_encode_path(b"a\xF0\x9F\x98b"), "a%F0%9F%98b");
    assert_eq!(percent_encode_path(b"\xC3"), "%C3");
    assert_eq!(percent_encode_path(b""), "");
    assert_eq!(percent_encode_path(b"100%/x\\y"), "100%25/x%5Cy");
}

#[test]
fn encoded_paths_decode_to_the_original_bytes() {
    for bytes in [
        b"dir/mod%\\\xFF.rs".to_vec(),
        "naïve/日本.cpp".as_bytes().to_vec(),
        vec![0xED, 0xA0, 0x80, b'/', 0xC0, 0xAF, b'%', b'2', b'5'],
        vec![0xF4, 0x90, 0x80, 0x80, 0x7F],
    ] {
        assert_eq!(decode(&percent_encode_path(&bytes)), bytes);
    }
}
