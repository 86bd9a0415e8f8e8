use transcribe_stream::filter::{clean, strip_csi, trim_whitespace};

#[test]
fn strip_removes_erase_line_code() {
    let out = strip_csi(b"Hel\x1b[2Klo");
    assert_eq!(out, b"Hello".to_vec());
}

#[test]
fn strip_removes_color_codes() {
    let out = strip_csi(b"\x1b[1;32mok\x1b[0m");
    assert_eq!(out, b"ok".to_vec());
}

#[test]
fn strip_keeps_plain_text() {
    let out = strip_csi(b"plain text, no escapes");
    assert_eq!(out, b"plain text, no escapes".to_vec());
}

#[test]
fn strip_keeps_unterminated_sequence() {
    let out = strip_csi(b"\x1b[12");
    assert_eq!(out, b"\x1b[12".to_vec());
}

#[test]
fn strip_keeps_escape_without_bracket() {
    let out = strip_csi(b"a\x1bb");
    assert_eq!(out, b"a\x1bb".to_vec());
}

#[test]
fn strip_handles_intermediate_bytes() {
    // parameters `0`, intermediate space, final `@`
    let out = strip_csi(b"x\x1b[0 @y");
    assert_eq!(out, b"xy".to_vec());
}

#[test]
fn strip_twice_equals_once() {
    let input: &[u8] = b" \x1b[2K one \x1b[1;31mtwo\x1b[0m three ";
    let once = strip_csi(input);
    let twice = strip_csi(once.as_slice());
    assert_eq!(twice, once);
}

#[test]
fn trim_removes_surrounding_whitespace() {
    let out = trim_whitespace(b" \t hi there \r\n");
    assert_eq!(out, b"hi there".to_vec());
}

#[test]
fn trim_removes_unicode_whitespace() {
    let out = trim_whitespace("\u{a0}\u{2003} hi\u{a0}there \u{3000}\u{2028}".as_bytes());
    assert_eq!(out, "hi\u{a0}there".as_bytes().to_vec());
}

#[test]
fn trim_matches_str_trim() {
    for text in [
        " a ",
        "\u{a0}b\u{a0}",
        "\u{85}\u{1680}c\u{2000}\u{200a}",
        "\u{2028}\u{2029}d\u{202f}\u{205f}\u{3000}",
        "\u{200b}e\u{200b}",
        "",
        "\t\r\n \u{a0}",
    ] {
        let out = trim_whitespace(text.as_bytes());
        assert_eq!(out, text.trim().as_bytes().to_vec());
    }
}

#[test]
fn trim_of_all_whitespace_is_empty() {
    let out = trim_whitespace(" \t\r\n \u{a0}\u{2009}".as_bytes());
    assert_eq!(out, Vec::<u8>::new());
}

#[test]
fn trim_of_empty_is_empty() {
    let out = trim_whitespace(b"");
    assert_eq!(out, Vec::<u8>::new());
}

#[test]
fn clean_twice_equals_once() {
    let input: &[u8] = b" \x1b[2K one two \x1b[0m ";
    let once = clean(input);
    let twice = clean(once.as_slice());
    assert_eq!(twice, once);
}

#[test]
fn clean_strips_then_trims() {
    let out = clean(b" \x1b[2K hi \x1b[0m ");
    assert_eq!(out, b"hi".to_vec());
}
