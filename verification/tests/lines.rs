use jlh::line::{RawLine, CARRIAGE_RETURN, LINE_FEED};

fn text_of(line: &RawLine) -> Option<&str> {
    match line {
        RawLine::Text(text) => Some(text.as_str()),
        RawLine::Unreadable(_) => None,
    }
}

#[test]
fn terminator_bytes() {
    assert_eq!(LINE_FEED, b'\n');
    assert_eq!(CARRIAGE_RETURN, b'\r');
}

#[test]
fn line_feed_is_dropped() {
    let line = RawLine::from_bytes(b"{\"type\":\"a\"}\n".to_vec());
    assert_eq!(text_of(&line), Some("{\"type\":\"a\"}"));
    assert_eq!(line.byte_len(), 12);
}

#[test]
fn carriage_return_before_line_feed_is_dropped() {
    let line = RawLine::from_bytes(b"abc\r\n".to_vec());
    assert_eq!(text_of(&line), Some("abc"));
    assert_eq!(line.byte_len(), 3);
}

#[test]
fn only_one_terminator_is_dropped() {
    let line = RawLine::from_bytes(b"abc\n\n".to_vec());
    assert_eq!(text_of(&line), Some("abc\n"));
    let line = RawLine::from_bytes(b"abc\r\r\n".to_vec());
    assert_eq!(text_of(&line), Some("abc\r"));
    let line = RawLine::from_bytes(b"abc\n\r".to_vec());
    assert_eq!(text_of(&line), Some("abc\n\r"));
}

#[test]
fn last_line_needs_no_terminator() {
    let line = RawLine::from_bytes(b"abc".to_vec());
    assert_eq!(text_of(&line), Some("abc"));
    assert_eq!(line.byte_len(), 3);
    let line = RawLine::from_bytes(b"abc\r".to_vec());
    assert_eq!(text_of(&line), Some("abc\r"));
    assert_eq!(line.byte_len(), 4);
}

#[test]
fn empty_lines() {
    for raw in [&b""[..], &b"\n"[..], &b"\r\n"[..]] {
        let line = RawLine::from_bytes(raw.to_vec());
        assert_eq!(text_of(&line), Some(""));
        assert_eq!(line.byte_len(), 0);
    }
}

#[test]
fn bytes_are_counted_not_characters() {
    let line = RawLine::from_bytes("h\u{e9}llo \u{1f600}\n".as_bytes().to_vec());
    assert_eq!(text_of(&line), Some("h\u{e9}llo \u{1f600}"));
    assert_eq!(line.byte_len(), 11);
    assert_eq!(RawLine::Text(String::from("\u{e9}")).byte_len(), 2);
}

#[test]
fn bytes_that_are_not_utf8_make_an_unreadable_line() {
    let line = RawLine::from_bytes(vec![b'{', 0xff, 0xfe, b'}', b'\r', b'\n']);
    assert!(matches!(line, RawLine::Unreadable(4)));
    assert_eq!(line.byte_len(), 4);
    let line = RawLine::from_bytes(vec![0xc3]);
    assert!(matches!(line, RawLine::Unreadable(1)));
    let line = RawLine::from_bytes(vec![0xed, 0xa0, 0x80, b'\n']);
    assert!(matches!(line, RawLine::Unreadable(3)));
}

#[test]
fn unreadable_line_keeps_its_length() {
    assert_eq!(RawLine::Unreadable(0).byte_len(), 0);
    assert_eq!(RawLine::Unreadable(usize::MAX).byte_len(), usize::MAX);
}
