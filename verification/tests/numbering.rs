use umber::{line_number_width, number_plain_text, show_unprintable, write_numbered_bytes, write_prefix};

#[test]
fn widths_count_digits() {
    assert_eq!(line_number_width(0), 1);
    assert_eq!(line_number_width(9), 1);
    assert_eq!(line_number_width(10), 2);
    assert_eq!(line_number_width(12345), 5);
    assert_eq!(line_number_width(usize::MAX), usize::MAX.to_string().len());
}

#[test]
fn prefix_right_aligns_number() {
    let mut out = Vec::new();
    write_prefix(&mut out, 7, 3);
    assert_eq!(out, b"  7  ".to_vec());
    let mut out = Vec::new();
    write_prefix(&mut out, 1234, 2);
    assert_eq!(out, b"1234  ".to_vec());
}

#[test]
fn numbers_byte_lines() {
    let mut out = Vec::new();
    write_numbered_bytes(&mut out, b"a\nb\n", 9);
    assert_eq!(String::from_utf8(out).unwrap(), " 9  a\n10  b\n");
    let mut out = Vec::new();
    write_numbered_bytes(&mut out, b"a\n\nb", 1);
    assert_eq!(String::from_utf8(out).unwrap(), "1  a\n2  \n3  b");
    let mut out = b"keep".to_vec();
    write_numbered_bytes(&mut out, b"", 1);
    assert_eq!(out, b"keep".to_vec());
}

#[test]
fn numbers_text_lines() {
    assert_eq!(number_plain_text("x y", 1, false), "1  x y");
    assert_eq!(number_plain_text("a\tb\n", 1, true), "1  a\u{2192}b\u{240A}\n");
    assert_eq!(number_plain_text("", 5, true), "");
    assert_eq!(number_plain_text("p\nq\n", 99, false), " 99  p\n100  q\n");
}

#[test]
fn shows_unprintable_characters() {
    assert_eq!(
        show_unprintable("a b\r\n\u{1b}\u{0}\u{7f}\u{1f}"),
        "a\u{00B7}b\u{21B5}\u{240A}\n\u{241B}\u{2400}\u{2421}\u{241F}"
    );
    assert_eq!(show_unprintable("plain"), "plain");
}

#[test]
fn margins_share_one_width() {
    let text = "a\nb\nc\n";
    let numbered = number_plain_text(text, 9, false);
    assert_eq!(numbered, " 9  a\n10  b\n11  c\n");
    let widths: Vec<usize> = numbered.lines().map(|l| l.len() - 1).collect();
    assert!(widths.iter().all(|w| *w == widths[0]));
}

#[test]
fn shown_text_is_visible_and_keeps_line_breaks() {
    let text = "a b\t\u{1}\u{7f}\r\nx\n";
    let shown = show_unprintable(text);
    assert_eq!(shown, "a\u{00B7}b\u{2192}\u{2401}\u{2421}\u{21B5}\u{240A}\nx\u{240A}\n");
    assert!(shown.chars().all(|c| c == '\n' || (c != ' ' && (c as u32) >= 0x20 && (c as u32) != 0x7f)));
    assert_eq!(shown.matches('\n').count(), text.matches('\n').count());
}

#[test]
fn numbering_bytes_matches_numbering_text() {
    for text in ["", "a", "héllo\nwörld\n", "x\n\ny", "\n"] {
        let mut out = Vec::new();
        write_numbered_bytes(&mut out, text.as_bytes(), 98);
        assert_eq!(out, number_plain_text(text, 98, false).into_bytes());
    }
}

#[test]
fn margins_come_off() {
    let mut out = Vec::new();
    write_numbered_bytes(&mut out, b"one\ntwo\n", 9);
    let text = String::from_utf8(out).unwrap();
    let stripped: String = text.split_inclusive('\n').map(|l| &l[4..]).collect();
    assert_eq!(stripped, "one\ntwo\n");
}
