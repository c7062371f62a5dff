use umber::{emit_bytes, render_unhighlighted, wants_git_changes, DecorationConfig, EmitSettings, LineRange};

fn settings(use_color: bool, numbers: bool, show_all: bool) -> EmitSettings {
    EmitSettings {
        decoration_config: DecorationConfig { show_numbers: numbers, show_changes: false, show_headers: false },
        use_color,
        squeeze_blank: false,
        squeeze_limit: 1,
        show_all,
    }
}

#[test]
fn plain_output_is_unchanged() {
    let mut out = Vec::new();
    let r = emit_bytes(&mut out, b"a\nb\n".to_vec(), None, &settings(false, false, false));
    assert_eq!(out, b"a\nb\n".to_vec());
    assert!(r.ended_with_newline);
    assert!(r.highlight.is_none());
}

#[test]
fn plain_output_shows_unprintable() {
    let mut out = Vec::new();
    let r = emit_bytes(&mut out, b"a b".to_vec(), None, &settings(false, false, true));
    assert_eq!(String::from_utf8(out).unwrap(), "a\u{00B7}b");
    assert!(!r.ended_with_newline);
}

#[test]
fn coloured_text_goes_to_highlighter() {
    let mut out = Vec::new();
    let r = emit_bytes(&mut out, b"1\n2\n3\n".to_vec(), Some(LineRange { start: 2, end: 3 }), &settings(true, false, false));
    assert!(out.is_empty());
    let job = r.highlight.expect("text to highlight");
    assert_eq!(job.text, "2\n3\n");
    assert_eq!(job.line_number_start, 2);
    assert!(r.ended_with_newline);
}

#[test]
fn coloured_invalid_utf8_is_numbered_or_shown() {
    let mut out = Vec::new();
    emit_bytes(&mut out, vec![b'a', 0xff, b'\n'], None, &settings(true, true, false));
    assert_eq!(out, vec![b'1', b' ', b' ', b'a', 0xff, b'\n']);

    let mut out = Vec::new();
    emit_bytes(&mut out, vec![b'a', 0xff, b'\n'], None, &settings(true, false, true));
    assert_eq!(String::from_utf8(out).unwrap(), "a\u{FFFD}\u{240A}\n");

    let mut out = Vec::new();
    emit_bytes(&mut out, vec![0xfe], None, &settings(true, false, false));
    assert_eq!(out, vec![0xfe]);
}

#[test]
fn numbered_plain_output() {
    let mut out = Vec::new();
    emit_bytes(&mut out, b"x\ty\n".to_vec(), Some(LineRange { start: 9, end: 9 }), &settings(false, true, false));
    assert!(out.is_empty());

    let mut out = Vec::new();
    emit_bytes(&mut out, b"x\ty\nz".to_vec(), None, &settings(false, true, true));
    assert_eq!(String::from_utf8(out).unwrap(), "1  x\u{2192}y\u{240A}\n2  z");

    let mut out = Vec::new();
    emit_bytes(&mut out, b"x\ty\nz".to_vec(), None, &settings(false, true, false));
    assert_eq!(String::from_utf8(out).unwrap(), "1  x\ty\n2  z");
}

#[test]
fn squeezes_before_writing() {
    let mut s = settings(false, false, false);
    s.squeeze_blank = true;
    s.squeeze_limit = 1;
    let mut out = Vec::new();
    let r = emit_bytes(&mut out, b"a\n\n\n\n".to_vec(), None, &s);
    assert_eq!(out, b"a\n\n".to_vec());
    assert!(r.ended_with_newline);
    let mut out = Vec::new();
    let r = emit_bytes(&mut out, Vec::new(), None, &s);
    assert!(out.is_empty() && r.ended_with_newline);
}

#[test]
fn unhighlighted_fallback() {
    assert_eq!(render_unhighlighted("a\nb", 1, true, false), "1  a\n2  b");
    assert_eq!(render_unhighlighted("a b", 1, false, true), "a\u{00B7}b");
    assert_eq!(render_unhighlighted("a b", 1, false, false), "a b");
}

#[test]
fn git_changes_only_for_files() {
    assert!(wants_git_changes(true, Some("src/main.rs")));
    assert!(!wants_git_changes(true, Some("-")));
    assert!(!wants_git_changes(true, None));
    assert!(!wants_git_changes(false, Some("src/main.rs")));
}

#[test]
fn whole_file_range_copies_input() {
    let input = b"first\n\n\nlast".to_vec();
    let mut out = Vec::new();
    let r = emit_bytes(&mut out, input.clone(), Some(LineRange { start: 1, end: 100 }), &settings(false, false, false));
    assert_eq!(out, input);
    assert!(!r.ended_with_newline);
    let mut out = Vec::new();
    emit_bytes(&mut out, input.clone(), None, &settings(false, false, false));
    assert_eq!(out, input);
}

#[test]
fn unhighlighted_text_accepts_any_start_without_numbers() {
    assert_eq!(render_unhighlighted("a\nb", usize::MAX, false, false), "a\nb");
    assert_eq!(render_unhighlighted("a b", usize::MAX, false, true), "a\u{00B7}b");
}
