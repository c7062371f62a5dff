use umber::{decoration_margin, LineChange, MarginKind};
use umber::{
    current_style_key, decoration_width, effective_decorations, highlight_line_count, source_lines,
    DecorationConfig, LineAction, LineTracker, STREAM_OUTPUT_FLUSH_BYTES,
};

#[test]
fn style_keys_come_from_the_theme_key_list() {
    assert_eq!(current_style_key(&[]), None);
    assert_eq!(current_style_key(&[5, 0]), None);
    assert_eq!(current_style_key(&[0, 1]), Some("punctuation.delimiter"));
    assert_eq!(current_style_key(&[usize::MAX]), None);
}

#[test]
fn counts_highlight_lines() {
    assert_eq!(highlight_line_count(""), 1);
    assert_eq!(highlight_line_count("a\nb"), 2);
    assert_eq!(highlight_line_count("a\nb\n"), 3);
}

#[test]
fn splits_source_lines() {
    let lines = source_lines("a\r\nb");
    assert_eq!(lines.len(), 2);
    assert_eq!(lines[0].text, "a");
    assert!(lines[0].newline_after);
    assert_eq!(lines[1].text, "b");
    assert!(!lines[1].newline_after);
    let lines = source_lines("x\n");
    assert_eq!(lines.len(), 1);
    assert!(lines[0].newline_after);
    assert!(source_lines("").is_empty());
    let lines = source_lines("\r");
    assert_eq!(lines[0].text, "\r");
}

#[test]
fn tracks_lines() {
    let mut t = LineTracker::new(3);
    t.highlight_start(1);
    t.highlight_start(0);
    assert_eq!(t.style_key(), None);
    t.highlight_end();
    assert_eq!(t.style_key(), Some("punctuation.delimiter"));
    assert!(!t.take_visible_flush(STREAM_OUTPUT_FLUSH_BYTES - 1));
    assert_eq!(t.piece(false, true, false), vec![LineAction::Piece, LineAction::EarlyFlush]);
    assert!(!t.flushed_visible_output);
    assert_eq!(
        t.piece(true, true, false),
        vec![LineAction::Piece, LineAction::EarlyFlush, LineAction::LfMarker, LineAction::Newline, LineAction::FlushAll]
    );
    assert!(t.flushed_visible_output);
    assert_eq!(t.piece(true, false, false), vec![LineAction::Piece, LineAction::EarlyFlush, LineAction::Newline, LineAction::FlushAll]);
    assert!(t.finish(false).is_empty());
    t.advance_line();
    assert_eq!((t.line_no, t.line_index), (4, 1));
    t.highlight_end();
    t.highlight_end();
    assert_eq!(t.style_key(), None);
}

#[test]
fn marks_every_line_feed_of_decorated_output() {
    let mut t = LineTracker::new(1);
    assert!(t.piece(false, true, true).is_empty());
    assert_eq!(
        t.piece(true, true, true),
        vec![LineAction::DecoratedLine, LineAction::LfMarker, LineAction::Newline, LineAction::FlushAll, LineAction::NextLine]
    );
    assert_eq!(
        t.piece(true, false, true),
        vec![LineAction::DecoratedLine, LineAction::Newline, LineAction::FlushAll, LineAction::NextLine]
    );
    assert_eq!(t.finish(true), vec![LineAction::DecoratedLine]);
}

#[test]
fn early_flush_happens_once() {
    let mut t = LineTracker::new(1);
    assert!(t.take_visible_flush(STREAM_OUTPUT_FLUSH_BYTES));
    assert!(!t.take_visible_flush(STREAM_OUTPUT_FLUSH_BYTES * 2));
}

#[test]
fn change_margin_needs_changes() {
    let c = DecorationConfig { show_numbers: true, show_changes: true, show_headers: false };
    assert!(!effective_decorations(c, false).show_changes);
    assert!(effective_decorations(c, true).show_changes);
    assert!(effective_decorations(c, false).show_numbers);
}

#[test]
fn decoration_width_covers_last_line() {
    assert_eq!(decoration_width("a\nb\n", 9), 2);
    assert_eq!(decoration_width("a", 1), 1);
    assert_eq!(decoration_width("a\nb", usize::MAX), usize::MAX.to_string().len());
}

#[test]
fn lays_out_the_margin() {
    let both = DecorationConfig { show_numbers: true, show_changes: true, show_headers: false };
    let m = decoration_margin(7, 3, both, Some(LineChange::Added));
    let views: Vec<(String, MarginKind)> = m.into_iter().map(|p| (p.text, p.kind)).collect();
    assert_eq!(
        views,
        vec![
            ("+".to_string(), MarginKind::Added),
            (" ".to_string(), MarginKind::Separator),
            ("  7".to_string(), MarginKind::LineNumber),
            (" \u{2502} ".to_string(), MarginKind::Separator),
        ]
    );
    let numbers = DecorationConfig { show_numbers: true, show_changes: false, show_headers: false };
    let m = decoration_margin(12, 1, numbers, None);
    assert_eq!(m.len(), 2);
    assert_eq!(m[0].text, "12");
    let changes = DecorationConfig { show_numbers: false, show_changes: true, show_headers: false };
    let m = decoration_margin(1, 1, changes, Some(LineChange::RemovedBelow));
    assert_eq!((m[0].text.as_str(), m[0].kind), ("-", MarginKind::Removed));
    assert_eq!(decoration_margin(1, 1, changes, None)[0].kind, MarginKind::Unchanged);
}
