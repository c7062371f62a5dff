use umber::{highlight_queries, HighlightQueries, InputPlan, InputWalk};
use umber::{
    check_pager, color_enabled, emit_settings, file_header, input_paths, parse_style_components, ColorWhen,
    OutputError,
};

#[test]
fn colour_follows_terminal_and_switches() {
    assert!(color_enabled(true, false, false, false, ColorWhen::Auto));
    assert!(color_enabled(false, true, false, false, ColorWhen::Auto));
    assert!(!color_enabled(false, false, false, false, ColorWhen::Auto));
    assert!(!color_enabled(true, false, true, false, ColorWhen::Auto));
    assert!(!color_enabled(true, false, false, true, ColorWhen::Auto));
    assert!(color_enabled(false, false, true, true, ColorWhen::Always));
    assert!(!color_enabled(true, true, false, false, ColorWhen::Never));
}

#[test]
fn pager_needs_a_terminal() {
    assert_eq!(check_pager(true, false), Err(OutputError::PagerNeedsTerminal));
    assert_eq!(check_pager(true, true), Ok(()));
    assert_eq!(check_pager(false, false), Ok(()));
}

#[test]
fn squeeze_limit_implies_squeezing() {
    let style = parse_style_components(Some("numbers"));
    let s = emit_settings(&style, true, false, Some(3), false);
    assert!(s.squeeze_blank);
    assert_eq!(s.squeeze_limit, 3);
    assert!(s.use_color);
    assert!(s.decoration_config.show_numbers);
    let s = emit_settings(&style, false, true, None, true);
    assert!(s.squeeze_blank);
    assert_eq!(s.squeeze_limit, 1);
    assert!(s.show_all);
    let s = emit_settings(&style, false, false, None, false);
    assert!(!s.squeeze_blank);
}

#[test]
fn standard_input_when_no_file_is_given() {
    assert_eq!(input_paths(Vec::new()), vec!["-".to_string()]);
    let files = vec!["a.rs".to_string(), "b.rs".to_string()];
    assert_eq!(input_paths(files.clone()), files);
}

#[test]
fn header_centres_the_name() {
    assert_eq!(file_header("ab", 7), "───────\n  ab   \n───────\n");
    assert_eq!(file_header("abc", 3), "───\nabc\n───\n");
    assert_eq!(file_header("é", 4), "────\n é \n────\n");
}

#[test]
fn markdown_always_gets_embedded_languages() {
    assert_eq!(highlight_queries(false, true, true), HighlightQueries::WithInjections);
    assert_eq!(highlight_queries(true, false, true), HighlightQueries::WithInjections);
    assert_eq!(highlight_queries(false, false, true), HighlightQueries::WithLocals);
    assert_eq!(highlight_queries(false, false, false), HighlightQueries::HighlightsOnly);
}

#[test]
fn standard_input_is_read_once_and_headers_are_spaced() {
    let mut walk = InputWalk::new();
    assert_eq!(walk.next(true, true), InputPlan { blank_line: false, header: true, read: true });
    walk.shown();
    assert_eq!(walk.next(false, true), InputPlan { blank_line: true, header: true, read: true });
    assert_eq!(walk.next(true, true), InputPlan { blank_line: true, header: true, read: false });
    let mut walk = InputWalk::new();
    assert_eq!(walk.next(false, false), InputPlan { blank_line: false, header: false, read: true });
}

#[test]
fn rich_highlighting_is_enabled_by_default_for_markdown() {
    assert_eq!(highlight_queries(false, true, true), HighlightQueries::WithInjections);
}

#[test]
fn rich_highlighting_stays_opt_in_for_non_markdown_languages() {
    assert_ne!(highlight_queries(false, false, true), HighlightQueries::WithInjections);
    assert_eq!(highlight_queries(true, false, true), HighlightQueries::WithInjections);
}
