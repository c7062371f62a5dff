use umber::{
    display_name_for_spec, is_stdin_path, parse_file_spec, parse_line_range, parse_line_range_arg,
    parse_line_range_suffix, parse_usize, split_line_range, FileSpec, LineRange, LineSpecError,
};

fn lr(start: usize, end: usize) -> LineRange {
    LineRange { start, end }
}

#[test]
fn parses_line_ranges() {
    assert_eq!(parse_line_range("10-20"), Some(lr(10, 20)));
    assert_eq!(parse_line_range("10:20"), Some(lr(10, 20)));
    assert_eq!(parse_line_range("10,20"), Some(lr(10, 20)));
    assert_eq!(parse_line_range("10"), Some(lr(10, 10)));
    assert_eq!(parse_line_range("L10-L20"), Some(lr(10, 20)));
    assert_eq!(parse_line_range(" l5 : 7 "), Some(lr(5, 7)));
    assert_eq!(parse_line_range("+3"), Some(lr(3, 3)));
}

#[test]
fn rejects_bad_line_ranges() {
    assert_eq!(parse_line_range("0"), None);
    assert_eq!(parse_line_range("5-3"), None);
    assert_eq!(parse_line_range(""), None);
    assert_eq!(parse_line_range("-5"), None);
    assert_eq!(parse_line_range("3-"), None);
    assert_eq!(parse_line_range("abc"), None);
    assert_eq!(parse_line_range("0-4"), None);
    assert_eq!(parse_line_range("99999999999999999999999"), None);
    assert_eq!(parse_line_range("LL5"), None);
}

#[test]
fn round_trips_formatted_ranges() {
    for (start, end) in [(1usize, 1usize), (3, 17), (10, 10), (usize::MAX, usize::MAX)] {
        let text = format!("{start}-{end}");
        assert_eq!(parse_line_range(&text), Some(lr(start, end)));
    }
}

#[test]
fn parses_decimal_numbers() {
    let chars = |s: &str| s.chars().collect::<Vec<char>>();
    assert_eq!(parse_usize(&chars("42")), Some(42));
    assert_eq!(parse_usize(&chars("+7")), Some(7));
    assert_eq!(parse_usize(&chars("+")), None);
    assert_eq!(parse_usize(&chars("4 2")), None);
    assert_eq!(parse_usize(&chars("18446744073709551615")), "18446744073709551615".parse::<usize>().ok());
}

#[test]
fn splits_at_first_separator_kind() {
    assert_eq!(split_line_range("1-2:3"), Some(("1", "2:3")));
    assert_eq!(split_line_range("1:2,3"), Some(("1", "2,3")));
    assert_eq!(split_line_range("4,5"), Some(("4", "5")));
    assert_eq!(split_line_range("12"), None);
}

#[test]
fn line_range_argument_errors_name_the_input() {
    assert_eq!(parse_line_range_arg("7:8"), Ok(lr(7, 8)));
    assert_eq!(parse_line_range_arg("x"), Err(LineSpecError::InvalidRange("x".to_string())));
}

#[test]
fn reads_line_range_suffixes() {
    assert_eq!(
        parse_line_range_suffix("main.rs#L10-L20"),
        Ok(Some(("main.rs".to_string(), lr(10, 20))))
    );
    assert_eq!(parse_line_range_suffix("a#L1#L2"), Ok(Some(("a#L1".to_string(), lr(2, 2)))));
    assert_eq!(parse_line_range_suffix("a#l3"), Ok(Some(("a".to_string(), lr(3, 3)))));
    assert_eq!(
        parse_line_range_suffix("a#L3#l4"),
        Err(LineSpecError::InvalidSuffixRange("3#l4".to_string()))
    );
    assert_eq!(parse_line_range_suffix("#L5"), Err(LineSpecError::MissingPath));
    assert_eq!(parse_line_range_suffix("a#L"), Err(LineSpecError::MissingRange));
    assert_eq!(parse_line_range_suffix("plain.rs"), Ok(None));
}

#[test]
fn file_specs_take_suffix_or_default() {
    assert_eq!(
        parse_file_spec("x.rs#L2".to_string(), None),
        Ok(FileSpec { path: "x.rs".to_string(), line_range: Some(lr(2, 2)) })
    );
    assert_eq!(
        parse_file_spec("y.rs".to_string(), Some(lr(1, 4))),
        Ok(FileSpec { path: "y.rs".to_string(), line_range: Some(lr(1, 4)) })
    );
    assert_eq!(parse_file_spec("z#Lq".to_string(), None), Err(LineSpecError::InvalidSuffixRange("q".to_string())));
}

#[test]
fn recognises_standard_input_paths() {
    assert!(is_stdin_path("-"));
    assert!(is_stdin_path("-/"));
    assert!(is_stdin_path("-//./"));
    assert!(!is_stdin_path("./-"));
    assert!(!is_stdin_path("-x"));
    assert!(!is_stdin_path("--"));
    assert!(!is_stdin_path("-/.."));
    assert!(!is_stdin_path(""));
}

#[test]
fn display_names() {
    let spec = FileSpec { path: "-/".to_string(), line_range: None };
    assert_eq!(display_name_for_spec(&spec), "-");
    let spec = FileSpec { path: "src/main.rs".to_string(), line_range: None };
    assert_eq!(display_name_for_spec(&spec), "src/main.rs");
}

#[test]
fn written_ranges_read_back_with_every_separator() {
    for sep in ['-', ':', ','] {
        for marker in ["", "L"] {
            let text = format!("12{sep}{marker}345");
            assert_eq!(parse_line_range(&text), Some(lr(12, 345)));
            let spec = parse_file_spec(format!("dir/a#b.rs#L12{sep}{marker}345"), None).unwrap();
            assert_eq!(spec.path, "dir/a#b.rs");
            assert_eq!(spec.line_range, Some(lr(12, 345)));
        }
    }
    assert_eq!(parse_line_range("42"), Some(lr(42, 42)));
}
