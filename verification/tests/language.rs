use umber::{detected_file_type, injection_names, language_name};

#[test]
fn detects_file_types_by_path_and_content() {
    assert_eq!(detected_file_type(Some("src/main.rs"), ""), "rust");
    assert_eq!(detected_file_type(Some("notes.unknownext"), ""), "text");
    assert_eq!(detected_file_type(None, "#!/usr/bin/env python3\nprint(1)\n"), "python");
}

#[test]
fn reads_language_names() {
    assert_eq!(language_name(" rust "), Some("rust".to_string()));
    assert_eq!(language_name("no-such-language"), None);
}

#[test]
fn looks_embedded_languages_up_by_lower_case_and_last_part() {
    assert_eq!(injection_names("JavaScript"), vec!["javascript".to_string()]);
    assert_eq!(injection_names("Text/X-Rust"), vec!["text/x-rust".to_string(), "x-rust".to_string()]);
    assert_eq!(injection_names("a/"), vec!["a/".to_string(), "".to_string()]);
}
