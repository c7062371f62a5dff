use umber::{parse_style_components, DecorationConfig};

#[test]
fn reads_style_components() {
    let c = parse_style_components(Some("numbers, changes"));
    assert!(c.decoration_config.show_numbers);
    assert!(c.decoration_config.show_changes);
    assert!(!c.decoration_config.show_headers);
    assert!(!c.highlight_injections);
    assert!(c.highlight_locals);

    let c = parse_style_components(Some(" rich "));
    assert!(c.highlight_injections);
    assert!(c.highlight_locals);

    let c = parse_style_components(None);
    assert!(!c.decoration_config.show_numbers && !c.decoration_config.show_changes);
    assert!(!c.decoration_config.show_headers && !c.highlight_injections);
    assert!(c.highlight_locals);

    let c = parse_style_components(Some("numbersx,headers,"));
    assert!(!c.decoration_config.show_numbers);
    assert!(c.decoration_config.show_headers);
}

#[test]
fn decorations_are_numbers_or_changes() {
    let d = DecorationConfig { show_numbers: false, show_changes: false, show_headers: true };
    assert!(!d.has_decorations());
    let d = DecorationConfig { show_numbers: false, show_changes: true, show_headers: false };
    assert!(d.has_decorations());
}

#[test]
fn style_components_combine() {
    let joined = parse_style_components(Some("numbers, rich,changes"));
    assert!(joined.decoration_config.show_numbers);
    assert!(joined.decoration_config.show_changes);
    assert!(!joined.decoration_config.show_headers);
    assert!(joined.highlight_injections);
    let left = parse_style_components(Some("numbers, rich"));
    let right = parse_style_components(Some("changes"));
    assert_eq!(joined.decoration_config.show_numbers, left.decoration_config.show_numbers || right.decoration_config.show_numbers);
    assert_eq!(joined.decoration_config.show_changes, left.decoration_config.show_changes || right.decoration_config.show_changes);
}
