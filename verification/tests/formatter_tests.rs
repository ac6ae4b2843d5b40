use ccat::formatter::{DiffFormatter, JsonFormatter, TextFormatter, TreeFormatter};

#[test]
fn text_formatter_defaults_and_builders() {
    let f = TextFormatter::new();
    assert!(!f.content_only);
    assert!(!f.show_metadata);
    assert!(f.expand_imports);
    let f = TextFormatter::new()
        .with_content_only(true)
        .with_show_metadata(true)
        .with_expand_imports(false);
    assert!(f.content_only);
    assert!(f.show_metadata);
    assert!(!f.expand_imports);
}

#[test]
fn json_formatter_defaults_and_builder() {
    let f = JsonFormatter::new();
    assert!(f.pretty);
    let f = f.with_pretty(false);
    assert!(!f.pretty);
}

#[test]
fn unit_formatters_construct() {
    let _ = DiffFormatter::new();
    let _ = DiffFormatter::default();
    let _ = TreeFormatter::new();
    let _ = TreeFormatter::default();
}
