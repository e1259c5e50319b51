use ogham::diagnostics::{clamp_span, Diagnostics, Severity};

#[test]
fn new_diagnostics_are_empty() {
    let d = Diagnostics::new();
    assert!(d.is_empty());
    assert_eq!(d.len(), 0);
    assert!(!d.has_errors());
    assert_eq!(d.errors().len(), 0);
}

#[test]
fn error_and_warning_are_recorded_in_order() {
    let mut d = Diagnostics::new();
    d.warning("a.ogham", 1..3, "unused import");
    d.error("b.ogham", 4..9, "duplicate type: p.User");
    assert_eq!(d.len(), 2);
    assert!(d.has_errors());
    let all = d.all();
    assert_eq!(all[0].severity, Severity::Warning);
    assert_eq!(all[0].message, "unused import");
    assert_eq!(all[0].file(), "a.ogham");
    assert_eq!(all[0].span(), 1..3);
    assert_eq!(all[1].severity, Severity::Error);
    assert_eq!(all[1].file(), "b.ogham");
    assert_eq!(all[1].span(), 4..9);
    let errors = d.errors();
    assert_eq!(errors.len(), 1);
    assert_eq!(errors[0].message, "duplicate type: p.User");
}

#[test]
fn warnings_alone_are_not_errors() {
    let mut d = Diagnostics::new();
    d.warning("a.ogham", 0..1, "w");
    assert!(!d.has_errors());
    assert!(d.errors().is_empty());
}

#[test]
fn builder_records_everything_on_emit() {
    let mut d = Diagnostics::new();
    d.build(Severity::Error, "type mismatch")
        .code("E0001")
        .primary("main.ogham", 10..15, "expected string")
        .secondary("main.ogham", 2..6, "declared here")
        .note("strings and integers differ")
        .help("change the field type")
        .suggestion("main.ogham", 10..15, "string", "use string")
        .emit();
    assert_eq!(d.len(), 1);
    let diag = &d.all()[0];
    assert_eq!(diag.severity, Severity::Error);
    assert_eq!(diag.code.as_deref(), Some("E0001"));
    assert_eq!(diag.message, "type mismatch");
    assert_eq!(diag.file(), "main.ogham");
    assert_eq!(diag.span(), 10..15);
    assert_eq!(diag.primary.as_ref().unwrap().message, "expected string");
    assert_eq!(diag.secondary.len(), 1);
    assert_eq!(diag.secondary[0].span, 2..6);
    assert_eq!(diag.notes, vec!["strings and integers differ".to_string()]);
    assert_eq!(diag.help.as_deref(), Some("change the field type"));
    assert_eq!(diag.suggestions[0].replacement, "string");
    assert_eq!(diag.suggestions[0].message, "use string");
}

#[test]
fn diagnostic_without_primary_has_empty_file_and_span() {
    let mut d = Diagnostics::new();
    d.build(Severity::Note, "just a note").emit();
    let diag = &d.all()[0];
    assert_eq!(diag.file(), "");
    assert_eq!(diag.span(), 0..0);
    assert!(!d.has_errors());
}

#[test]
fn clamp_span_never_empty() {
    assert_eq!(clamp_span(&(5..5)), 5..6);
    assert_eq!(clamp_span(&(5..3)), 5..6);
    assert_eq!(clamp_span(&(2..9)), 2..9);
    assert_eq!(clamp_span(&(0..0)), 0..1);
}

#[test]
fn recorded_order_survives_mixed_calls() {
    let mut d = Diagnostics::new();
    d.error("a.ogham", 0..1, "first");
    d.build(Severity::Warning, "second").emit();
    d.warning("a.ogham", 2..3, "third");
    d.build(Severity::Error, "fourth").code("E1").emit();
    let msgs: Vec<&str> = d.all().iter().map(|x| x.message.as_str()).collect();
    assert_eq!(msgs, vec!["first", "second", "third", "fourth"]);
}
