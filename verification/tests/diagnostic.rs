use lunas::diagnostic::{Diagnostic, Severity};
use lunas::span::TextRange;

#[test]
fn constructors_set_severity() {
    let r = TextRange::at(0, 1);
    assert!(Diagnostic::error(r, "boom").is_error());
    assert!(!Diagnostic::warning(r, "meh").is_error());
    assert_eq!(Diagnostic::hint(r, "fyi").severity, Severity::Hint);
}

#[test]
fn message_accepts_string_and_str() {
    let r = TextRange::at(0, 1);
    let a = Diagnostic::error(r, "literal");
    let b = Diagnostic::error(r, String::from("owned"));
    assert_eq!(a.message, "literal");
    assert_eq!(b.message, "owned");
}
