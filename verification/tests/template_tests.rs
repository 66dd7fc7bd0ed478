use wellington::templates::{ErrorKind, TemplateError};

#[test]
fn template_error_carries_kind_and_message() {
    let e = TemplateError::new("missing placeholder".to_string(), ErrorKind::FailValidation);
    assert_eq!(e.kind(), ErrorKind::FailValidation);
    assert_eq!(e.message(), "Bad template: missing placeholder");
}

#[test]
fn template_error_kinds_are_distinct() {
    assert_ne!(ErrorKind::CantRead, ErrorKind::InvalidSyntax);
    assert_ne!(ErrorKind::CantRead, ErrorKind::FailValidation);
    assert_ne!(ErrorKind::InvalidSyntax, ErrorKind::FailValidation);
}
