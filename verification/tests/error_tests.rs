use arjp::ParseError;

#[test]
fn test_error_creation() {
    let error = ParseError::new("test error");
    assert_eq!(error.message(), "test error");
}

#[test]
fn test_error_display() {
    let error = ParseError::new("test error");
    assert_eq!(format!("{}", error.message()), "test error");
}

#[test]
fn test_error_as_std_error() {
    let error = ParseError::new("test error");
    assert_eq!(error.message().to_string(), "test error");
}
