use kvd_rs::error::{Error, ErrorKind};

#[test]
fn error_kind_names() {
    assert_eq!(ErrorKind::BadIndent.as_str(), "bad-indent");
    assert_eq!(
        ErrorKind::UnexpectedCharacter.as_str(),
        "unexpected-character"
    );
    assert_eq!(ErrorKind::DuplicateKey.to_string(), "duplicate-key");
}

#[test]
fn error_display_includes_position_and_kind() {
    let e = Error::new(ErrorKind::BadIndent, 3, 5, "expected 2 spaces");
    assert_eq!(e.to_string(), "3:5: bad-indent: expected 2 spaces");
}
