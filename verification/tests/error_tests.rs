use miniplc0::error::{CompilationError, ErrorCode};

#[test]
fn an_error_keeps_its_position_and_code() {
    let error = CompilationError::new(3, 14, ErrorCode::ErrNoSemicolon);
    assert_eq!(error.get_pos(), (3, 14));
    assert_eq!(*error.get_err_code(), ErrorCode::ErrNoSemicolon);
}

#[test]
fn a_packed_position_is_the_same_position() {
    let error = CompilationError::new_packed((7, 0), ErrorCode::ErrEOF);
    assert_eq!(error.get_pos(), (7, 0));
    assert_eq!(*error.get_err_code(), ErrorCode::ErrEOF);
    let other = CompilationError::new(7, 0, ErrorCode::ErrEOF);
    assert_eq!(other.get_pos(), error.get_pos());
    assert_eq!(other.get_err_code(), error.get_err_code());
}

#[test]
fn error_codes_differ_from_one_another() {
    assert_ne!(ErrorCode::ErrNoBegin, ErrorCode::ErrNoEnd);
    assert_ne!(ErrorCode::ErrNotDeclared, ErrorCode::ErrNotInitialized);
    assert_eq!(ErrorCode::ErrInvalidInput, ErrorCode::ErrInvalidInput);
}
