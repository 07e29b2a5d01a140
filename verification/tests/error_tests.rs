use rcc::error::{error_marker, Error, LexError};
use rcc::lexer::lex;
use rcc::Loc;

#[test]
fn test_loc_display_text() {
    assert_eq!(Loc(0, 2).display_text(), "0-2");
    assert_eq!(Loc(10, 123).display_text(), "10-123");
}

#[test]
fn test_lex_error_message() {
    let e = LexError::invalid_char('*', Loc(2, 3));
    assert_eq!(e.message(), "2-3: invalid char: *");
    let e = LexError::eof(Loc(9, 10));
    assert_eq!(e.message(), "End of file");
}

#[test]
fn test_error_from_and_source() {
    let e = LexError::invalid_char('*', Loc(2, 3));
    let err = Error::from(e.clone());
    assert_eq!(err, Error::Lexer(e.clone()));
    assert_eq!(err.source(), &e);
    assert_eq!(err.message(), "parse error");
}

#[test]
fn test_error_marker() {
    assert_eq!(error_marker(Loc(2, 3)), "  ^");
    assert_eq!(error_marker(Loc(0, 4)), "^^^^");
    assert_eq!(error_marker(Loc(3, 3)), "   ");
}

#[test]
fn test_diagnostic_lines() {
    let input = "3 * 4";
    let e = lex(input).unwrap_err();
    let err = Error::from(e);
    let (line, marker) = err.diagnostic_lines(input);
    assert_eq!(line, "3 * 4");
    assert_eq!(marker, "  ^");
}
