use rcc::lexer::{consume, consume_byte, expect_number, lex, lex_minus, lex_number, lex_plus,
    skip_space, Token, TokenKind};
use rcc::error::{LexError, LexKind};
use rcc::{Annot, Loc};

#[test]
fn test_lex() {
    let input = "42";
    let tokens = lex(input);
    let expected = vec![Token::number(42, Loc(0, 2))];
    assert_eq!(Ok(expected), tokens);

    let input = " 12 + 34 - 5 ";
    let tokens = lex(input);

    let expected = vec![
        Token::number(12, Loc(1, 3)),
        Token::plus(Loc(4, 5)),
        Token::number(34, Loc(6, 8)),
        Token::minus(Loc(9, 10)),
        Token::number(5, Loc(11, 12)),
    ];
    assert_eq!(Ok(expected), tokens);

    let input = " 3 - 4 - ";
    let tokens = lex(input);

    let expected = vec![
        Token::number(3, Loc(1, 2)),
        Token::minus(Loc(3, 4)),
        Token::number(4, Loc(5, 6)),
        Token::minus(Loc(7, 8)),
    ];
    assert_eq!(Ok(expected), tokens);
}

#[test]
fn test_lex_empty_input() {
    assert_eq!(lex(""), Ok(vec![]));
}

#[test]
fn test_lex_whitespace_only() {
    assert_eq!(lex("  \t\n "), Ok(vec![]));
}

#[test]
fn test_lex_all_digits_spans_whole_input() {
    assert_eq!(lex("0042"), Ok(vec![Token::number(42, Loc(0, 4))]));
    assert_eq!(
        lex("18446744073709551615"),
        Ok(vec![Token::number(u64::MAX, Loc(0, 20))])
    );
}

#[test]
fn test_lex_number_wraps_past_u64() {
    // one past u64::MAX wraps to zero
    assert_eq!(
        lex("18446744073709551616"),
        Ok(vec![Token::number(0, Loc(0, 20))])
    );
}

#[test]
fn test_lex_invalid_char() {
    let r = lex("3 * 4");
    assert_eq!(r, Err(LexError::invalid_char('*', Loc(2, 3))));
}

#[test]
fn test_lex_first_invalid_char_wins() {
    // tokens before the bad byte are discarded, later bad bytes are not seen
    let r = lex("1 + 2 ? 3 !");
    assert_eq!(r, Err(LexError::invalid_char('?', Loc(6, 7))));
}

#[test]
fn test_lex_adjacent_operators() {
    // a bare sign run lexes as two operator tokens
    let r = lex("++");
    assert_eq!(r, Ok(vec![Token::plus(Loc(0, 1)), Token::plus(Loc(1, 2))]));
}

#[test]
fn test_lex_round_trip_spans() {
    let input = " 12 + 34 - 5 ";
    let tokens = lex(input).unwrap();
    for t in &tokens {
        let lexeme = &input[t.loc.0..t.loc.1];
        match t.value {
            TokenKind::Number(n) => assert_eq!(lexeme.parse::<u64>().unwrap(), n),
            TokenKind::Plus => assert_eq!(lexeme, "+"),
            TokenKind::Minus => assert_eq!(lexeme, "-"),
        }
    }
}

#[test]
fn test_lex_number_maximal_run() {
    let input = b"12a";
    let r = lex_number(input, 0);
    assert_eq!(r, Ok((Token::number(12, Loc(0, 2)), 2)));
}

#[test]
fn test_lex_plus_minus() {
    assert_eq!(lex_plus(b"+", 0), Ok((Token::plus(Loc(0, 1)), 1)));
    assert_eq!(lex_minus(b"1-2", 1), Ok((Token::minus(Loc(1, 2)), 2)));
}

#[test]
fn test_skip_space() {
    assert_eq!(skip_space(b" \t\n1", 0), Ok(((), 3)));
    assert_eq!(skip_space(b"12", 0), Ok(((), 0)));
}

#[test]
fn test_consume_byte() {
    assert_eq!(consume_byte(b"+1", 0, b'+'), Ok((b'+', 1)));
    assert_eq!(
        consume_byte(b"-1", 0, b'+'),
        Err(LexError::invalid_char('+', Loc(0, 1)))
    );
    assert_eq!(consume_byte(b"+", 1, b'+'), Err(LexError::eof(Loc(1, 2))));
}

#[test]
fn test_expect_number() {
    let num = Token::number(7, Loc(0, 1));
    assert_eq!(expect_number(&num), Ok(7));
    let plus = Token::plus(Loc(2, 3));
    assert_eq!(
        expect_number(&plus),
        Err(LexError::new(LexKind::InvalidChar('+'), Loc(2, 3)))
    );
    let minus = Token::minus(Loc(4, 5));
    assert_eq!(
        expect_number(&minus),
        Err(LexError::new(LexKind::InvalidChar('-'), Loc(4, 5)))
    );
}

#[test]
fn test_consume() {
    let plus = Token::plus(Loc(0, 1));
    assert!(consume(TokenKind::Plus, &plus));
    assert!(!consume(TokenKind::Minus, &plus));
    let num = Token::number(3, Loc(0, 1));
    assert!(consume(TokenKind::Number(3), &num));
    assert!(!consume(TokenKind::Number(4), &num));
}

#[test]
fn test_annot_new() {
    let a = Annot::new(TokenKind::Plus, Loc(5, 6));
    assert_eq!(a.value, TokenKind::Plus);
    assert_eq!(a.loc, Loc(5, 6));
}
