use lexer::IntegerKind;
use lexer::Token;
use lexer::TokenError;

#[test]
fn get_kind_bare_zero_is_decimal() {
    assert_eq!(IntegerKind::get_kind("0"), Some(IntegerKind::Decimal));
}

#[test]
fn get_kind_binary_prefix() {
    assert_eq!(IntegerKind::get_kind("0b101"), Some(IntegerKind::Binary));
    assert_eq!(IntegerKind::get_kind("0B101"), Some(IntegerKind::Binary));
}

#[test]
fn get_kind_hexadecimal_prefix() {
    assert_eq!(
        IntegerKind::get_kind("0x1F"),
        Some(IntegerKind::HexaDecimal)
    );
    assert_eq!(
        IntegerKind::get_kind("0X1F"),
        Some(IntegerKind::HexaDecimal)
    );
}

#[test]
fn get_kind_octal_needs_leading_zero() {
    assert_eq!(IntegerKind::get_kind("0755"), Some(IntegerKind::Octal));
    assert_eq!(IntegerKind::get_kind("755"), Some(IntegerKind::Decimal));
}

#[test]
fn get_kind_plain_decimal() {
    assert_eq!(IntegerKind::get_kind("5"), Some(IntegerKind::Decimal));
    assert_eq!(IntegerKind::get_kind("10"), Some(IntegerKind::Decimal));
    assert_eq!(IntegerKind::get_kind("9"), Some(IntegerKind::Decimal));
}

#[test]
fn get_kind_rejects_malformed_spans() {
    assert_eq!(IntegerKind::get_kind("08"), None);
    assert_eq!(IntegerKind::get_kind("5x"), None);
    assert_eq!(IntegerKind::get_kind(""), None);
}

#[test]
fn get_keyword_matches_exactly() {
    assert_eq!(Token::get_keyword(String::from("if")), Token::If);
    assert_eq!(Token::get_keyword(String::from("else")), Token::Else);
    assert_eq!(Token::get_keyword(String::from("elif")), Token::Elif);
    assert_eq!(Token::get_keyword(String::from("true")), Token::True);
    assert_eq!(Token::get_keyword(String::from("false")), Token::False);
    assert_eq!(Token::get_keyword(String::from("let")), Token::Let);
    assert_eq!(Token::get_keyword(String::from("fn")), Token::Function);
    assert_eq!(Token::get_keyword(String::from("return")), Token::Return);
}

#[test]
fn get_keyword_keeps_other_text_as_identifier() {
    assert_eq!(
        Token::get_keyword(String::from("letx")),
        Token::Identifier(String::from("letx"))
    );
    assert_eq!(
        Token::get_keyword(String::from("If")),
        Token::Identifier(String::from("If"))
    );
    assert_eq!(
        Token::get_keyword(String::from("")),
        Token::Identifier(String::from(""))
    );
}

#[test]
fn is_keyword_agrees_with_the_table() {
    assert!(Token::is_keyword("let"));
    assert!(Token::is_keyword("fn"));
    assert!(!Token::is_keyword("letx"));
    assert!(!Token::is_keyword("Fn"));
    assert!(!Token::is_keyword(""));
}

#[test]
fn defaults_are_the_documented_ones() {
    assert_eq!(Token::default(), Token::Invalid(TokenError::Unknown));
    assert_eq!(IntegerKind::default(), IntegerKind::Decimal);
}
