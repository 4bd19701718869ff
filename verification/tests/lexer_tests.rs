use lexer::IntegerKind::{Binary, Decimal, HexaDecimal, Octal};
use lexer::Lexer;
use lexer::Token::{
    self, Assign, Comma, Elif, Else, EndOfInput, Equal, Exclamation, False, Function, Gt,
    Identifier, If, Integer, Invalid, LeftCurly, LeftParen, Let, Lt, Minus, NotEqual, Plus,
    Return, RightCurly, RightParen, Semicolon, Slash, Star, True,
};
use lexer::TokenError;

fn collect_tokens(src: &str) -> Vec<Token> {
    let mut lx = Lexer::new(src);
    let mut out = Vec::new();
    loop {
        let tok = lx.next_token();
        let done = tok == EndOfInput;
        out.push(tok);
        if done {
            return out;
        }
    }
}

#[test]
fn test_lexer() -> Result<(), String> {
    let mut lx = Lexer::new(
        r#"
                    let five = 5;
                    let ten = 10;
                    let add = fn(x, y) {
                    x + y;
                    };
                    let result = add(five, ten);
                    !-/*5;
                    5 < 10 > 5;
                    if (5 < 10) {
                    return true;
                    } else {
                    return false;
                    }
                    10 == 10;
                    10 != 9;
            "#,
    );

    let input_tokens = vec![
        Let,
        Identifier(String::from("five")),
        Assign,
        Integer(Decimal),
        Semicolon,
        Let,
        Identifier(String::from("ten")),
        Assign,
        Integer(Decimal),
        Semicolon,
        Let,
        Identifier(String::from("add")),
        Assign,
        Function,
        LeftParen,
        Identifier(String::from("x")),
        Comma,
        Identifier(String::from("y")),
        RightParen,
        LeftCurly,
        Identifier(String::from("x")),
        Plus,
        Identifier(String::from("y")),
        Semicolon,
        RightCurly,
        Semicolon,
        Let,
        Identifier(String::from("result")),
        Assign,
        Identifier(String::from("add")),
        LeftParen,
        Identifier(String::from("five")),
        Comma,
        Identifier(String::from("ten")),
        RightParen,
        Semicolon,
        Exclamation,
        Minus,
        Slash,
        Star,
        Integer(Decimal),
        Semicolon,
        Integer(Decimal),
        Lt,
        Integer(Decimal),
        Gt,
        Integer(Decimal),
        Semicolon,
        If,
        LeftParen,
        Integer(Decimal),
        Lt,
        Integer(Decimal),
        RightParen,
        LeftCurly,
        Return,
        True,
        Semicolon,
        RightCurly,
        Else,
        LeftCurly,
        Return,
        False,
        Semicolon,
        RightCurly,
        Integer(Decimal),
        Equal,
        Integer(Decimal),
        Semicolon,
        Integer(Decimal),
        NotEqual,
        Integer(Decimal),
        Semicolon,
    ];

    let mut index = 0;
    let mut tok = lx.next_token();

    let mut msg: String;

    while tok != EndOfInput {
        msg = format!(
            "TEST #{index}: Wanted {:?} Got {:?}",
            input_tokens[index], tok
        );

        if tok != input_tokens[index] {
            return Err(msg);
        }

        println!("{msg}");
        index += 1;
        tok = lx.next_token();
    }

    assert_eq!(index, input_tokens.len());
    Ok(())
}

#[test]
fn empty_input_is_end_of_input() {
    let mut lx = Lexer::new("");
    assert_eq!(lx.next_token(), EndOfInput);
    assert_eq!(lx.next_token(), EndOfInput);
}

#[test]
fn end_of_input_is_stable() {
    let mut lx = Lexer::new("a b");
    let mut calls = 0;
    while lx.next_token() != EndOfInput {
        calls += 1;
        assert!(calls <= 3, "more tokens than characters");
    }
    for _ in 0..3 {
        assert_eq!(lx.next_token(), EndOfInput);
    }
}

#[test]
fn whitespace_only_input() {
    assert_eq!(collect_tokens(" \t\r\n \n"), vec![EndOfInput]);
}

#[test]
fn whitespace_runs_do_not_matter() {
    let spread = collect_tokens("let \t x\n=\r\n1 ;");
    let tight = collect_tokens("let x=1;");
    assert_eq!(spread, tight);
    assert_eq!(
        tight,
        vec![
            Let,
            Identifier(String::from("x")),
            Assign,
            Integer(Decimal),
            Semicolon,
            EndOfInput,
        ]
    );
}

#[test]
fn keywords_scan_to_keyword_tokens() {
    assert_eq!(
        collect_tokens("let fn if else elif true false return"),
        vec![Let, Function, If, Else, Elif, True, False, Return, EndOfInput]
    );
}

#[test]
fn non_keyword_runs_scan_to_identifiers() {
    assert_eq!(
        collect_tokens("letx result Let elseif"),
        vec![
            Identifier(String::from("letx")),
            Identifier(String::from("result")),
            Identifier(String::from("Let")),
            Identifier(String::from("elseif")),
            EndOfInput,
        ]
    );
}

#[test]
fn assign_alone() {
    assert_eq!(collect_tokens("="), vec![Assign, EndOfInput]);
}

#[test]
fn equal_pair() {
    assert_eq!(collect_tokens("=="), vec![Equal, EndOfInput]);
}

#[test]
fn exclamation_alone() {
    assert_eq!(collect_tokens("!"), vec![Exclamation, EndOfInput]);
}

#[test]
fn not_equal_pair() {
    assert_eq!(collect_tokens("!="), vec![NotEqual, EndOfInput]);
}

#[test]
fn assign_then_not_equal() {
    assert_eq!(collect_tokens("=!="), vec![Assign, NotEqual, EndOfInput]);
}

#[test]
fn single_character_tokens() {
    assert_eq!(
        collect_tokens("+-*/<>,;{}()"),
        vec![
            Plus,
            Minus,
            Star,
            Slash,
            Lt,
            Gt,
            Comma,
            Semicolon,
            LeftCurly,
            RightCurly,
            LeftParen,
            RightParen,
            EndOfInput,
        ]
    );
}

#[test]
fn radix_literals_through_lexer() {
    assert_eq!(
        collect_tokens("0 0b101 0x1F 0755 9;"),
        vec![
            Integer(Decimal),
            Integer(Binary),
            Integer(HexaDecimal),
            Integer(Octal),
            Integer(Decimal),
            Semicolon,
            EndOfInput,
        ]
    );
}

#[test]
fn malformed_literal_is_recoverable() {
    assert_eq!(
        collect_tokens("08; 5x"),
        vec![
            Invalid(TokenError::Unknown),
            Semicolon,
            Invalid(TokenError::Unknown),
            EndOfInput,
        ]
    );
}

#[test]
fn unknown_character_is_invalid_and_advances() {
    assert_eq!(
        collect_tokens("@;"),
        vec![Invalid(TokenError::Unknown), Semicolon, EndOfInput]
    );
    assert_eq!(
        collect_tokens("??"),
        vec![
            Invalid(TokenError::Unknown),
            Invalid(TokenError::Unknown),
            EndOfInput,
        ]
    );
}

#[test]
fn end_to_end_let_statement() {
    assert_eq!(
        collect_tokens("let five = 5;"),
        vec![
            Let,
            Identifier(String::from("five")),
            Assign,
            Integer(Decimal),
            Semicolon,
            EndOfInput,
        ]
    );
}

#[test]
fn end_to_end_comparisons() {
    assert_eq!(
        collect_tokens("5 < 10 > 5;"),
        vec![
            Integer(Decimal),
            Lt,
            Integer(Decimal),
            Gt,
            Integer(Decimal),
            Semicolon,
            EndOfInput,
        ]
    );
}

#[test]
fn end_to_end_equality() {
    assert_eq!(
        collect_tokens("10 == 10; 10 != 9;"),
        vec![
            Integer(Decimal),
            Equal,
            Integer(Decimal),
            Semicolon,
            Integer(Decimal),
            NotEqual,
            Integer(Decimal),
            Semicolon,
            EndOfInput,
        ]
    );
}
