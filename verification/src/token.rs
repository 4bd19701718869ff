//! The token data model: lexical categories, the keyword table, and the
//! radix classification of integer literals.

use vstd::prelude::*;
use vstd::std_specs::iter::IteratorSpec;

verus! {

/// Whitespace that the scanner discards between tokens.
pub open spec fn is_ws_char(c: char) -> bool {
    c == ' ' || c == '\t' || c == '\n' || c == '\r'
}

/// ASCII letters, the only characters that may form identifiers and keywords.
pub open spec fn is_letter_char(c: char) -> bool {
    ('a' <= c && c <= 'z') || ('A' <= c && c <= 'Z')
}

/// ASCII decimal digits, the characters that may open an integer literal.
pub open spec fn is_digit_char(c: char) -> bool {
    '0' <= c && c <= '9'
}

/// Characters that may continue an integer literal once a digit opened it:
/// digits together with letters, so that radix markers such as `x` or `b`
/// and hexadecimal digits stay inside a single span.
pub open spec fn is_digit_like_char(c: char) -> bool {
    is_digit_char(c) || is_letter_char(c)
}

/// Digits legal in an octal literal.
pub open spec fn is_octal_char(c: char) -> bool {
    '0' <= c && c <= '7'
}

/// The radix detected in the text of an integer literal. The literal's
/// numeric value is never computed; only its textual shape matters here.
#[derive(Debug, PartialEq, Eq)]
pub enum IntegerKind {
    Binary,
    Octal,
    Decimal,
    HexaDecimal,
}

/// The one kind of scanning failure: input that fits no lexical category.
#[derive(Debug, PartialEq, Eq)]
pub enum TokenError {
    Unknown,
}

/// One lexical unit of the source text.
#[derive(Debug, PartialEq, Eq)]
pub enum Token {
    EndOfInput,
    Invalid(TokenError),
    Identifier(String),
    Integer(IntegerKind),
    Assign,
    Plus,
    Minus,
    Slash,
    Star,
    Exclamation,
    Gt,
    Lt,
    Equal,
    NotEqual,
    Comma,
    Semicolon,
    LeftCurly,
    RightCurly,
    LeftParen,
    RightParen,
    If,
    Else,
    Elif,
    True,
    False,
    Let,
    Return,
    Function,
}

/// The mathematical shape of a token: the same cases as [`Token`], except
/// that an identifier carries the scanned characters as a sequence.
pub enum SpecToken {
    EndOfInput,
    Invalid(TokenError),
    Identifier(Seq<char>),
    Integer(IntegerKind),
    Assign,
    Plus,
    Minus,
    Slash,
    Star,
    Exclamation,
    Gt,
    Lt,
    Equal,
    NotEqual,
    Comma,
    Semicolon,
    LeftCurly,
    RightCurly,
    LeftParen,
    RightParen,
    If,
    Else,
    Elif,
    True,
    False,
    Let,
    Return,
    Function,
}

impl Token {
    /// The token's mathematical shape.
    pub open spec fn model(self) -> SpecToken {
        match self {
            Token::EndOfInput => SpecToken::EndOfInput,
            Token::Invalid(e) => SpecToken::Invalid(e),
            Token::Identifier(s) => SpecToken::Identifier(s@),
            Token::Integer(k) => SpecToken::Integer(k),
            Token::Assign => SpecToken::Assign,
            Token::Plus => SpecToken::Plus,
            Token::Minus => SpecToken::Minus,
            Token::Slash => SpecToken::Slash,
            Token::Star => SpecToken::Star,
            Token::Exclamation => SpecToken::Exclamation,
            Token::Gt => SpecToken::Gt,
            Token::Lt => SpecToken::Lt,
            Token::Equal => SpecToken::Equal,
            Token::NotEqual => SpecToken::NotEqual,
            Token::Comma => SpecToken::Comma,
            Token::Semicolon => SpecToken::Semicolon,
            Token::LeftCurly => SpecToken::LeftCurly,
            Token::RightCurly => SpecToken::RightCurly,
            Token::LeftParen => SpecToken::LeftParen,
            Token::RightParen => SpecToken::RightParen,
            Token::If => SpecToken::If,
            Token::Else => SpecToken::Else,
            Token::Elif => SpecToken::Elif,
            Token::True => SpecToken::True,
            Token::False => SpecToken::False,
            Token::Let => SpecToken::Let,
            Token::Return => SpecToken::Return,
            Token::Function => SpecToken::Function,
        }
    }
}

impl Default for Token {
    /// The token emitted when nothing else fits.
    fn default() -> (t: Self)
        ensures
            t == Token::Invalid(TokenError::Unknown),
    {
        Token::Invalid(TokenError::Unknown)
    }
}

impl Default for IntegerKind {
    /// Decimal, the radix assumed when no prefix says otherwise.
    fn default() -> (k: Self)
        ensures
            k == IntegerKind::Decimal,
    {
        IntegerKind::Decimal
    }
}

/// The fixed keyword table: the token for `w` when `w` is exactly one of the
/// eight keywords, and `None` otherwise.
pub open spec fn spec_keyword_lookup(w: Seq<char>) -> Option<Token> {
    if w == seq!['i', 'f'] {
        Some(Token::If)
    } else if w == seq!['e', 'l', 's', 'e'] {
        Some(Token::Else)
    } else if w == seq!['e', 'l', 'i', 'f'] {
        Some(Token::Elif)
    } else if w == seq!['t', 'r', 'u', 'e'] {
        Some(Token::True)
    } else if w == seq!['f', 'a', 'l', 's', 'e'] {
        Some(Token::False)
    } else if w == seq!['l', 'e', 't'] {
        Some(Token::Let)
    } else if w == seq!['f', 'n'] {
        Some(Token::Function)
    } else if w == seq!['r', 'e', 't', 'u', 'r', 'n'] {
        Some(Token::Return)
    } else {
        None
    }
}

/// Keyword-versus-identifier disambiguation: an exact, case-sensitive match
/// in the keyword table wins; any other letter run is an identifier holding
/// exactly the scanned text.
pub open spec fn spec_keyword_token(w: Seq<char>) -> SpecToken {
    match spec_keyword_lookup(w) {
        Some(t) => t.model(),
        None => SpecToken::Identifier(w),
    }
}

/// Every character of `w` is an octal digit.
pub open spec fn all_octal(w: Seq<char>) -> bool {
    forall|i: int| 0 <= i < w.len() ==> is_octal_char(w[i])
}

/// Every character of `w` is a decimal digit.
pub open spec fn all_decimal(w: Seq<char>) -> bool {
    forall|i: int| 0 <= i < w.len() ==> is_digit_char(w[i])
}

/// Radix classification of a raw literal span, in order of precedence:
/// the bare zero, a binary prefix, an all-octal span with a leading zero,
/// a hexadecimal prefix, a decimal span. A span of no other shape (such as
/// a stray `08`) has no radix and classification fails.
pub open spec fn spec_integer_kind(w: Seq<char>) -> Option<IntegerKind> {
    if w == seq!['0'] {
        Some(IntegerKind::Decimal)
    } else if w.len() >= 2 && w[0] == '0' && (w[1] == 'b' || w[1] == 'B') {
        Some(IntegerKind::Binary)
    } else if w.len() >= 1 && w[0] == '0' && all_octal(w) {
        Some(IntegerKind::Octal)
    } else if w.len() >= 2 && w[0] == '0' && (w[1] == 'x' || w[1] == 'X') {
        Some(IntegerKind::HexaDecimal)
    } else if w.len() >= 1 && w[0] != '0' && all_decimal(w) {
        Some(IntegerKind::Decimal)
    } else {
        None
    }
}

/// The characters of a string slice, in order, as a vector.
pub fn chars_of(s: &str) -> (v: Vec<char>)
    ensures
        v@ == s@,
{
    let mut v: Vec<char> = Vec::new();
    let mut it = s.chars();
    proof {
        assert(v@ + it.remaining() =~= s@);
    }
    loop
        invariant_except_break
            v@ + it.remaining() =~= s@,
            it.decrease() is Some,
        ensures
            v@ == s@,
        decreases it.decrease()->0,
    {
        match it.next() {
            Some(c) => {
                v.push(c);
                proof {
                    assert(v@ + it.remaining() =~= s@);
                }
            },
            None => {
                proof {
                    assert(v@ + it.remaining() =~= v@);
                }
                break;
            },
        }
    }
    v
}

fn all_octal_chars(w: &Vec<char>) -> (r: bool)
    ensures
        r == all_octal(w@),
{
    let mut i: usize = 0;
    while i < w.len()
        invariant
            i <= w.len(),
            forall|j: int| 0 <= j < i ==> is_octal_char(w@[j]),
        decreases w.len() - i,
    {
        let c = w[i];
        if !('0' <= c && c <= '7') {
            assert(!is_octal_char(w@[i as int]));
            return false;
        }
        i = i + 1;
    }
    true
}

fn all_decimal_chars(w: &Vec<char>) -> (r: bool)
    ensures
        r == all_decimal(w@),
{
    let mut i: usize = 0;
    while i < w.len()
        invariant
            i <= w.len(),
            forall|j: int| 0 <= j < i ==> is_digit_char(w@[j]),
        decreases w.len() - i,
    {
        let c = w[i];
        if !('0' <= c && c <= '9') {
            assert(!is_digit_char(w@[i as int]));
            return false;
        }
        i = i + 1;
    }
    true
}

impl IntegerKind {
    /// Classify a scanned literal span, already broken into characters.
    pub fn classify(w: &Vec<char>) -> (r: Option<IntegerKind>)
        ensures
            r == spec_integer_kind(w@),
    {
        if w.len() == 1 && w[0] == '0' {
            proof {
                assert(w@ =~= seq!['0']);
            }
            Some(IntegerKind::Decimal)
        } else if w.len() >= 2 && w[0] == '0' && (w[1] == 'b' || w[1] == 'B') {
            Some(IntegerKind::Binary)
        } else if w.len() >= 1 && w[0] == '0' && all_octal_chars(w) {
            Some(IntegerKind::Octal)
        } else if w.len() >= 2 && w[0] == '0' && (w[1] == 'x' || w[1] == 'X') {
            Some(IntegerKind::HexaDecimal)
        } else if w.len() >= 1 && w[0] != '0' && all_decimal_chars(w) {
            Some(IntegerKind::Decimal)
        } else {
            None
        }
    }

    /// Radix classification of a raw literal span. `None` reports the
    /// unclassifiable-literal condition as an ordinary value; the scanner
    /// turns it into an invalid token rather than aborting.
    pub fn get_kind(s: &str) -> (r: Option<IntegerKind>)
        ensures
            r == spec_integer_kind(s@),
    {
        let w = chars_of(s);
        IntegerKind::classify(&w)
    }
}

impl Token {
    /// Look `w` up in the keyword table.
    pub fn keyword_lookup(w: &Vec<char>) -> (r: Option<Token>)
        ensures
            r == spec_keyword_lookup(w@),
    {
        if w.len() == 2 && w[0] == 'i' && w[1] == 'f' {
            proof {
                assert(w@ =~= seq!['i', 'f']);
            }
            Some(Token::If)
        } else if w.len() == 4 && w[0] == 'e' && w[1] == 'l' && w[2] == 's' && w[3] == 'e' {
            proof {
                assert(w@ =~= seq!['e', 'l', 's', 'e']);
            }
            Some(Token::Else)
        } else if w.len() == 4 && w[0] == 'e' && w[1] == 'l' && w[2] == 'i' && w[3] == 'f' {
            proof {
                assert(w@ =~= seq!['e', 'l', 'i', 'f']);
            }
            Some(Token::Elif)
        } else if w.len() == 4 && w[0] == 't' && w[1] == 'r' && w[2] == 'u' && w[3] == 'e' {
            proof {
                assert(w@ =~= seq!['t', 'r', 'u', 'e']);
            }
            Some(Token::True)
        } else if w.len() == 5 && w[0] == 'f' && w[1] == 'a' && w[2] == 'l' && w[3] == 's'
            && w[4] == 'e' {
            proof {
                assert(w@ =~= seq!['f', 'a', 'l', 's', 'e']);
            }
            Some(Token::False)
        } else if w.len() == 3 && w[0] == 'l' && w[1] == 'e' && w[2] == 't' {
            proof {
                assert(w@ =~= seq!['l', 'e', 't']);
            }
            Some(Token::Let)
        } else if w.len() == 2 && w[0] == 'f' && w[1] == 'n' {
            proof {
                assert(w@ =~= seq!['f', 'n']);
            }
            Some(Token::Function)
        } else if w.len() == 6 && w[0] == 'r' && w[1] == 'e' && w[2] == 't' && w[3] == 'u'
            && w[4] == 'r' && w[5] == 'n' {
            proof {
                assert(w@ =~= seq!['r', 'e', 't', 'u', 'r', 'n']);
            }
            Some(Token::Return)
        } else {
            None
        }
    }

    /// Whether `s` is exactly one of the eight keywords.
    pub fn is_keyword(s: &str) -> (r: bool)
        ensures
            r == (spec_keyword_lookup(s@) is Some),
    {
        let w = chars_of(s);
        Token::keyword_lookup(&w).is_some()
    }

    /// The keyword token for `s` when it is a keyword, and otherwise an
    /// identifier owning `s` itself.
    pub fn get_keyword(s: String) -> (t: Token)
        ensures
            t.model() == spec_keyword_token(s@),
    {
        let w = chars_of(s.as_str());
        match Token::keyword_lookup(&w) {
            Some(t) => t,
            None => Token::Identifier(s),
        }
    }
}

} // verus!
