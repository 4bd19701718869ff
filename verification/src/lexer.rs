//! The scanning state machine: a cursor over the source characters and the
//! "produce next token" operation, specified against a mathematical model
//! of one scan step.

use vstd::prelude::*;
use vstd::string::StrSliceExecFns;

use crate::token::IntegerKind;
use crate::token::SpecToken;
use crate::token::Token;
use crate::token::TokenError;
use crate::token::chars_of;
use crate::token::is_digit_char;
use crate::token::is_digit_like_char;
use crate::token::is_letter_char;
use crate::token::is_ws_char;
use crate::token::spec_integer_kind;
use crate::token::spec_keyword_token;

verus! {

/// The input left after discarding the maximal run of leading whitespace.
pub open spec fn skip_ws(s: Seq<char>) -> Seq<char>
    decreases s.len(),
{
    if s.len() > 0 && is_ws_char(s[0]) {
        skip_ws(s.drop_first())
    } else {
        s
    }
}

/// The maximal run of letters at the front of `s`: the text of an
/// identifier or keyword scanned at this point.
pub open spec fn letter_prefix(s: Seq<char>) -> Seq<char>
    decreases s.len(),
{
    if s.len() > 0 && is_letter_char(s[0]) {
        seq![s[0]] + letter_prefix(s.drop_first())
    } else {
        Seq::empty()
    }
}

/// The maximal run of digit-like characters at the front of `s`: the raw
/// span of an integer literal scanned at this point.
pub open spec fn digit_like_prefix(s: Seq<char>) -> Seq<char>
    decreases s.len(),
{
    if s.len() > 0 && is_digit_like_char(s[0]) {
        seq![s[0]] + digit_like_prefix(s.drop_first())
    } else {
        Seq::empty()
    }
}

/// The outcome of one scan step: the token produced and the input left
/// after it.
pub struct ScanStep {
    pub token: SpecToken,
    pub rest: Seq<char>,
}

/// One scan step on input `t` that carries no leading whitespace: the
/// classification rules of the tokenizer, in their order of priority.
pub open spec fn spec_scan_at(t: Seq<char>) -> ScanStep {
    if t.len() == 0 {
        ScanStep { token: SpecToken::EndOfInput, rest: t }
    } else {
        let c = t[0];
        if c == '>' {
            ScanStep { token: SpecToken::Gt, rest: t.drop_first() }
        } else if c == '<' {
            ScanStep { token: SpecToken::Lt, rest: t.drop_first() }
        } else if c == '*' {
            ScanStep { token: SpecToken::Star, rest: t.drop_first() }
        } else if c == '+' {
            ScanStep { token: SpecToken::Plus, rest: t.drop_first() }
        } else if c == '-' {
            ScanStep { token: SpecToken::Minus, rest: t.drop_first() }
        } else if c == '/' {
            ScanStep { token: SpecToken::Slash, rest: t.drop_first() }
        } else if c == ',' {
            ScanStep { token: SpecToken::Comma, rest: t.drop_first() }
        } else if c == '{' {
            ScanStep { token: SpecToken::LeftCurly, rest: t.drop_first() }
        } else if c == ';' {
            ScanStep { token: SpecToken::Semicolon, rest: t.drop_first() }
        } else if c == '(' {
            ScanStep { token: SpecToken::LeftParen, rest: t.drop_first() }
        } else if c == '}' {
            ScanStep { token: SpecToken::RightCurly, rest: t.drop_first() }
        } else if c == ')' {
            ScanStep { token: SpecToken::RightParen, rest: t.drop_first() }
        } else if c == '=' {
            if t.len() >= 2 && t[1] == '=' {
                ScanStep { token: SpecToken::Equal, rest: t.skip(2) }
            } else {
                ScanStep { token: SpecToken::Assign, rest: t.drop_first() }
            }
        } else if c == '!' {
            if t.len() >= 2 && t[1] == '=' {
                ScanStep { token: SpecToken::NotEqual, rest: t.skip(2) }
            } else {
                ScanStep { token: SpecToken::Exclamation, rest: t.drop_first() }
            }
        } else if is_letter_char(c) {
            let w = letter_prefix(t);
            ScanStep { token: spec_keyword_token(w), rest: t.skip(w.len() as int) }
        } else if is_digit_char(c) {
            let w = digit_like_prefix(t);
            let token = match spec_integer_kind(w) {
                Some(k) => SpecToken::Integer(k),
                None => SpecToken::Invalid(TokenError::Unknown),
            };
            ScanStep { token, rest: t.skip(w.len() as int) }
        } else {
            ScanStep { token: SpecToken::Invalid(TokenError::Unknown), rest: t.drop_first() }
        }
    }
}

/// One full call of "produce next token" on input `s`: discard leading
/// whitespace, then take one scan step.
pub open spec fn spec_scan(s: Seq<char>) -> ScanStep {
    spec_scan_at(skip_ws(s))
}

/// What discarding whitespace leaves: a suffix of the input whose head is
/// not whitespace, with nothing but whitespace before it.
pub proof fn lemma_skip_ws_props(s: Seq<char>)
    ensures
        skip_ws(s).len() <= s.len(),
        skip_ws(s).len() > 0 ==> !is_ws_char(skip_ws(s)[0]),
        skip_ws(s) == s.skip(s.len() - skip_ws(s).len()),
        forall|i: int| 0 <= i < s.len() - skip_ws(s).len() ==> is_ws_char(#[trigger] s[i]),
    decreases s.len(),
{
    if s.len() > 0 && is_ws_char(s[0]) {
        lemma_skip_ws_props(s.drop_first());
        assert(skip_ws(s) == s.skip(s.len() - skip_ws(s).len())) by {
            assert(s.drop_first().skip(
                s.drop_first().len() - skip_ws(s.drop_first()).len(),
            ) =~= s.skip(s.len() - skip_ws(s).len()));
        }
        assert forall|i: int| 0 <= i < s.len() - skip_ws(s).len() implies is_ws_char(
            #[trigger] s[i],
        ) by {
            if i > 0 {
                assert(s[i] == s.drop_first()[i - 1]);
            }
        }
    } else {
        assert(s.skip(0) =~= s);
    }
}

/// The maximal letter run is a prefix of the input made of letters, and the
/// character after it, if any, is not a letter.
pub proof fn lemma_letter_prefix_props(s: Seq<char>)
    ensures
        letter_prefix(s).len() <= s.len(),
        forall|i: int| 0 <= i < letter_prefix(s).len() ==> #[trigger] letter_prefix(s)[i] == s[i],
        forall|i: int| 0 <= i < letter_prefix(s).len() ==> is_letter_char(#[trigger] s[i]),
        letter_prefix(s).len() < s.len() ==> !is_letter_char(s[letter_prefix(s).len() as int]),
        s.len() > 0 && is_letter_char(s[0]) ==> letter_prefix(s).len() >= 1,
    decreases s.len(),
{
    if s.len() > 0 && is_letter_char(s[0]) {
        lemma_letter_prefix_props(s.drop_first());
        let l = letter_prefix(s);
        let lt = letter_prefix(s.drop_first());
        assert forall|i: int| 0 <= i < l.len() implies #[trigger] l[i] == s[i] by {
            if i > 0 {
                assert(l[i] == lt[i - 1]);
                assert(s[i] == s.drop_first()[i - 1]);
            }
        }
        assert forall|i: int| 0 <= i < l.len() implies is_letter_char(#[trigger] s[i]) by {
            if i > 0 {
                assert(s[i] == s.drop_first()[i - 1]);
                assert(is_letter_char(s.drop_first()[i - 1]));
            }
        }
        if l.len() < s.len() {
            assert(s[l.len() as int] == s.drop_first()[lt.len() as int]);
        }
    }
}

/// The maximal digit-like run is a prefix of the input made of digit-like
/// characters, and the character after it, if any, is not digit-like.
pub proof fn lemma_digit_like_prefix_props(s: Seq<char>)
    ensures
        digit_like_prefix(s).len() <= s.len(),
        forall|i: int|
            0 <= i < digit_like_prefix(s).len() ==> #[trigger] digit_like_prefix(s)[i] == s[i],
        forall|i: int| 0 <= i < digit_like_prefix(s).len() ==> is_digit_like_char(#[trigger] s[i]),
        digit_like_prefix(s).len() < s.len() ==> !is_digit_like_char(
            s[digit_like_prefix(s).len() as int],
        ),
        s.len() > 0 && is_digit_like_char(s[0]) ==> digit_like_prefix(s).len() >= 1,
    decreases s.len(),
{
    if s.len() > 0 && is_digit_like_char(s[0]) {
        lemma_digit_like_prefix_props(s.drop_first());
        let l = digit_like_prefix(s);
        let lt = digit_like_prefix(s.drop_first());
        assert forall|i: int| 0 <= i < l.len() implies #[trigger] l[i] == s[i] by {
            if i > 0 {
                assert(l[i] == lt[i - 1]);
                assert(s[i] == s.drop_first()[i - 1]);
            }
        }
        assert forall|i: int| 0 <= i < l.len() implies is_digit_like_char(#[trigger] s[i]) by {
            if i > 0 {
                assert(s[i] == s.drop_first()[i - 1]);
                assert(is_digit_like_char(s.drop_first()[i - 1]));
            }
        }
        if l.len() < s.len() {
            assert(s[l.len() as int] == s.drop_first()[lt.len() as int]);
        }
    }
}

/// Every scan step stays inside the input; a step that yields a token other
/// than `EndOfInput` consumes at least one character, and the step that
/// yields `EndOfInput` leaves nothing behind.
pub proof fn lemma_scan_progress(s: Seq<char>)
    ensures
        spec_scan(s).rest.len() <= s.len(),
        spec_scan(s).token != SpecToken::EndOfInput ==> spec_scan(s).rest.len() < s.len(),
        spec_scan(s).token == SpecToken::EndOfInput <==> skip_ws(s).len() == 0,
        spec_scan(s).token == SpecToken::EndOfInput ==> spec_scan(s).rest
            == Seq::<char>::empty(),
{
    lemma_skip_ws_props(s);
    let t = skip_ws(s);
    if t.len() == 0 {
        assert(t =~= Seq::<char>::empty());
    } else {
        lemma_letter_prefix_props(t);
        lemma_digit_like_prefix_props(t);
    }
}

/// The full token stream of input `s`: the tokens of every scan step up to,
/// and not including, the terminal `EndOfInput`.
pub open spec fn spec_tokens(s: Seq<char>) -> Seq<SpecToken>
    decreases s.len(),
    via spec_tokens_decreases
{
    let step = spec_scan(s);
    if step.token == SpecToken::EndOfInput {
        Seq::empty()
    } else {
        seq![step.token] + spec_tokens(step.rest)
    }
}

#[via_fn]
proof fn spec_tokens_decreases(s: Seq<char>) {
    lemma_scan_progress(s);
}

/// The scanning state over one source string: the source characters, the
/// cursor, and the character under the cursor (`None` once the cursor has
/// passed the last character).
pub struct Lexer {
    input: Vec<char>,
    src: String,
    current: usize,
    ch: Option<char>,
}

impl Lexer {
    /// The cursor stays inside the source, and `ch` mirrors the character
    /// under it, with `None` as the explicit end-of-input sentinel.
    pub closed spec fn well_formed(self) -> bool {
        &&& self.src@ == self.input@
        &&& self.current <= self.input@.len()
        &&& self.ch == (if self.current < self.input@.len() {
            Some(self.input@[self.current as int])
        } else {
            None::<char>
        })
    }

    /// The source characters, in full.
    pub closed spec fn source(self) -> Seq<char> {
        self.input@
    }

    /// The characters not yet consumed: the cursor's suffix of the source.
    pub closed spec fn remaining(self) -> Seq<char> {
        self.input@.skip(self.current as int)
    }

    /// Make a lexer over `input`, with the cursor on the first character
    /// (or already at end of input when `input` is empty).
    pub fn new(input: &str) -> (lx: Lexer)
        ensures
            lx.well_formed(),
            lx.source() == input@,
            lx.remaining() == input@,
    {
        let v = chars_of(input);
        let ch = if v.len() > 0 {
            Some(v[0])
        } else {
            None
        };
        let lx = Lexer { input: v, src: input.to_owned(), current: 0, ch };
        proof {
            assert(lx.remaining() =~= input@);
        }
        lx
    }

    /// Advance the cursor by one character and refresh the character under
    /// it. Past end of input this is idempotent: the state does not change.
    pub fn read_char(&mut self)
        requires
            old(self).well_formed(),
        ensures
            final(self).well_formed(),
            final(self).source() == old(self).source(),
            old(self).remaining().len() > 0 ==> final(self).remaining() == old(
                self,
            ).remaining().drop_first(),
            old(self).remaining().len() == 0 ==> *final(self) == *old(self),
    {
        if self.current < self.input.len() {
            self.current = self.current + 1;
            proof {
                assert(self.remaining() =~= old(self).remaining().drop_first());
            }
        }
        self.ch = if self.current < self.input.len() {
            Some(self.input[self.current])
        } else {
            None
        };
    }

    /// The character one position beyond the cursor, without moving it, or
    /// `None` when that position is beyond the source.
    pub fn peek_next_char(&self) -> (c: Option<char>)
        requires
            self.well_formed(),
        ensures
            c == (if self.remaining().len() >= 2 {
                Some(self.remaining()[1])
            } else {
                None::<char>
            }),
    {
        if self.current < self.input.len() && self.current + 1 < self.input.len() {
            Some(self.input[self.current + 1])
        } else {
            None
        }
    }

    /// Whether `ch` may form part of an identifier or keyword.
    pub fn is_letter(ch: char) -> (r: bool)
        ensures
            r == is_letter_char(ch),
    {
        ('a' <= ch && ch <= 'z') || ('A' <= ch && ch <= 'Z')
    }

    /// Whether `ch` may continue an integer literal: a digit, or a letter
    /// such as a radix marker or a hexadecimal digit.
    pub fn is_digit(ch: char) -> (r: bool)
        ensures
            r == is_digit_like_char(ch),
    {
        ('0' <= ch && ch <= '9') || Lexer::is_letter(ch)
    }

    /// Consume the maximal run of whitespace under the cursor, leaving it
    /// on the first non-whitespace character or at end of input.
    pub fn eat_whitespace(&mut self)
        requires
            old(self).well_formed(),
        ensures
            final(self).well_formed(),
            final(self).source() == old(self).source(),
            final(self).remaining() == skip_ws(old(self).remaining()),
    {
        let ghost orig = *self;
        loop
            invariant
                self.well_formed(),
                self.source() == orig.source(),
                skip_ws(orig.remaining()) == skip_ws(self.remaining()),
            ensures
                self.well_formed(),
                self.source() == orig.source(),
                self.remaining() == skip_ws(orig.remaining()),
            decreases self.remaining().len(),
        {
            match self.ch {
                Some(c) => {
                    if c == ' ' || c == '\t' || c == '\n' || c == '\r' {
                        proof {
                            assert(self.remaining().len() > 0);
                            assert(self.remaining()[0] == c);
                        }
                        self.read_char();
                    } else {
                        proof {
                            assert(self.remaining()[0] == c);
                            assert(skip_ws(self.remaining()) == self.remaining());
                        }
                        break;
                    }
                },
                None => {
                    proof {
                        assert(self.remaining().len() == 0);
                        assert(skip_ws(self.remaining()) == self.remaining());
                    }
                    break;
                },
            }
        }
    }

    /// Consume the maximal run of letters under the cursor and hand back a
    /// copy of the scanned text.
    pub fn read_identifier(&mut self) -> (w: String)
        requires
            old(self).well_formed(),
        ensures
            final(self).well_formed(),
            final(self).source() == old(self).source(),
            w@ == letter_prefix(old(self).remaining()),
            final(self).remaining() == old(self).remaining().skip(w@.len() as int),
    {
        let start = self.current;
        let ghost orig = *self;
        loop
            invariant
                self.well_formed(),
                self.source() == orig.source(),
                start == orig.current,
                start <= self.current,
                letter_prefix(orig.remaining()) == orig.source().subrange(
                    start as int,
                    self.current as int,
                ) + letter_prefix(self.remaining()),
            ensures
                self.well_formed(),
                self.source() == orig.source(),
                start <= self.current,
                letter_prefix(orig.remaining()) == orig.source().subrange(
                    start as int,
                    self.current as int,
                ),
            decreases self.remaining().len(),
        {
            match self.ch {
                Some(c) => {
                    if Lexer::is_letter(c) {
                        proof {
                            assert(self.remaining().len() > 0);
                            assert(self.remaining()[0] == c);
                            assert(letter_prefix(self.remaining()) == seq![c] + letter_prefix(
                                self.remaining().drop_first(),
                            ));
                            assert(orig.source().subrange(start as int, self.current as int + 1)
                                =~= orig.source().subrange(start as int, self.current as int)
                                + seq![c]);
                            assert((orig.source().subrange(start as int, self.current as int)
                                + seq![c]) + letter_prefix(self.remaining().drop_first())
                                =~= orig.source().subrange(start as int, self.current as int) + (
                            seq![c] + letter_prefix(self.remaining().drop_first())));
                        }
                        self.read_char();
                    } else {
                        proof {
                            assert(self.remaining()[0] == c);
                            assert(letter_prefix(self.remaining()) =~= Seq::<char>::empty());
                        }
                        break;
                    }
                },
                None => {
                    proof {
                        assert(self.remaining().len() == 0);
                        assert(letter_prefix(self.remaining()) =~= Seq::<char>::empty());
                    }
                    break;
                },
            }
        }
        let w = self.src.as_str().substring_char(start, self.current).to_owned();
        proof {
            assert(old(self).remaining().skip(w@.len() as int) =~= self.remaining());
        }
        w
    }

    /// Consume the maximal run of digit-like characters under the cursor
    /// and hand back a copy of the raw literal span.
    pub fn read_digit(&mut self) -> (w: String)
        requires
            old(self).well_formed(),
        ensures
            final(self).well_formed(),
            final(self).source() == old(self).source(),
            w@ == digit_like_prefix(old(self).remaining()),
            final(self).remaining() == old(self).remaining().skip(w@.len() as int),
    {
        let start = self.current;
        let ghost orig = *self;
        loop
            invariant
                self.well_formed(),
                self.source() == orig.source(),
                start == orig.current,
                start <= self.current,
                digit_like_prefix(orig.remaining()) == orig.source().subrange(
                    start as int,
                    self.current as int,
                ) + digit_like_prefix(self.remaining()),
            ensures
                self.well_formed(),
                self.source() == orig.source(),
                start <= self.current,
                digit_like_prefix(orig.remaining()) == orig.source().subrange(
                    start as int,
                    self.current as int,
                ),
            decreases self.remaining().len(),
        {
            match self.ch {
                Some(c) => {
                    if Lexer::is_digit(c) {
                        proof {
                            assert(self.remaining().len() > 0);
                            assert(self.remaining()[0] == c);
                            assert(digit_like_prefix(self.remaining()) == seq![c]
                                + digit_like_prefix(self.remaining().drop_first()));
                            assert(orig.source().subrange(start as int, self.current as int + 1)
                                =~= orig.source().subrange(start as int, self.current as int)
                                + seq![c]);
                            assert((orig.source().subrange(start as int, self.current as int)
                                + seq![c]) + digit_like_prefix(self.remaining().drop_first())
                                =~= orig.source().subrange(start as int, self.current as int) + (
                            seq![c] + digit_like_prefix(self.remaining().drop_first())));
                        }
                        self.read_char();
                    } else {
                        proof {
                            assert(self.remaining()[0] == c);
                            assert(digit_like_prefix(self.remaining()) =~= Seq::<char>::empty());
                        }
                        break;
                    }
                },
                None => {
                    proof {
                        assert(self.remaining().len() == 0);
                        assert(digit_like_prefix(self.remaining()) =~= Seq::<char>::empty());
                    }
                    break;
                },
            }
        }
        let w = self.src.as_str().substring_char(start, self.current).to_owned();
        proof {
            assert(old(self).remaining().skip(w@.len() as int) =~= self.remaining());
        }
        w
    }

    /// Produce the next token: discard whitespace, classify the character
    /// under the cursor, and consume exactly the characters of the token.
    /// Once end of input is reached, every further call keeps returning
    /// `Token::EndOfInput`.
    pub fn next_token(&mut self) -> (t: Token)
        requires
            old(self).well_formed(),
        ensures
            final(self).well_formed(),
            final(self).source() == old(self).source(),
            t.model() == spec_scan(old(self).remaining()).token,
            final(self).remaining() == spec_scan(old(self).remaining()).rest,
    {
        self.eat_whitespace();
        let ghost t0 = self.remaining();
        match self.ch {
            None => {
                proof {
                    assert(t0.len() == 0);
                }
                Token::EndOfInput
            },
            Some(c) => {
                proof {
                    assert(t0.len() > 0);
                    assert(t0[0] == c);
                }
                if c == '>' {
                    self.read_char();
                    Token::Gt
                } else if c == '<' {
                    self.read_char();
                    Token::Lt
                } else if c == '*' {
                    self.read_char();
                    Token::Star
                } else if c == '+' {
                    self.read_char();
                    Token::Plus
                } else if c == '-' {
                    self.read_char();
                    Token::Minus
                } else if c == '/' {
                    self.read_char();
                    Token::Slash
                } else if c == ',' {
                    self.read_char();
                    Token::Comma
                } else if c == '{' {
                    self.read_char();
                    Token::LeftCurly
                } else if c == ';' {
                    self.read_char();
                    Token::Semicolon
                } else if c == '(' {
                    self.read_char();
                    Token::LeftParen
                } else if c == '}' {
                    self.read_char();
                    Token::RightCurly
                } else if c == ')' {
                    self.read_char();
                    Token::RightParen
                } else if c == '=' {
                    let two = match self.peek_next_char() {
                        Some(c2) => c2 == '=',
                        None => false,
                    };
                    if two {
                        self.read_char();
                        self.read_char();
                        proof {
                            assert(self.remaining() =~= t0.skip(2));
                        }
                        Token::Equal
                    } else {
                        self.read_char();
                        Token::Assign
                    }
                } else if c == '!' {
                    let two = match self.peek_next_char() {
                        Some(c2) => c2 == '=',
                        None => false,
                    };
                    if two {
                        self.read_char();
                        self.read_char();
                        proof {
                            assert(self.remaining() =~= t0.skip(2));
                        }
                        Token::NotEqual
                    } else {
                        self.read_char();
                        Token::Exclamation
                    }
                } else if Lexer::is_letter(c) {
                    let w = self.read_identifier();
                    Token::get_keyword(w)
                } else if Lexer::is_digit(c) {
                    let w = self.read_digit();
                    match IntegerKind::get_kind(w.as_str()) {
                        Some(k) => Token::Integer(k),
                        None => Token::Invalid(TokenError::Unknown),
                    }
                } else {
                    self.read_char();
                    Token::Invalid(TokenError::Unknown)
                }
            },
        }
    }
}

} // verus!
