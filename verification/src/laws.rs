//! The tokenizer's general laws, proved against the scanning model:
//! termination of the token stream, whitespace invariance, and keyword
//! exactness.

use vstd::prelude::*;

use crate::lexer::digit_like_prefix;
use crate::lexer::lemma_digit_like_prefix_props;
use crate::lexer::lemma_letter_prefix_props;
use crate::lexer::lemma_scan_progress;
use crate::lexer::lemma_skip_ws_props;
use crate::lexer::letter_prefix;
use crate::lexer::skip_ws;
use crate::lexer::spec_scan;
use crate::lexer::spec_scan_at;
use crate::lexer::spec_tokens;
use crate::token::SpecToken;
use crate::token::is_digit_char;
use crate::token::is_digit_like_char;
use crate::token::is_letter_char;
use crate::token::is_ws_char;
use crate::token::spec_keyword_token;

verus! {

/// Every character of `a` is whitespace.
pub open spec fn all_ws(a: Seq<char>) -> bool {
    forall|i: int| 0 <= i < a.len() ==> is_ws_char(#[trigger] a[i])
}

/// Termination: every token other than `EndOfInput` consumes at least one
/// character, so a finite input yields at most as many tokens as it has
/// characters; the step that yields `EndOfInput` leaves the empty input
/// behind, on which every later step keeps yielding `EndOfInput`.
pub proof fn lemma_termination(s: Seq<char>)
    ensures
        spec_tokens(s).len() <= s.len(),
        spec_scan(s).token == SpecToken::EndOfInput ==> spec_scan(s).rest
            == Seq::<char>::empty(),
        spec_scan(Seq::<char>::empty()).token == SpecToken::EndOfInput,
        spec_scan(Seq::<char>::empty()).rest == Seq::<char>::empty(),
    decreases s.len(),
{
    lemma_scan_progress(s);
    if spec_scan(s).token != SpecToken::EndOfInput {
        lemma_termination(spec_scan(s).rest);
    }
}

/// Discarding whitespace steps over any fully-whitespace prefix.
proof fn lemma_skip_ws_all_ws_prefix(a: Seq<char>, y: Seq<char>)
    requires
        all_ws(a),
    ensures
        skip_ws(a + y) == skip_ws(y),
    decreases a.len(),
{
    if a.len() == 0 {
        assert(a + y =~= y);
    } else {
        assert((a + y)[0] == a[0]);
        assert((a + y).drop_first() =~= a.drop_first() + y);
        assert forall|i: int| 0 <= i < a.drop_first().len() implies is_ws_char(
            #[trigger] a.drop_first()[i],
        ) by {
            assert(a.drop_first()[i] == a[i + 1]);
        }
        lemma_skip_ws_all_ws_prefix(a.drop_first(), y);
    }
}

/// The maximal letter run of a letter run followed by anything that does
/// not begin with a letter is exactly that run.
proof fn lemma_letter_prefix_append(w: Seq<char>, r: Seq<char>)
    requires
        forall|i: int| 0 <= i < w.len() ==> is_letter_char(#[trigger] w[i]),
        r.len() > 0 ==> !is_letter_char(r[0]),
    ensures
        letter_prefix(w + r) == w,
    decreases w.len(),
{
    if w.len() == 0 {
        assert(w + r =~= r);
        assert(letter_prefix(w + r) =~= w);
    } else {
        let s = w + r;
        assert(s[0] == w[0]);
        assert(s.drop_first() =~= w.drop_first() + r);
        assert forall|i: int| 0 <= i < w.drop_first().len() implies is_letter_char(
            #[trigger] w.drop_first()[i],
        ) by {
            assert(w.drop_first()[i] == w[i + 1]);
        }
        lemma_letter_prefix_append(w.drop_first(), r);
        assert(letter_prefix(s) == seq![s[0]] + letter_prefix(s.drop_first()));
        assert(seq![w[0]] + w.drop_first() =~= w);
    }
}

/// The maximal digit-like run of a digit-like run followed by anything that
/// does not begin with a digit-like character is exactly that run.
proof fn lemma_digit_like_prefix_append(w: Seq<char>, r: Seq<char>)
    requires
        forall|i: int| 0 <= i < w.len() ==> is_digit_like_char(#[trigger] w[i]),
        r.len() > 0 ==> !is_digit_like_char(r[0]),
    ensures
        digit_like_prefix(w + r) == w,
    decreases w.len(),
{
    if w.len() == 0 {
        assert(w + r =~= r);
        assert(digit_like_prefix(w + r) =~= w);
    } else {
        let s = w + r;
        assert(s[0] == w[0]);
        assert(s.drop_first() =~= w.drop_first() + r);
        assert forall|i: int| 0 <= i < w.drop_first().len() implies is_digit_like_char(
            #[trigger] w.drop_first()[i],
        ) by {
            assert(w.drop_first()[i] == w[i + 1]);
        }
        lemma_digit_like_prefix_append(w.drop_first(), r);
        assert(digit_like_prefix(s) == seq![s[0]] + digit_like_prefix(s.drop_first()));
        assert(seq![w[0]] + w.drop_first() =~= w);
    }
}

/// The input with a run `a` inserted right after the text of the first `k`
/// tokens of `s` (or appended at the very end when `s` has at most `k`
/// tokens).
pub open spec fn spec_insert_ws(s: Seq<char>, k: nat, a: Seq<char>) -> Seq<char>
    decreases k,
{
    if k == 0 {
        a + s
    } else if spec_scan(s).token == SpecToken::EndOfInput {
        s + a
    } else {
        let step = spec_scan(s);
        let consumed = s.take(s.len() - step.rest.len());
        consumed + spec_insert_ws(step.rest, (k - 1) as nat, a)
    }
}

/// An inserted input is empty, opens with whitespace, or opens with the
/// first character of the input it was made from.
proof fn lemma_insert_head(s: Seq<char>, k: nat, a: Seq<char>)
    requires
        all_ws(a),
    ensures
        spec_insert_ws(s, k, a).len() == 0 || is_ws_char(spec_insert_ws(s, k, a)[0]) || (s.len()
            > 0 && spec_insert_ws(s, k, a)[0] == s[0]),
    decreases k,
{
    let ins = spec_insert_ws(s, k, a);
    if k == 0 {
        if a.len() > 0 {
            assert(ins[0] == a[0]);
        } else {
            assert(a + s =~= s);
        }
    } else if spec_scan(s).token == SpecToken::EndOfInput {
        if s.len() > 0 {
            assert(ins[0] == s[0]);
        } else {
            assert(s + a =~= a);
        }
    } else {
        lemma_scan_progress(s);
        let step = spec_scan(s);
        let consumed = s.take(s.len() - step.rest.len());
        assert(consumed.len() > 0);
        assert(ins[0] == consumed[0]);
        assert(consumed[0] == s[0]);
    }
}

/// A scan step that produced a token reads nothing past that token's text:
/// with any continuation that cannot extend the token (it is empty, opens
/// with whitespace, or opens with the very character the scan stopped on),
/// scanning the consumed prefix yields the same token and leaves exactly
/// the continuation.
proof fn lemma_scan_extend(s: Seq<char>, x: Seq<char>)
    requires
        spec_scan(s).token != SpecToken::EndOfInput,
        x.len() == 0 || is_ws_char(x[0]) || (spec_scan(s).rest.len() > 0 && x[0] == spec_scan(
            s,
        ).rest[0]),
    ensures
        spec_scan(s.take(s.len() - spec_scan(s).rest.len()) + x).token == spec_scan(s).token,
        spec_scan(s.take(s.len() - spec_scan(s).rest.len()) + x).rest == x,
{
    lemma_skip_ws_props(s);
    lemma_scan_progress(s);
    let t = skip_ws(s);
    let n = s.len() - t.len();
    let step = spec_scan_at(t);
    let rest = step.rest;
    let j = s.len() - rest.len();
    let consumed = s.take(j);
    assert(t.len() > 0);
    lemma_letter_prefix_props(t);
    lemma_digit_like_prefix_props(t);
    assert(rest.len() < t.len());
    let m = t.len() - rest.len();
    let tok_text = t.take(m);
    let ws_part = s.take(n);
    assert(all_ws(ws_part)) by {
        assert forall|i: int| 0 <= i < ws_part.len() implies is_ws_char(#[trigger] ws_part[i]) by {
            assert(ws_part[i] == s[i]);
        }
    }
    assert(consumed =~= ws_part + tok_text) by {
        assert forall|i: int| 0 <= i < consumed.len() implies consumed[i] == (ws_part
            + tok_text)[i] by {
            if i >= n {
                assert(tok_text[i - n] == t[i - n]);
                assert(t[i - n] == s[i]);
            }
        }
    }
    let u = tok_text + x;
    assert((consumed + x) =~= ws_part + u);
    lemma_skip_ws_all_ws_prefix(ws_part, u);
    let c = t[0];
    assert(tok_text[0] == c);
    assert(u[0] == c);
    assert(!is_ws_char(c));
    assert(skip_ws(u) == u);
    assert forall|i: int| 0 <= i < m implies #[trigger] u[i] == t[i] by {
        assert(u[i] == tok_text[i]);
    }
    if c == '>' || c == '<' || c == '*' || c == '+' || c == '-' || c == '/' || c == ',' || c
        == '{' || c == ';' || c == '(' || c == '}' || c == ')' {
        assert(m == 1);
        assert(u.drop_first() =~= x);
    } else if c == '=' || c == '!' {
        if t.len() >= 2 && t[1] == '=' {
            assert(m == 2);
            assert(u[1] == t[1]);
            assert(u.skip(2) =~= x);
        } else {
            assert(m == 1);
            if u.len() >= 2 {
                assert(u[1] == x[0]);
                if !is_ws_char(x[0]) {
                    assert(rest.len() > 0 && x[0] == rest[0]);
                    assert(rest == t.drop_first());
                    assert(rest[0] == t[1]);
                }
                assert(u[1] != '=');
            }
            assert(u.drop_first() =~= x);
        }
    } else if is_letter_char(c) {
        let w = letter_prefix(t);
        assert(m == w.len());
        assert(tok_text =~= w);
        assert(x.len() > 0 ==> !is_letter_char(x[0])) by {
            if x.len() > 0 && !is_ws_char(x[0]) {
                assert(rest.len() > 0 && x[0] == rest[0]);
                assert(rest == t.skip(w.len() as int));
                assert(rest[0] == t[w.len() as int]);
            }
        }
        lemma_letter_prefix_append(w, x);
        assert(u =~= w + x);
        assert(u.skip(w.len() as int) =~= x);
    } else if is_digit_char(c) {
        let w = digit_like_prefix(t);
        assert(m == w.len());
        assert(tok_text =~= w);
        assert(x.len() > 0 ==> !is_digit_like_char(x[0])) by {
            if x.len() > 0 && !is_ws_char(x[0]) {
                assert(rest.len() > 0 && x[0] == rest[0]);
                assert(rest == t.skip(w.len() as int));
                assert(rest[0] == t[w.len() as int]);
            }
        }
        lemma_digit_like_prefix_append(w, x);
        assert(u =~= w + x);
        assert(u.skip(w.len() as int) =~= x);
    } else {
        assert(m == 1);
        assert(u.drop_first() =~= x);
    }
}

/// A fully-whitespace prefix changes neither the next scan step nor the
/// token stream.
proof fn lemma_tokens_ws_prefix(a: Seq<char>, s: Seq<char>)
    requires
        all_ws(a),
    ensures
        spec_scan(a + s) == spec_scan(s),
        spec_tokens(a + s) == spec_tokens(s),
{
    lemma_skip_ws_all_ws_prefix(a, s);
}

/// Whitespace invariance: inserting a run of whitespace right after the
/// first `k` tokens of the input (equivalently, removing such a run) never
/// changes the emitted token sequence.
pub proof fn lemma_whitespace_invariance(s: Seq<char>, k: nat, a: Seq<char>)
    requires
        all_ws(a),
    ensures
        spec_tokens(spec_insert_ws(s, k, a)) == spec_tokens(s),
    decreases k,
{
    if k == 0 {
        lemma_tokens_ws_prefix(a, s);
    } else if spec_scan(s).token == SpecToken::EndOfInput {
        lemma_scan_progress(s);
        lemma_skip_ws_props(s);
        assert(all_ws(s)) by {
            assert forall|i: int| 0 <= i < s.len() implies is_ws_char(#[trigger] s[i]) by {
                assert(i < s.len() - skip_ws(s).len());
            }
        }
        lemma_skip_ws_all_ws_prefix(s, a);
        lemma_skip_ws_all_ws_prefix(a, Seq::<char>::empty());
        assert(a + Seq::<char>::empty() =~= a);
        assert(skip_ws(s + a).len() == 0);
        lemma_scan_progress(s + a);
        assert(spec_tokens(s + a) == spec_tokens(s));
    } else {
        lemma_scan_progress(s);
        let step = spec_scan(s);
        let x = spec_insert_ws(step.rest, (k - 1) as nat, a);
        lemma_insert_head(step.rest, (k - 1) as nat, a);
        lemma_scan_extend(s, x);
        lemma_whitespace_invariance(step.rest, (k - 1) as nat, a);
        assert(spec_tokens(spec_insert_ws(s, k, a)) == spec_tokens(s));
    }
}

/// Keyword exactness: scanning at a maximal letter run yields exactly the
/// keyword token when the run is one of the eight keywords, and otherwise
/// an identifier holding exactly the scanned text, consuming exactly the
/// run in either case.
pub proof fn lemma_keyword_exactness(w: Seq<char>, r: Seq<char>)
    requires
        w.len() > 0,
        forall|i: int| 0 <= i < w.len() ==> is_letter_char(#[trigger] w[i]),
        r.len() > 0 ==> !is_letter_char(r[0]),
    ensures
        spec_scan(w + r).token == spec_keyword_token(w),
        spec_scan(w + r).rest == r,
{
    let s = w + r;
    assert(s[0] == w[0]);
    assert(is_letter_char(s[0]));
    assert(!is_ws_char(s[0]));
    assert(skip_ws(s) == s);
    lemma_letter_prefix_append(w, r);
    assert(spec_scan_at(s).rest == s.skip(w.len() as int));
    assert(s.skip(w.len() as int) =~= r);
}

} // verus!
