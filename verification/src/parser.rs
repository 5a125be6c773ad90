//! The script lexer: a single-pass tokeniser with one-token lookahead over
//! the declarative theme-script text.
//!
//! Tokens are identifiers (borrowed slices of the source), single-character
//! symbols, quoted string literals (owned, no escape processing) and signed
//! 64-bit integers.  A string literal missing its closing quote reads as an
//! exhausted input (its consumer reports the end-of-input error), and an
//! integer too large for 64 bits saturates.
#![allow(unused_imports)]
use vstd::prelude::*;
use vstd::string::StrSliceExecFns;

use crate::LemError;

verus! {

/// One lexical token.  Identifiers borrow the source text; string literals
/// own their content.
#[derive(PartialEq, Debug)]
pub enum Token<'a> {
    Ident(&'a str),
    Symbol(char),
    StringLiteral(String),
    NumericLiteral(i64),
}

/// The mathematical value of a token, with text as character sequences.
pub enum TokView {
    Ident(Seq<char>),
    Symbol(char),
    StrLit(Seq<char>),
    Num(i64),
}

/// The value of a token.
pub open spec fn tok_view(t: Token<'_>) -> TokView {
    match t {
        Token::Ident(s) => TokView::Ident(s@),
        Token::Symbol(c) => TokView::Symbol(c),
        Token::StringLiteral(s) => TokView::StrLit(s@),
        Token::NumericLiteral(n) => TokView::Num(n),
    }
}

impl<'a> Clone for Token<'a> {
    /// An equal token; the content of a string literal is copied.
    fn clone(&self) -> (r: Self)
        ensures
            r == *self,
    {
        match self {
            Token::Ident(s) => Token::Ident(s),
            Token::Symbol(c) => Token::Symbol(*c),
            Token::StringLiteral(s) => Token::StringLiteral(s.clone()),
            Token::NumericLiteral(n) => Token::NumericLiteral(*n),
        }
    }
}

/// Token-separating white space.
pub open spec fn is_space_char(c: char) -> bool {
    c == ' ' || c == '\t' || c == '\n' || c == '\r'
}

/// A decimal digit.
pub open spec fn is_digit_char(c: char) -> bool {
    '0' <= c && c <= '9'
}

/// A character that may stand in an identifier.
pub open spec fn is_word_char(c: char) -> bool {
    is_digit_char(c) || ('a' <= c && c <= 'z') || ('A' <= c && c <= 'Z') || c == '_'
}

/// The first index at or after `i` that does not hold white space.
pub open spec fn skip_ws(s: Seq<char>, i: int) -> int
    decreases s.len() - i,
{
    if 0 <= i < s.len() && is_space_char(s[i]) {
        skip_ws(s, i + 1)
    } else {
        i
    }
}

/// The first index at or after `i` that does not hold a word character.
pub open spec fn scan_word_end(s: Seq<char>, i: int) -> int
    decreases s.len() - i,
{
    if 0 <= i < s.len() && is_word_char(s[i]) {
        scan_word_end(s, i + 1)
    } else {
        i
    }
}

/// The first index at or after `i` that does not hold a digit.
pub open spec fn scan_digits_end(s: Seq<char>, i: int) -> int
    decreases s.len() - i,
{
    if 0 <= i < s.len() && is_digit_char(s[i]) {
        scan_digits_end(s, i + 1)
    } else {
        i
    }
}

/// The first index at or after `i` that holds a closing quote, or the length.
pub open spec fn scan_string_end(s: Seq<char>, i: int) -> int
    decreases s.len() - i,
{
    if 0 <= i < s.len() && s[i] != '"' {
        scan_string_end(s, i + 1)
    } else {
        i
    }
}

/// The decimal value of the digits `s[i .. j]`.
pub open spec fn digits_val(s: Seq<char>, i: int, j: int) -> int
    decreases j - i,
{
    if i >= j {
        0
    } else {
        digits_val(s, i, j - 1) * 10 + (s[j - 1] as u32 - 48)
    }
}

/// A mathematical integer forced into the 64-bit signed range.
pub open spec fn clamp_i64(v: int) -> i64 {
    if v > i64::MAX {
        i64::MAX
    } else if v < i64::MIN {
        i64::MIN
    } else {
        v as i64
    }
}

/// The token starting at or after position `i` of `s`, with the position
/// following it, or `None` at the end of the input.
pub open spec fn spec_next_token(s: Seq<char>, i: int) -> Option<(TokView, int)> {
    let j = skip_ws(s, i);
    if j >= s.len() {
        None
    } else {
        let c = s[j];
        if c == '"' {
            let e = scan_string_end(s, j + 1);
            if e < s.len() {
                Some((TokView::StrLit(s.subrange(j + 1, e)), e + 1))
            } else {
                None
            }
        } else if is_digit_char(c) {
            let e = scan_digits_end(s, j);
            Some((TokView::Num(clamp_i64(digits_val(s, j, e))), e))
        } else if c == '-' {
            if j + 1 < s.len() && is_digit_char(s[j + 1]) {
                let e = scan_digits_end(s, j + 1);
                Some((TokView::Num(clamp_i64(-digits_val(s, j + 1, e))), e))
            } else {
                Some((TokView::Symbol('-'), j + 1))
            }
        } else if is_word_char(c) {
            let e = scan_word_end(s, j);
            Some((TokView::Ident(s.subrange(j, e)), e))
        } else {
            Some((TokView::Symbol(c), j + 1))
        }
    }
}

/// Skipping white space never moves backwards nor past the end.
pub proof fn lemma_skip_ws_bounds(s: Seq<char>, i: int)
    requires
        0 <= i <= s.len(),
    ensures
        i <= skip_ws(s, i) <= s.len(),
    decreases s.len() - i,
{
    if i < s.len() && is_space_char(s[i]) {
        lemma_skip_ws_bounds(s, i + 1);
    }
}

/// The scanners never move backwards nor past the end.
pub proof fn lemma_scan_bounds(s: Seq<char>, i: int)
    requires
        0 <= i <= s.len(),
    ensures
        i <= scan_word_end(s, i) <= s.len(),
        i <= scan_digits_end(s, i) <= s.len(),
        i <= scan_string_end(s, i) <= s.len(),
    decreases s.len() - i,
{
    if i < s.len() {
        lemma_scan_bounds(s, i + 1);
    }
}

/// Consuming a token moves the scan position strictly forward, and not past
/// the end of the input.
pub proof fn lemma_next_token_advances(s: Seq<char>, i: int)
    requires
        0 <= i <= s.len(),
        spec_next_token(s, i) is Some,
    ensures
        i < spec_next_token(s, i)->Some_0.1 <= s.len(),
{
    let j = skip_ws(s, i);
    lemma_skip_ws_bounds(s, i);
    let c = s[j];
    if c == '"' {
        lemma_scan_bounds(s, j + 1);
    } else if is_digit_char(c) {
        lemma_scan_bounds(s, j);
        assert(scan_digits_end(s, j) == scan_digits_end(s, j + 1));
        lemma_scan_bounds(s, j + 1);
    } else if c == '-' {
        if j + 1 < s.len() && is_digit_char(s[j + 1]) {
            lemma_scan_bounds(s, j + 1);
            assert(scan_digits_end(s, j + 1) == scan_digits_end(s, j + 2));
            lemma_scan_bounds(s, j + 2);
        }
    } else if is_word_char(c) {
        lemma_scan_bounds(s, j);
        assert(scan_word_end(s, j) == scan_word_end(s, j + 1));
        lemma_scan_bounds(s, j + 1);
    }
}

/// A lexer over a borrowed source text, with a one-token lookahead buffer.
pub struct Lexer<'a> {
    data: &'a str,
    offset: usize,
    buffered_token: Option<Token<'a>>,
}

impl<'a> Lexer<'a> {
    /// The source text.
    pub closed spec fn src(self) -> Seq<char> {
        self.data@
    }

    /// The current scan position, in characters.
    pub closed spec fn pos(self) -> int {
        self.offset as int
    }

    /// The token handed back by `unget_token`, if any.
    pub closed spec fn buffered(self) -> Option<Token<'a>> {
        self.buffered_token
    }

    /// The scan position stays within the source.
    pub open spec fn wf(self) -> bool {
        0 <= self.pos() <= self.src().len()
    }

    /// Create a lexer positioned at the start of `data`.
    pub fn from_str(data: &'a str) -> (r: Lexer<'a>)
        ensures
            r.wf(),
            r.src() == data@,
            r.pos() == 0,
            r.buffered() is None,
    {
        Lexer { data, offset: 0, buffered_token: None }
    }

    /// The current scan position, in characters from the start of the
    /// source (for diagnostics).
    pub fn offset(&self) -> (r: usize)
        ensures
            r == self.pos(),
    {
        self.offset
    }

    /// Return a token to the stream; the next read hands it back.
    pub fn unget_token(&mut self, token: Token<'a>)
        requires
            old(self).buffered() is None,
        ensures
            final(self).buffered() == Some(token),
            final(self).src() == old(self).src(),
            final(self).pos() == old(self).pos(),
            final(self).wf() == old(self).wf(),
    {
        self.buffered_token = Some(token);
    }

    /// The next token, if any: a buffered one, else the one the grammar
    /// finds at the scan position.
    pub fn next_token(&mut self) -> (t: Option<Token<'a>>)
        requires
            old(self).wf(),
        ensures
            final(self).wf(),
            final(self).src() == old(self).src(),
            final(self).buffered() is None,
            old(self).buffered() is Some ==> {
                &&& t == old(self).buffered()
                &&& final(self).pos() == old(self).pos()
            },
            old(self).buffered() is None ==> match spec_next_token(old(self).src(), old(self).pos()) {
                None => t is None && final(self).pos() == old(self).src().len(),
                Some((tv, np)) => {
                    &&& t is Some
                    &&& tok_view(t->0) == tv
                    &&& final(self).pos() == np
                },
            },
    {
        if self.buffered_token.is_some() {
            let mut taken: Option<Token<'a>> = None;
            core::mem::swap(&mut taken, &mut self.buffered_token);
            return taken;
        }
        let s = self.data;
        let n = s.unicode_len();
        let ghost sv = s@;
        // Skip token-separating white space.
        let start_off = self.offset;
        let mut j = start_off;
        loop
            invariant
                start_off <= j <= n,
                n == sv.len(),
                sv == s@,
                skip_ws(sv, start_off as int) == skip_ws(sv, j as int),
            ensures
                start_off <= j <= n,
                skip_ws(sv, start_off as int) == j,
            decreases n - j,
        {
            if j >= n {
                break;
            }
            let u = s.get_char(j) as u32;
            if !(u == 32 || u == 9 || u == 10 || u == 13) {
                proof {
                    assert(!is_space_char(sv[j as int]));
                }
                break;
            }
            j = j + 1;
        }
        self.offset = j;
        if j >= n {
            return None;
        }
        let c = s.get_char(j);
        let cu = c as u32;
        if cu == 34 {
            // A string literal: scan to the closing quote; when there is
            // none, the stream ends here and the consumer reports it.
            let start = j + 1;
            let mut e = start;
            loop
                invariant
                    start <= e <= n,
                    n == sv.len(),
                    sv == s@,
                    scan_string_end(sv, start as int) == scan_string_end(sv, e as int),
                ensures
                    start <= e <= n,
                    scan_string_end(sv, start as int) == e,
                decreases n - e,
            {
                if e >= n {
                    break;
                }
                if s.get_char(e) as u32 == 34 {
                    proof {
                        assert(sv[e as int] == '"');
                    }
                    break;
                }
                e = e + 1;
            }
            if e >= n {
                self.offset = e;
                return None;
            }
            let content = s.substring_char(start, e).to_owned();
            self.offset = e + 1;
            return Some(Token::StringLiteral(content));
        }
        let c_digit: bool = 48 <= cu && cu <= 57;
        let c_minus: bool = cu == 45;
        if c_digit || c_minus {
            let num_start = if c_minus {
                j + 1
            } else {
                j
            };
            let digit_follows: bool = if c_minus {
                if j + 1 < n {
                    let c2u = s.get_char(j + 1) as u32;
                    48 <= c2u && c2u <= 57
                } else {
                    false
                }
            } else {
                true
            };
            if !digit_follows {
                // A bare minus sign is a symbol.
                self.offset = j + 1;
                return Some(Token::Symbol(c));
            }
            let mut e = num_start;
            let mut mag: u64 = 0;
            loop
                invariant
                    num_start <= e <= n,
                    n == sv.len(),
                    sv == s@,
                    scan_digits_end(sv, num_start as int) == scan_digits_end(sv, e as int),
                    digits_val(sv, num_start as int, e as int) <= u64::MAX ==> mag == digits_val(
                        sv,
                        num_start as int,
                        e as int,
                    ),
                    digits_val(sv, num_start as int, e as int) > u64::MAX ==> mag == u64::MAX,
                    digits_val(sv, num_start as int, e as int) >= 0,
                ensures
                    num_start <= e <= n,
                    scan_digits_end(sv, num_start as int) == e,
                    digits_val(sv, num_start as int, e as int) <= u64::MAX ==> mag == digits_val(
                        sv,
                        num_start as int,
                        e as int,
                    ),
                    digits_val(sv, num_start as int, e as int) > u64::MAX ==> mag == u64::MAX,
                    digits_val(sv, num_start as int, e as int) >= 0,
                decreases n - e,
            {
                if e >= n {
                    break;
                }
                let du = s.get_char(e) as u32;
                if !(48 <= du && du <= 57) {
                    proof {
                        assert(!is_digit_char(sv[e as int]));
                    }
                    break;
                }
                let d: u64 = (du - 48) as u64;
                proof {
                    lemma_digit_step(sv, num_start as int, e as int);
                }
                if mag > (u64::MAX - d) / 10 {
                    proof {
                        lemma_sat_overflow(mag, d);
                    }
                    mag = u64::MAX;
                } else {
                    proof {
                        lemma_sat_fits(mag, d);
                    }
                    mag = mag * 10 + d;
                }
                e = e + 1;
            }
            self.offset = e;
            let ghost v = digits_val(sv, num_start as int, e as int);
            let val: i64 = if c_minus {
                if mag >= 0x8000_0000_0000_0000u64 {
                    i64::MIN
                } else {
                    proof {
                        assert(v == mag);
                    }
                    -(mag as i64)
                }
            } else {
                if mag > i64::MAX as u64 {
                    i64::MAX
                } else {
                    mag as i64
                }
            };
            proof {
                if c_minus {
                    assert(val == clamp_i64(-v));
                } else {
                    assert(val == clamp_i64(v));
                }
            }
            return Some(Token::NumericLiteral(val));
        }
        let c_word: bool = (48 <= cu && cu <= 57) || (97 <= cu && cu <= 122) || (65 <= cu && cu
            <= 90) || cu == 95;
        if !c_word {
            // Any other character stands alone as a symbol token.
            self.offset = j + 1;
            return Some(Token::Symbol(c));
        }
        let mut e = j;
        loop
            invariant
                j <= e <= n,
                n == sv.len(),
                sv == s@,
                scan_word_end(sv, j as int) == scan_word_end(sv, e as int),
            ensures
                j <= e <= n,
                scan_word_end(sv, j as int) == e,
            decreases n - e,
        {
            if e >= n {
                break;
            }
            let wu = s.get_char(e) as u32;
            if !((48 <= wu && wu <= 57) || (97 <= wu && wu <= 122) || (65 <= wu && wu <= 90) || wu
                == 95) {
                proof {
                    assert(!is_word_char(sv[e as int]));
                }
                break;
            }
            e = e + 1;
        }
        self.offset = e;
        Some(Token::Ident(s.substring_char(j, e)))
    }
}

/// The value of the token a reader of `l` would see next, if any: the
/// buffered token, else the one found at the scan position.
pub open spec fn peek_view(l: Lexer<'_>) -> Option<TokView> {
    match l.buffered() {
        Some(t) => Some(tok_view(t)),
        None => match spec_next_token(l.src(), l.pos()) {
            Some((tv, np)) => Some(tv),
            None => None,
        },
    }
}

/// `b` is `a` with its next token consumed (or at the end of the input).
pub open spec fn advanced(a: Lexer<'_>, b: Lexer<'_>) -> bool {
    &&& b.src() == a.src()
    &&& b.buffered() is None
    &&& b.wf()
    &&& match a.buffered() {
        Some(_) => b.pos() == a.pos(),
        None => match spec_next_token(a.src(), a.pos()) {
            None => b.pos() == a.src().len(),
            Some((tv, np)) => b.pos() == np,
        },
    }
}

/// How much input a reader of `l` can still consume: the characters ahead
/// of the scan position, plus one for a buffered token.  Every token read
/// shrinks it, which bounds the loops of the recursive-descent parsers.
pub open spec fn remaining_input(l: Lexer<'_>) -> int {
    l.src().len() - l.pos() + if l.buffered() is Some {
        1int
    } else {
        0int
    }
}

/// Consuming a token shrinks the remaining input; hitting the end of the
/// input at least never grows it.
pub proof fn lemma_advanced_input(a: Lexer<'_>, b: Lexer<'_>)
    requires
        a.wf(),
        advanced(a, b),
    ensures
        remaining_input(b) <= remaining_input(a),
        peek_view(a) is Some ==> remaining_input(b) < remaining_input(a),
{
    match a.buffered() {
        Some(t) => {},
        None => {
            match spec_next_token(a.src(), a.pos()) {
                None => {},
                Some((tv, np)) => {
                    lemma_next_token_advances(a.src(), a.pos());
                },
            }
        },
    }
}

/// The lexer behaves as if standing at position `p` of `s`: either its
/// cursor is there, or it has pre-read exactly the token found there into
/// its lookahead buffer.
pub open spec fn at_position(l: Lexer<'_>, s: Seq<char>, p: int) -> bool {
    &&& l.wf()
    &&& l.src() == s
    &&& match l.buffered() {
        None => l.pos() == p || (spec_next_token(s, p) is None && l.pos() == s.len()),
        Some(t) => spec_next_token(s, p) == Some((tok_view(t), l.pos())),
    }
}

/// A reader at a position sees exactly the token the spec tokenizer finds
/// there.
pub proof fn lemma_at_position_peek(l: Lexer<'_>, s: Seq<char>, p: int)
    requires
        at_position(l, s, p),
    ensures
        peek_view(l) == (match spec_next_token(s, p) {
            Some((tv, np)) => Some(tv),
            None => None::<TokView>,
        }),
{
}

/// Compare two string slices by value.
pub fn str_eq(a: &str, b: &str) -> (r: bool)
    ensures
        r == (a@ == b@),
{
    let na = a.unicode_len();
    let nb = b.unicode_len();
    if na != nb {
        return false;
    }
    let mut i: usize = 0;
    while i < na
        invariant
            i <= na,
            na == a@.len(),
            na == b@.len(),
            forall|k: int| 0 <= k < i ==> a@[k] == b@[k],
        decreases na - i,
    {
        if a.get_char(i) != b.get_char(i) {
            return false;
        }
        i = i + 1;
    }
    proof {
        assert(a@ =~= b@);
    }
    true
}

impl<'a> Lexer<'a> {
    /// Look at the next token without consuming it.  The lookahead buffer
    /// must be empty; the token read is left in it.
    pub fn peek_token(&mut self) -> (t: Option<Token<'a>>)
        requires
            old(self).wf(),
            old(self).buffered() is None,
        ensures
            final(self).wf(),
            final(self).src() == old(self).src(),
            final(self).buffered() == t,
            peek_view(*final(self)) == peek_view(*old(self)),
            t is Some <==> peek_view(*old(self)) is Some,
            t is Some ==> Some(tok_view(t->0)) == peek_view(*old(self)),
            remaining_input(*final(self)) <= remaining_input(*old(self)),
            at_position(*final(self), old(self).src(), old(self).pos()),
    {
        proof {
            if spec_next_token(old(self).src(), old(self).pos()) is Some {
                lemma_next_token_advances(old(self).src(), old(self).pos());
            }
        }
        let tok = self.next_token();
        match tok {
            Some(t) => {
                let ghost np = self.pos();
                let copy = t.clone();
                self.unget_token(t);
                proof {
                    assert(spec_next_token(old(self).src(), old(self).pos()) is Some);
                    assert(self.pos() == np);
                }
                Some(copy)
            },
            None => None,
        }
    }

    /// Whether the next token is the given identifier; the token stays
    /// available.
    pub fn is_next_ident(&mut self, ident: &str) -> (r: bool)
        requires
            old(self).wf(),
            old(self).buffered() is None,
        ensures
            final(self).wf(),
            final(self).src() == old(self).src(),
            peek_view(*final(self)) == peek_view(*old(self)),
            remaining_input(*final(self)) <= remaining_input(*old(self)),
            at_position(*final(self), old(self).src(), old(self).pos()),
            r == match peek_view(*old(self)) {
                Some(TokView::Ident(s)) => s == ident@,
                _ => false,
            },
    {
        let tok = self.peek_token();
        match tok {
            Some(Token::Ident(s)) => str_eq(s, ident),
            _ => false,
        }
    }

    /// Consume the next token, which must be the given identifier.
    pub fn expect_ident(&mut self, ident: &str) -> (r: Result<(), LemError>)
        requires
            old(self).wf(),
        ensures
            advanced(*old(self), *final(self)),
            r is Ok <==> match peek_view(*old(self)) {
                Some(TokView::Ident(s)) => s == ident@,
                _ => false,
            },
            peek_view(*old(self)) is None ==> r == Err::<(), LemError>(LemError::UnexpectedEnd),
    {
        match self.next_token() {
            None => Err(LemError::UnexpectedEnd),
            Some(Token::Ident(s)) => {
                if str_eq(s, ident) {
                    Ok(())
                } else {
                    Err(LemError::UnexpectedToken)
                }
            },
            Some(_) => Err(LemError::UnexpectedToken),
        }
    }

    /// Consume the next token, which must be the given symbol.
    pub fn expect_symbol(&mut self, sym: char) -> (r: Result<(), LemError>)
        requires
            old(self).wf(),
        ensures
            advanced(*old(self), *final(self)),
            r is Ok <==> peek_view(*old(self)) == Some(TokView::Symbol(sym)),
            peek_view(*old(self)) is None ==> r == Err::<(), LemError>(LemError::UnexpectedEnd),
    {
        match self.next_token() {
            None => Err(LemError::UnexpectedEnd),
            Some(Token::Symbol(c)) => {
                if c == sym {
                    Ok(())
                } else {
                    Err(LemError::UnexpectedToken)
                }
            },
            Some(_) => Err(LemError::UnexpectedToken),
        }
    }

    /// Consume the next token, which must be a string literal, and return
    /// its content.
    pub fn get_string_literal(&mut self) -> (r: Result<String, LemError>)
        requires
            old(self).wf(),
        ensures
            advanced(*old(self), *final(self)),
            r is Ok <==> peek_view(*old(self)) matches Some(TokView::StrLit(_)),
            r is Ok ==> Some(TokView::StrLit(r->Ok_0@)) == peek_view(*old(self)),
            peek_view(*old(self)) is None ==> r == Err::<String, LemError>(LemError::UnexpectedEnd),
    {
        match self.next_token() {
            None => Err(LemError::UnexpectedEnd),
            Some(Token::StringLiteral(s)) => Ok(s),
            Some(_) => Err(LemError::UnexpectedToken),
        }
    }

    /// Consume the next token, which must be an integer literal, and return
    /// its value.
    pub fn get_int_literal(&mut self) -> (r: Result<i64, LemError>)
        requires
            old(self).wf(),
        ensures
            advanced(*old(self), *final(self)),
            r is Ok <==> peek_view(*old(self)) matches Some(TokView::Num(_)),
            r is Ok ==> Some(TokView::Num(r->Ok_0)) == peek_view(*old(self)),
            peek_view(*old(self)) is None ==> r == Err::<i64, LemError>(LemError::UnexpectedEnd),
    {
        match self.next_token() {
            None => Err(LemError::UnexpectedEnd),
            Some(Token::NumericLiteral(n)) => Ok(n),
            Some(_) => Err(LemError::UnexpectedToken),
        }
    }
}

/// Appending a digit multiplies the value so far by ten and adds it.
proof fn lemma_digit_step(s: Seq<char>, i: int, e: int)
    requires
        i <= e,
        digits_val(s, i, e) >= 0,
    ensures
        digits_val(s, i, e + 1) == digits_val(s, i, e) * 10 + (s[e] as u32 - 48),
        digits_val(s, i, e) <= digits_val(s, i, e) * 10,
{
    assert(digits_val(s, i, e) <= digits_val(s, i, e) * 10) by (nonlinear_arith)
        requires
            digits_val(s, i, e) >= 0,
    ;
}

/// When the saturation test trips, the exact value would overflow 64 bits.
proof fn lemma_sat_overflow(mag: u64, d: u64)
    requires
        d <= 9,
        mag > (u64::MAX - d) / 10,
    ensures
        mag * 10 + d > u64::MAX,
{
    let q = (u64::MAX - d) as int / 10;
    vstd::arithmetic::div_mod::lemma_fundamental_div_mod(u64::MAX - d, 10);
    assert(mag * 10 >= (q + 1) * 10) by (nonlinear_arith)
        requires
            mag >= q + 1,
    ;
}

/// When the saturation test does not trip, the next step fits in 64 bits.
proof fn lemma_sat_fits(mag: u64, d: u64)
    requires
        d <= 9,
        mag <= (u64::MAX - d) / 10,
    ensures
        mag * 10 + d <= u64::MAX,
{
    let q = (u64::MAX - d) as int / 10;
    vstd::arithmetic::div_mod::lemma_fundamental_div_mod(u64::MAX - d, 10);
    assert(mag * 10 <= q * 10) by (nonlinear_arith)
        requires
            mag <= q,
    ;
}

} // verus!
