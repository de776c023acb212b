//! The lexer: turns source text into a stream of tokens, one call at a
//! time. The specification side defines tokenization as a function over the
//! character sequence and a position.

use crate::token::{spec_lookup_identifier, lookup_identifier, Token, TokenV};
use vstd::prelude::*;
use vstd::string::*;

verus! {

/// Whether a character is ASCII whitespace, the set the lexer skips.
pub open spec fn is_ws_char(c: char) -> bool {
    c == ' ' || c == '\t' || c == '\n' || c == '\r' || c == '\u{c}'
}

/// Whether a character may appear in an identifier or keyword.
pub open spec fn is_letter_char(c: char) -> bool {
    ('a' <= c && c <= 'z') || ('A' <= c && c <= 'Z') || c == '_'
}

/// Whether a character is a decimal digit.
pub open spec fn is_digit_char(c: char) -> bool {
    '0' <= c && c <= '9'
}

/// The first position at or after `pos` that does not hold whitespace.
pub open spec fn skip_ws(s: Seq<char>, pos: int) -> int
    decreases s.len() - pos,
{
    if 0 <= pos && pos < s.len() && is_ws_char(s[pos]) {
        skip_ws(s, pos + 1)
    } else {
        pos
    }
}

/// The first position at or after `pos` that does not hold a letter.
pub open spec fn scan_letters(s: Seq<char>, pos: int) -> int
    decreases s.len() - pos,
{
    if 0 <= pos && pos < s.len() && is_letter_char(s[pos]) {
        scan_letters(s, pos + 1)
    } else {
        pos
    }
}

/// The first position at or after `pos` that does not hold a digit.
pub open spec fn scan_digits(s: Seq<char>, pos: int) -> int
    decreases s.len() - pos,
{
    if 0 <= pos && pos < s.len() && is_digit_char(s[pos]) {
        scan_digits(s, pos + 1)
    } else {
        pos
    }
}

/// The position of the first `'"'` at or after `pos`, or the end of input.
pub open spec fn scan_str_end(s: Seq<char>, pos: int) -> int
    decreases s.len() - pos,
{
    if 0 <= pos && pos < s.len() {
        if s[pos] == '"' {
            pos
        } else {
            scan_str_end(s, pos + 1)
        }
    } else {
        pos
    }
}

/// The numeric value of a sequence of decimal digits, most significant
/// first.
pub open spec fn digits_value(ds: Seq<char>) -> int
    decreases ds.len(),
{
    if ds.len() == 0 {
        0
    } else {
        digits_value(ds.drop_last()) * 10 + (ds.last() as int - '0' as int)
    }
}

/// The token an integer-literal scan produces: the numeric value where it
/// fits in an `i64`, and an illegal token where it does not.
pub open spec fn int_token(ds: Seq<char>) -> TokenV {
    if digits_value(ds) <= i64::MAX {
        TokenV::Int(digits_value(ds))
    } else {
        TokenV::Illegal
    }
}

/// One step of tokenization: the token found at `start` after skipping
/// whitespace, and the position just past it.
pub open spec fn next_token_spec(s: Seq<char>, start: int) -> (TokenV, int) {
    let pos = skip_ws(s, start);
    if pos >= s.len() {
        (TokenV::Eof, s.len() as int)
    } else {
        let c = s[pos];
        if c == '=' {
            if pos + 1 < s.len() && s[pos + 1] == '=' {
                (TokenV::Equal, pos + 2)
            } else {
                (TokenV::Assign, pos + 1)
            }
        } else if c == '!' {
            if pos + 1 < s.len() && s[pos + 1] == '=' {
                (TokenV::NotEqual, pos + 2)
            } else {
                (TokenV::Bang, pos + 1)
            }
        } else if c == '+' {
            (TokenV::Plus, pos + 1)
        } else if c == '-' {
            (TokenV::Minus, pos + 1)
        } else if c == '*' {
            (TokenV::Asterisk, pos + 1)
        } else if c == '/' {
            (TokenV::Slash, pos + 1)
        } else if c == '%' {
            (TokenV::Percent, pos + 1)
        } else if c == '<' {
            (TokenV::LessThan, pos + 1)
        } else if c == '>' {
            (TokenV::GreaterThan, pos + 1)
        } else if c == ';' {
            (TokenV::Semicolon, pos + 1)
        } else if c == ',' {
            (TokenV::Comma, pos + 1)
        } else if c == '(' {
            (TokenV::Lparen, pos + 1)
        } else if c == ')' {
            (TokenV::Rparen, pos + 1)
        } else if c == '{' {
            (TokenV::Lbrace, pos + 1)
        } else if c == '}' {
            (TokenV::Rbrace, pos + 1)
        } else if c == '"' {
            let e = scan_str_end(s, pos + 1);
            if e < s.len() {
                (TokenV::Str(s.subrange(pos + 1, e)), e + 1)
            } else {
                (TokenV::Illegal, s.len() as int)
            }
        } else if is_letter_char(c) {
            let e = scan_letters(s, pos);
            (spec_lookup_identifier(s.subrange(pos, e)), e)
        } else if is_digit_char(c) {
            let e = scan_digits(s, pos);
            (int_token(s.subrange(pos, e)), e)
        } else {
            (TokenV::Illegal, pos + 1)
        }
    }
}

pub proof fn lemma_skip_ws_bounds(s: Seq<char>, pos: int)
    requires
        0 <= pos <= s.len(),
    ensures
        pos <= skip_ws(s, pos) <= s.len(),
    decreases s.len() - pos,
{
    if pos < s.len() && is_ws_char(s[pos]) {
        lemma_skip_ws_bounds(s, pos + 1);
    }
}

pub proof fn lemma_scan_letters_bounds(s: Seq<char>, pos: int)
    requires
        0 <= pos <= s.len(),
    ensures
        pos <= scan_letters(s, pos) <= s.len(),
    decreases s.len() - pos,
{
    if pos < s.len() && is_letter_char(s[pos]) {
        lemma_scan_letters_bounds(s, pos + 1);
    }
}

pub proof fn lemma_scan_digits_bounds(s: Seq<char>, pos: int)
    requires
        0 <= pos <= s.len(),
    ensures
        pos <= scan_digits(s, pos) <= s.len(),
    decreases s.len() - pos,
{
    if pos < s.len() && is_digit_char(s[pos]) {
        lemma_scan_digits_bounds(s, pos + 1);
    }
}

pub proof fn lemma_scan_str_end_bounds(s: Seq<char>, pos: int)
    requires
        0 <= pos <= s.len(),
    ensures
        pos <= scan_str_end(s, pos) <= s.len(),
    decreases s.len() - pos,
{
    if pos < s.len() && s[pos] != '"' {
        lemma_scan_str_end_bounds(s, pos + 1);
    }
}

/// The token step stays inside the input and consumes at least one
/// character for every token but the end-of-input sentinel.
pub proof fn lemma_next_token_spec_bounds(s: Seq<char>, start: int)
    requires
        0 <= start <= s.len(),
    ensures
        start <= next_token_spec(s, start).1 <= s.len(),
        !(next_token_spec(s, start).0 is Eof) ==> next_token_spec(s, start).1 >= start + 1,
        next_token_spec(s, start).0 is Eof ==> next_token_spec(s, start).1 == s.len(),
{
    lemma_skip_ws_bounds(s, start);
    let pos = skip_ws(s, start);
    if pos < s.len() {
        let c = s[pos];
        lemma_scan_str_end_bounds(s, pos + 1);
        lemma_scan_letters_bounds(s, pos);
        lemma_scan_digits_bounds(s, pos);
        if is_letter_char(c) {
            lemma_scan_letters_bounds(s, pos + 1);
            assert(scan_letters(s, pos) >= pos + 1);
        }
        if is_digit_char(c) {
            lemma_scan_digits_bounds(s, pos + 1);
            assert(scan_digits(s, pos) >= pos + 1);
        }
    }
}

fn is_ws_exec(c: char) -> (r: bool)
    ensures
        r == is_ws_char(c),
{
    c == ' ' || c == '\t' || c == '\n' || c == '\r' || c == '\u{c}'
}

/// Whether a character may appear in an identifier or keyword.
pub fn is_identifier_or_keyword(check: char) -> (r: bool)
    ensures
        r == is_letter_char(check),
{
    ('a' <= check && check <= 'z') || ('A' <= check && check <= 'Z') || check == '_'
}

fn is_digit_exec(c: char) -> (r: bool)
    ensures
        r == is_digit_char(c),
{
    '0' <= c && c <= '9'
}

/// A lexer over one source text: a cursor that hands out one token per
/// call, and an end-of-input sentinel forever after.
#[derive(Debug)]
pub struct Lexer<'a> {
    pub input: &'a str,
    pub pos: usize,
}

proof fn lemma_scan_letters_at(s: Seq<char>, start: int, e: int)
    requires
        0 <= start <= e <= s.len(),
        forall|k: int| start <= k < e ==> is_letter_char(s[k]),
        e == s.len() || !is_letter_char(s[e]),
    ensures
        scan_letters(s, start) == e,
    decreases e - start,
{
    if start < e {
        lemma_scan_letters_at(s, start + 1, e);
    }
}

proof fn lemma_scan_digits_at(s: Seq<char>, start: int, e: int)
    requires
        0 <= start <= e <= s.len(),
        forall|k: int| start <= k < e ==> is_digit_char(s[k]),
        e == s.len() || !is_digit_char(s[e]),
    ensures
        scan_digits(s, start) == e,
    decreases e - start,
{
    if start < e {
        lemma_scan_digits_at(s, start + 1, e);
    }
}

proof fn lemma_scan_str_end_at(s: Seq<char>, start: int, e: int)
    requires
        0 <= start <= e <= s.len(),
        forall|k: int| start <= k < e ==> s[k] != '"',
        e == s.len() || s[e] == '"',
    ensures
        scan_str_end(s, start) == e,
    decreases e - start,
{
    if start < e {
        lemma_scan_str_end_at(s, start + 1, e);
    }
}

proof fn lemma_skip_ws_at(s: Seq<char>, start: int, e: int)
    requires
        0 <= start <= e <= s.len(),
        forall|k: int| start <= k < e ==> is_ws_char(s[k]),
        e == s.len() || !is_ws_char(s[e]),
    ensures
        skip_ws(s, start) == e,
    decreases e - start,
{
    if start < e {
        lemma_skip_ws_at(s, start + 1, e);
    }
}

/// Every digit sequence has a non-negative value.
proof fn lemma_digits_value_nonneg(ds: Seq<char>)
    requires
        forall|k: int| 0 <= k < ds.len() ==> is_digit_char(ds[k]),
    ensures
        digits_value(ds) >= 0,
    decreases ds.len(),
{
    if ds.len() > 0 {
        lemma_digits_value_nonneg(ds.drop_last());
    }
}

impl<'a> Lexer<'a> {
    /// The lexer's cursor never runs past the end of the input.
    pub open spec fn wf(&self) -> bool {
        self.pos <= self.input@.len()
    }

    /// The source text under the lexer.
    pub open spec fn src(&self) -> Seq<char> {
        self.input@
    }

    /// A lexer at the start of the given source text.
    pub fn new(input: &'a str) -> (r: Self)
        ensures
            r.wf(),
            r.src() == input@,
            r.pos == 0,
    {
        Lexer { input, pos: 0 }
    }

    /// Produces the next token and advances past it; at the end of the
    /// input it keeps returning the end-of-input sentinel.
    pub fn next_token(&mut self) -> (t: Token)
        requires
            old(self).wf(),
        ensures
            final(self).wf(),
            final(self).src() == old(self).src(),
            t@ == next_token_spec(old(self).src(), old(self).pos as int).0,
            final(self).pos as int == next_token_spec(old(self).src(), old(self).pos as int).1,
    {
        let ghost s = self.src();
        let ghost start = self.pos as int;
        let len = self.input.unicode_len();
        // Skip whitespace.
        loop
            invariant
                self.input@ == s,
                len == s.len(),
                start <= self.pos <= len,
                skip_ws(s, start) == skip_ws(s, self.pos as int),
            ensures
                self.input@ == s,
                self.pos as int == skip_ws(s, start),
                self.pos <= len,
            decreases len - self.pos,
        {
            if self.pos >= len {
                break ;
            }
            let c = self.input.get_char(self.pos);
            if !is_ws_exec(c) {
                break ;
            }
            self.pos = self.pos + 1;
        }
        let pos = self.pos;
        if pos >= len {
            self.pos = len;
            return Token::Eof;
        }
        let c = self.input.get_char(pos);
        if c == '=' {
            if pos + 1 < len && self.input.get_char(pos + 1) == '=' {
                self.pos = pos + 2;
                Token::Equal
            } else {
                self.pos = pos + 1;
                Token::Assign
            }
        } else if c == '!' {
            if pos + 1 < len && self.input.get_char(pos + 1) == '=' {
                self.pos = pos + 2;
                Token::NotEqual
            } else {
                self.pos = pos + 1;
                Token::Bang
            }
        } else if c == '+' {
            self.pos = pos + 1;
            Token::Plus
        } else if c == '-' {
            self.pos = pos + 1;
            Token::Minus
        } else if c == '*' {
            self.pos = pos + 1;
            Token::Asterisk
        } else if c == '/' {
            self.pos = pos + 1;
            Token::Slash
        } else if c == '%' {
            self.pos = pos + 1;
            Token::Percent
        } else if c == '<' {
            self.pos = pos + 1;
            Token::LessThan
        } else if c == '>' {
            self.pos = pos + 1;
            Token::GreaterThan
        } else if c == ';' {
            self.pos = pos + 1;
            Token::Semicolon
        } else if c == ',' {
            self.pos = pos + 1;
            Token::Comma
        } else if c == '(' {
            self.pos = pos + 1;
            Token::Lparen
        } else if c == ')' {
            self.pos = pos + 1;
            Token::Rparen
        } else if c == '{' {
            self.pos = pos + 1;
            Token::Lbrace
        } else if c == '}' {
            self.pos = pos + 1;
            Token::Rbrace
        } else if c == '"' {
            // A string literal runs to the closing quote; an unterminated
            // one is illegal and consumes the rest of the input.
            let start_lit = pos + 1;
            let mut e = start_lit;
            loop
                invariant
                    self.input@ == s,
                    len == s.len(),
                    start_lit <= e <= len,
                    forall|k: int| start_lit <= k < e ==> s[k] != '"',
                ensures
                    self.input@ == s,
                    start_lit <= e <= len,
                    forall|k: int| start_lit <= k < e ==> s[k] != '"',
                    e == len || s[e as int] == '"',
                decreases len - e,
            {
                if e >= len {
                    break ;
                }
                if self.input.get_char(e) == '"' {
                    break ;
                }
                e = e + 1;
            }
            proof {
                lemma_scan_str_end_at(s, start_lit as int, e as int);
            }
            if e < len {
                let content = self.input.substring_char(start_lit, e).to_owned();
                self.pos = e + 1;
                Token::Str(content)
            } else {
                self.pos = len;
                Token::Illegal
            }
        } else if is_identifier_or_keyword(c) {
            let mut e = pos;
            loop
                invariant
                    self.input@ == s,
                    len == s.len(),
                    pos <= e <= len,
                    forall|k: int| pos <= k < e ==> is_letter_char(s[k]),
                ensures
                    self.input@ == s,
                    pos <= e <= len,
                    forall|k: int| pos <= k < e ==> is_letter_char(s[k]),
                    e == len || !is_letter_char(s[e as int]),
                decreases len - e,
            {
                if e >= len {
                    break ;
                }
                if !is_identifier_or_keyword(self.input.get_char(e)) {
                    break ;
                }
                e = e + 1;
            }
            proof {
                lemma_scan_letters_at(s, pos as int, e as int);
            }
            let word = self.input.substring_char(pos, e);
            self.pos = e;
            lookup_identifier(word)
        } else if is_digit_exec(c) {
            let mut e = pos;
            let mut acc: u64 = 0;
            let mut overflow = false;
            loop
                invariant
                    self.input@ == s,
                    len == s.len(),
                    pos <= e <= len,
                    forall|k: int| pos <= k < e ==> is_digit_char(s[k]),
                    !overflow ==> acc as int == digits_value(s.subrange(pos as int, e as int))
                        && acc <= i64::MAX as u64,
                    overflow ==> digits_value(s.subrange(pos as int, e as int)) > i64::MAX,
                ensures
                    self.input@ == s,
                    pos <= e <= len,
                    forall|k: int| pos <= k < e ==> is_digit_char(s[k]),
                    e == len || !is_digit_char(s[e as int]),
                    !overflow ==> acc as int == digits_value(s.subrange(pos as int, e as int))
                        && acc <= i64::MAX as u64,
                    overflow ==> digits_value(s.subrange(pos as int, e as int)) > i64::MAX,
                decreases len - e,
            {
                if e >= len {
                    break ;
                }
                let ch = self.input.get_char(e);
                if !is_digit_exec(ch) {
                    break ;
                }
                let d: u64 = (ch as u32 as u64) - 48;
                let ghost prefix = s.subrange(pos as int, e as int);
                let ghost extended = s.subrange(pos as int, e as int + 1);
                proof {
                    assert(extended.drop_last() =~= prefix);
                    assert(extended.last() == s[e as int]);
                    assert(digits_value(extended) == digits_value(prefix) * 10 + d);
                    lemma_digits_value_nonneg(prefix);
                }
                if !overflow {
                    if acc > (9223372036854775807u64 - d) / 10 {
                        overflow = true;
                        proof {
                            assert(acc * 10 + d > i64::MAX) by (nonlinear_arith)
                                requires
                                    acc > (9223372036854775807u64 - d) / 10,
                                    d < 10,
                            ;
                        }
                    } else {
                        proof {
                            assert(acc * 10 + d <= i64::MAX) by (nonlinear_arith)
                                requires
                                    acc <= (9223372036854775807u64 - d) / 10,
                                    d < 10,
                            ;
                        }
                        acc = acc * 10 + d;
                    }
                } else {
                    proof {
                        assert(digits_value(prefix) * 10 + d > i64::MAX) by (nonlinear_arith)
                            requires
                                digits_value(prefix) > i64::MAX,
                                d >= 0,
                        ;
                    }
                }
                e = e + 1;
            }
            proof {
                lemma_scan_digits_at(s, pos as int, e as int);
            }
            self.pos = e;
            if overflow {
                Token::Illegal
            } else {
                Token::Int(acc as i64)
            }
        } else {
            self.pos = pos + 1;
            Token::Illegal
        }
    }
}

} // verus!
