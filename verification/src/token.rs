//! Lexical tokens of the language, their mathematical view, and their
//! textual rendering.

use crate::text::{dec_rep_signed, render_i64};
use vstd::assert_seqs_equal;
use vstd::prelude::*;

verus! {

/// A classified lexical token, as produced by the lexer and consumed by the
/// parser.
#[derive(Debug)]
pub enum Token {
    Illegal,
    Eof,
    // Identifiers and literals
    Ident(String),
    Int(i64),
    Str(String),
    // Operators
    Assign,
    Plus,
    Minus,
    Bang,
    Asterisk,
    Slash,
    Percent,
    LessThan,
    GreaterThan,
    Equal,
    NotEqual,
    // Delimiters
    Comma,
    Semicolon,
    Lparen,
    Rparen,
    Lbrace,
    Rbrace,
    // Keywords
    Func,
    Let,
    True,
    False,
    If,
    Else,
    Return,
}

/// The mathematical view of a `Token`: the same tags over `Seq<char>` and
/// `int` payloads.
pub enum TokenV {
    Illegal,
    Eof,
    Ident(Seq<char>),
    Int(int),
    Str(Seq<char>),
    Assign,
    Plus,
    Minus,
    Bang,
    Asterisk,
    Slash,
    Percent,
    LessThan,
    GreaterThan,
    Equal,
    NotEqual,
    Comma,
    Semicolon,
    Lparen,
    Rparen,
    Lbrace,
    Rbrace,
    Func,
    Let,
    True,
    False,
    If,
    Else,
    Return,
}

impl View for Token {
    type V = TokenV;

    open spec fn view(&self) -> TokenV {
        match self {
            Token::Illegal => TokenV::Illegal,
            Token::Eof => TokenV::Eof,
            Token::Ident(name) => TokenV::Ident(name@),
            Token::Int(i) => TokenV::Int(*i as int),
            Token::Str(s) => TokenV::Str(s@),
            Token::Assign => TokenV::Assign,
            Token::Plus => TokenV::Plus,
            Token::Minus => TokenV::Minus,
            Token::Bang => TokenV::Bang,
            Token::Asterisk => TokenV::Asterisk,
            Token::Slash => TokenV::Slash,
            Token::Percent => TokenV::Percent,
            Token::LessThan => TokenV::LessThan,
            Token::GreaterThan => TokenV::GreaterThan,
            Token::Equal => TokenV::Equal,
            Token::NotEqual => TokenV::NotEqual,
            Token::Comma => TokenV::Comma,
            Token::Semicolon => TokenV::Semicolon,
            Token::Lparen => TokenV::Lparen,
            Token::Rparen => TokenV::Rparen,
            Token::Lbrace => TokenV::Lbrace,
            Token::Rbrace => TokenV::Rbrace,
            Token::Func => TokenV::Func,
            Token::Let => TokenV::Let,
            Token::True => TokenV::True,
            Token::False => TokenV::False,
            Token::If => TokenV::If,
            Token::Else => TokenV::Else,
            Token::Return => TokenV::Return,
        }
    }
}

/// The textual rendering of a token: payload text for identifiers and
/// literals, the operator's own spelling otherwise.
pub open spec fn token_text(t: TokenV) -> Seq<char> {
    match t {
        TokenV::Illegal => "ILLEGAL"@,
        TokenV::Eof => "EOF"@,
        TokenV::Ident(name) => name,
        TokenV::Int(i) => dec_rep_signed(i),
        TokenV::Str(s) => "\""@ + s + "\""@,
        TokenV::Assign => "="@,
        TokenV::Plus => "+"@,
        TokenV::Minus => "-"@,
        TokenV::Bang => "!"@,
        TokenV::Asterisk => "*"@,
        TokenV::Slash => "/"@,
        TokenV::Percent => "%"@,
        TokenV::LessThan => "<"@,
        TokenV::GreaterThan => ">"@,
        TokenV::Equal => "=="@,
        TokenV::NotEqual => "!="@,
        TokenV::Comma => ","@,
        TokenV::Semicolon => ";"@,
        TokenV::Lparen => "("@,
        TokenV::Rparen => ")"@,
        TokenV::Lbrace => "{"@,
        TokenV::Rbrace => "}"@,
        TokenV::Func => "fn"@,
        TokenV::Let => "let"@,
        TokenV::True => "true"@,
        TokenV::False => "false"@,
        TokenV::If => "if"@,
        TokenV::Else => "else"@,
        TokenV::Return => "return"@,
    }
}

impl Token {
    /// Renders the token as text, as it would appear in a program.
    pub fn render(&self) -> (r: String)
        ensures
            r@ == token_text(self@),
    {
        match self {
            Token::Ident(name) => name.clone(),
            Token::Int(i) => render_i64(*i),
            Token::Str(s) => {
                proof {
                    reveal_strlit("\"");
                }
                let mut out = String::from_str("\"");
                out.append(s.as_str());
                out.append("\"");
                proof {
                    assert_seqs_equal!(out@ == token_text(self@));
                }
                out
            },
            Token::Illegal => String::from_str("ILLEGAL"),
            Token::Eof => String::from_str("EOF"),
            Token::Assign => String::from_str("="),
            Token::Plus => String::from_str("+"),
            Token::Minus => String::from_str("-"),
            Token::Bang => String::from_str("!"),
            Token::Asterisk => String::from_str("*"),
            Token::Slash => String::from_str("/"),
            Token::Percent => String::from_str("%"),
            Token::LessThan => String::from_str("<"),
            Token::GreaterThan => String::from_str(">"),
            Token::Equal => String::from_str("=="),
            Token::NotEqual => String::from_str("!="),
            Token::Comma => String::from_str(","),
            Token::Semicolon => String::from_str(";"),
            Token::Lparen => String::from_str("("),
            Token::Rparen => String::from_str(")"),
            Token::Lbrace => String::from_str("{"),
            Token::Rbrace => String::from_str("}"),
            Token::Func => String::from_str("fn"),
            Token::Let => String::from_str("let"),
            Token::True => String::from_str("true"),
            Token::False => String::from_str("false"),
            Token::If => String::from_str("if"),
            Token::Else => String::from_str("else"),
            Token::Return => String::from_str("return"),
        }
    }
}

impl Clone for Token {
    /// Cloning preserves the token's view.
    fn clone(&self) -> (r: Self)
        ensures
            r@ == self@,
    {
        match self {
            Token::Illegal => Token::Illegal,
            Token::Eof => Token::Eof,
            Token::Ident(name) => Token::Ident(name.clone()),
            Token::Int(i) => Token::Int(*i),
            Token::Str(s) => Token::Str(s.clone()),
            Token::Assign => Token::Assign,
            Token::Plus => Token::Plus,
            Token::Minus => Token::Minus,
            Token::Bang => Token::Bang,
            Token::Asterisk => Token::Asterisk,
            Token::Slash => Token::Slash,
            Token::Percent => Token::Percent,
            Token::LessThan => Token::LessThan,
            Token::GreaterThan => Token::GreaterThan,
            Token::Equal => Token::Equal,
            Token::NotEqual => Token::NotEqual,
            Token::Comma => Token::Comma,
            Token::Semicolon => Token::Semicolon,
            Token::Lparen => Token::Lparen,
            Token::Rparen => Token::Rparen,
            Token::Lbrace => Token::Lbrace,
            Token::Rbrace => Token::Rbrace,
            Token::Func => Token::Func,
            Token::Let => Token::Let,
            Token::True => Token::True,
            Token::False => Token::False,
            Token::If => Token::If,
            Token::Else => Token::Else,
            Token::Return => Token::Return,
        }
    }
}

impl PartialEq for Token {
    /// Two tokens are equal when their views are: same tag, same payload.
    fn eq(&self, other: &Self) -> (r: bool) {
        match (self, other) {
            (Token::Illegal, Token::Illegal) => true,
            (Token::Eof, Token::Eof) => true,
            (Token::Ident(a), Token::Ident(b)) => *a == *b,
            (Token::Int(a), Token::Int(b)) => *a == *b,
            (Token::Str(a), Token::Str(b)) => *a == *b,
            (Token::Assign, Token::Assign) => true,
            (Token::Plus, Token::Plus) => true,
            (Token::Minus, Token::Minus) => true,
            (Token::Bang, Token::Bang) => true,
            (Token::Asterisk, Token::Asterisk) => true,
            (Token::Slash, Token::Slash) => true,
            (Token::Percent, Token::Percent) => true,
            (Token::LessThan, Token::LessThan) => true,
            (Token::GreaterThan, Token::GreaterThan) => true,
            (Token::Equal, Token::Equal) => true,
            (Token::NotEqual, Token::NotEqual) => true,
            (Token::Comma, Token::Comma) => true,
            (Token::Semicolon, Token::Semicolon) => true,
            (Token::Lparen, Token::Lparen) => true,
            (Token::Rparen, Token::Rparen) => true,
            (Token::Lbrace, Token::Lbrace) => true,
            (Token::Rbrace, Token::Rbrace) => true,
            (Token::Func, Token::Func) => true,
            (Token::Let, Token::Let) => true,
            (Token::True, Token::True) => true,
            (Token::False, Token::False) => true,
            (Token::If, Token::If) => true,
            (Token::Else, Token::Else) => true,
            (Token::Return, Token::Return) => true,
            _ => false,
        }
    }
}

impl vstd::std_specs::cmp::PartialEqSpecImpl for Token {
    open spec fn obeys_eq_spec() -> bool {
        true
    }

    open spec fn eq_spec(&self, other: &Token) -> bool {
        self@ == other@
    }
}

/// The keyword table: the token a bare word denotes.
pub open spec fn spec_lookup_identifier(word: Seq<char>) -> TokenV {
    if word == "fn"@ {
        TokenV::Func
    } else if word == "let"@ {
        TokenV::Let
    } else if word == "if"@ {
        TokenV::If
    } else if word == "true"@ {
        TokenV::True
    } else if word == "false"@ {
        TokenV::False
    } else if word == "else"@ {
        TokenV::Else
    } else if word == "return"@ {
        TokenV::Return
    } else {
        TokenV::Ident(word)
    }
}

/// Classifies a scanned word as a keyword token or an identifier.
pub fn lookup_identifier(identifier: &str) -> (t: Token)
    ensures
        t@ == spec_lookup_identifier(identifier@),
{
    let word = identifier.to_owned();
    if word == String::from_str("fn") {
        Token::Func
    } else if word == String::from_str("let") {
        Token::Let
    } else if word == String::from_str("if") {
        Token::If
    } else if word == String::from_str("true") {
        Token::True
    } else if word == String::from_str("false") {
        Token::False
    } else if word == String::from_str("else") {
        Token::Else
    } else if word == String::from_str("return") {
        Token::Return
    } else {
        Token::Ident(word)
    }
}

} // verus!
