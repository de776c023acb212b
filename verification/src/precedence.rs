//! Binding powers of infix and call-position tokens, from loosest to
//! tightest.

use crate::token::{Token, TokenV};
use vstd::prelude::*;

verus! {

/// The binding power of an infix or call-position token, from loosest
/// (`Lowest`) to tightest (`Call`).
#[derive(Debug, Clone, Copy, PartialEq, Eq, Structural)]
pub enum Precedence {
    Lowest,
    Equality,  // == or !=
    LessGreater,  // < or >
    AddSubtract,  // + or -
    TimesDivideMod,  // * or / or %
    Prefix,  // -X or !X
    Call,  // myFunction(X)
}

/// The numeric rank of a binding power; the order of the ranks is the order
/// of the precedences.
pub open spec fn spec_power(p: Precedence) -> int {
    match p {
        Precedence::Lowest => 0,
        Precedence::Equality => 1,
        Precedence::LessGreater => 2,
        Precedence::AddSubtract => 3,
        Precedence::TimesDivideMod => 4,
        Precedence::Prefix => 5,
        Precedence::Call => 6,
    }
}

/// The binding power a token carries in infix position; tokens that cannot
/// appear there bind loosest.
pub open spec fn spec_precedence_of(t: TokenV) -> Precedence {
    match t {
        TokenV::Equal | TokenV::NotEqual => Precedence::Equality,
        TokenV::LessThan | TokenV::GreaterThan => Precedence::LessGreater,
        TokenV::Plus | TokenV::Minus => Precedence::AddSubtract,
        TokenV::Asterisk | TokenV::Slash | TokenV::Percent => Precedence::TimesDivideMod,
        TokenV::Lparen => Precedence::Call,
        _ => Precedence::Lowest,
    }
}

impl Precedence {
    /// The numeric rank of this binding power.
    pub fn power(self) -> (r: u8)
        ensures
            r as int == spec_power(self),
    {
        match self {
            Precedence::Lowest => 0,
            Precedence::Equality => 1,
            Precedence::LessGreater => 2,
            Precedence::AddSubtract => 3,
            Precedence::TimesDivideMod => 4,
            Precedence::Prefix => 5,
            Precedence::Call => 6,
        }
    }

    /// Whether this binding power is strictly looser than `other`.
    pub fn binds_looser_than(self, other: Precedence) -> (r: bool)
        ensures
            r == (spec_power(self) < spec_power(other)),
    {
        self.power() < other.power()
    }

    /// The binding power of a token in infix position.
    pub fn of_token(t: &Token) -> (r: Precedence)
        ensures
            r == spec_precedence_of(t@),
    {
        match t {
            Token::Equal | Token::NotEqual => Precedence::Equality,
            Token::LessThan | Token::GreaterThan => Precedence::LessGreater,
            Token::Plus | Token::Minus => Precedence::AddSubtract,
            Token::Asterisk | Token::Slash | Token::Percent => Precedence::TimesDivideMod,
            Token::Lparen => Precedence::Call,
            _ => Precedence::Lowest,
        }
    }
}

} // verus!
