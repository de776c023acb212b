//! The parser: precedence climbing (Pratt parsing) over the token stream.
//!
//! The specification side defines parsing as a set of recursive functions
//! over the sequence of tokens still to be consumed. Such a sequence always
//! ends with the end-of-input sentinel and holds no sentinel before the
//! end; `tok_at` pads reads past the end with the sentinel, and `st_adv`
//! consumes one token. The functions are indexed by a fuel that strictly
//! decreases on every call; `parse_fuel` gives a bound on the calls any
//! parse can make, so every fuel at or above `parse_fuel` yields the same
//! result, and `spec_parse_program` is that result at the bound itself.

use crate::ast::{exprs_view, stmt_view, stmts_view, strings_view, ExprV, Expression, Statement, StmtV};
use crate::lexer::{next_token_spec, Lexer};
use crate::precedence::{spec_power, spec_precedence_of, Precedence};
use crate::program::Program;
use crate::token::{token_text, Token, TokenV};
use vstd::assert_seqs_equal;
use vstd::prelude::*;

verus! {

/// The tokens of the input from `pos` on, ending with the end-of-input
/// sentinel.
pub open spec fn lex_tokens(s: Seq<char>, pos: int) -> Seq<TokenV>
    decreases s.len() - pos,
    when 0 <= pos <= s.len()
    via lex_tokens_dec
{
    let (t, p) = next_token_spec(s, pos);
    if t is Eof {
        seq![TokenV::Eof]
    } else {
        seq![t] + lex_tokens(s, p)
    }
}

#[via_fn]
proof fn lex_tokens_dec(s: Seq<char>, pos: int) {
    crate::lexer::lemma_next_token_spec_bounds(s, pos);
}

/// A well-formed remaining token stream: non-empty, ends with the sentinel,
/// and holds the sentinel nowhere else.
pub open spec fn wf_st(st: Seq<TokenV>) -> bool {
    &&& st.len() >= 1
    &&& st.last() is Eof
    &&& forall|i: int| 0 <= i < st.len() - 1 ==> !(#[trigger] st[i] is Eof)
}

/// The token at position `i`, the sentinel past the end.
pub open spec fn tok_at(st: Seq<TokenV>, i: int) -> TokenV {
    if 0 <= i < st.len() {
        st[i]
    } else {
        TokenV::Eof
    }
}

/// The stream after consuming one token; consuming the sentinel changes
/// nothing.
pub open spec fn st_adv(st: Seq<TokenV>) -> Seq<TokenV> {
    if st.len() > 1 {
        st.drop_first()
    } else {
        st
    }
}

pub proof fn lemma_st_adv_wf(st: Seq<TokenV>)
    requires
        wf_st(st),
    ensures
        wf_st(st_adv(st)),
        st_adv(st).len() <= st.len(),
        !(tok_at(st, 0) is Eof) ==> st_adv(st).len() == st.len() - 1,
        tok_at(st, 0) is Eof ==> st == seq![TokenV::Eof] && st_adv(st) == st,
{
    if tok_at(st, 0) is Eof {
        assert(st.len() == 1);
        assert_seqs_equal!(st == seq![TokenV::Eof]);
    }
}

/// The token stream of a source text is well formed.
pub proof fn lemma_lex_tokens_wf(s: Seq<char>, pos: int)
    requires
        0 <= pos <= s.len(),
    ensures
        wf_st(lex_tokens(s, pos)),
    decreases s.len() - pos,
{
    crate::lexer::lemma_next_token_spec_bounds(s, pos);
    let (t, p) = next_token_spec(s, pos);
    if !(t is Eof) {
        lemma_lex_tokens_wf(s, p);
    }
}

/// The result of one parse step: the parsed item where the step succeeded,
/// the stream that is left, and the error messages the step recorded.
pub struct PRes<T> {
    pub val: Option<T>,
    pub st: Seq<TokenV>,
    pub errs: Seq<Seq<char>>,
}

/// The message recorded when no rule can begin an expression at a token.
pub open spec fn msg_no_prefix(t: TokenV) -> Seq<char> {
    "no prefix parse function for "@ + token_text(t)
}

/// The message recorded when a required token is absent.
pub open spec fn msg_expected(expected: TokenV, got: TokenV) -> Seq<char> {
    "expected next token to be "@ + token_text(expected) + ", got "@ + token_text(got)
        + " instead"@
}

/// A failed step that consumed nothing and recorded nothing.
pub open spec fn p_fail<T>(st: Seq<TokenV>) -> PRes<T> {
    PRes { val: None, st, errs: Seq::empty() }
}

/// Concatenation is associative.
proof fn lemma_concat_assoc<T>(a: Seq<T>, b: Seq<T>, c: Seq<T>)
    ensures
        (a + b) + c == a + (b + c),
{
    assert((a + b) + c =~= a + (b + c));
}

/// The empty sequence is a unit of concatenation.
proof fn lemma_concat_empty<T>(s: Seq<T>)
    ensures
        s + Seq::<T>::empty() == s,
        Seq::<T>::empty() + s == s,
{
    assert(s + Seq::<T>::empty() =~= s);
    assert(Seq::<T>::empty() + s =~= s);
}

/// Statement dispatch: `let`, `return`, or an expression statement.
pub open spec fn spec_parse_statement(fuel: nat, st: Seq<TokenV>) -> PRes<StmtV>
    decreases fuel,
{
    if fuel == 0 {
        p_fail(st)
    } else {
        match tok_at(st, 0) {
            TokenV::Let => spec_parse_let_statement((fuel - 1) as nat, st),
            TokenV::Return => spec_parse_return_statement((fuel - 1) as nat, st),
            _ => spec_parse_expression_statement((fuel - 1) as nat, st),
        }
    }
}

/// A `let` statement: `let <ident> = <expression>`, an optional trailing
/// semicolon consumed.
pub open spec fn spec_parse_let_statement(fuel: nat, st: Seq<TokenV>) -> PRes<StmtV>
    decreases fuel,
{
    if fuel == 0 {
        p_fail(st)
    } else if !(tok_at(st, 1) is Ident) {
        p_fail(st)
    } else {
        let st1 = st_adv(st);  // onto the identifier
        let ident = tok_at(st1, 0);
        if tok_at(st1, 1) is Assign {
            let st2 = st_adv(st1);  // onto '='
            let st3 = st_adv(st2);  // past '='
            let r = spec_parse_expression((fuel - 1) as nat, st3, Precedence::Lowest);
            match r.val {
                Some(value) => {
                    let st4 = if tok_at(r.st, 1) is Semicolon {
                        st_adv(r.st)
                    } else {
                        r.st
                    };
                    PRes {
                        val: Some(StmtV::LetStatement { ident, value }),
                        st: st4,
                        errs: r.errs,
                    }
                },
                None => PRes { val: None, st: r.st, errs: r.errs },
            }
        } else {
            PRes {
                val: None,
                st: st1,
                errs: seq![msg_expected(TokenV::Assign, tok_at(st1, 1))],
            }
        }
    }
}

/// A `return` statement: `return <expression>`, an optional trailing
/// semicolon consumed.
pub open spec fn spec_parse_return_statement(fuel: nat, st: Seq<TokenV>) -> PRes<StmtV>
    decreases fuel,
{
    if fuel == 0 || tok_at(st, 0) is Eof {
        p_fail(st)
    } else {
        let st1 = st_adv(st);  // past 'return'
        let r = spec_parse_expression((fuel - 1) as nat, st1, Precedence::Lowest);
        match r.val {
            Some(value) => {
                let st2 = if tok_at(r.st, 1) is Semicolon {
                    st_adv(r.st)
                } else {
                    r.st
                };
                PRes { val: Some(StmtV::ReturnStatement(value)), st: st2, errs: r.errs }
            },
            None => PRes { val: None, st: r.st, errs: r.errs },
        }
    }
}

/// An expression standing as a statement, an optional trailing semicolon
/// consumed.
pub open spec fn spec_parse_expression_statement(fuel: nat, st: Seq<TokenV>) -> PRes<StmtV>
    decreases fuel,
{
    if fuel == 0 {
        p_fail(st)
    } else {
        let r = spec_parse_expression((fuel - 1) as nat, st, Precedence::Lowest);
        match r.val {
            Some(e) => {
                let st1 = if tok_at(r.st, 1) is Semicolon {
                    st_adv(r.st)
                } else {
                    r.st
                };
                PRes { val: Some(StmtV::ExpressionStatement(e)), st: st1, errs: r.errs }
            },
            None => PRes { val: None, st: r.st, errs: r.errs },
        }
    }
}

/// Precedence climbing: a prefix rule for the current token, then infix
/// rules while the lookahead binds tighter than `precedence`. A token with
/// no prefix rule records an error and fails this expression.
pub open spec fn spec_parse_expression(fuel: nat, st: Seq<TokenV>, precedence: Precedence) -> PRes<
    ExprV,
>
    decreases fuel,
{
    if fuel == 0 {
        p_fail(st)
    } else {
        let p = spec_parse_prefix((fuel - 1) as nat, st);
        match p.val {
            Some(left) => {
                let r = spec_parse_infix_loop((fuel - 1) as nat, p.st, left, precedence);
                PRes { val: r.val, st: r.st, errs: p.errs + r.errs }
            },
            None => PRes {
                val: None,
                st: p.st,
                errs: p.errs + seq![msg_no_prefix(tok_at(p.st, 0))],
            },
        }
    }
}

/// The climb: while the lookahead is no semicolon and binds tighter than
/// `precedence`, extend `left` with one infix construct.
pub open spec fn spec_parse_infix_loop(
    fuel: nat,
    st: Seq<TokenV>,
    left: ExprV,
    precedence: Precedence,
) -> PRes<ExprV>
    decreases fuel,
{
    if fuel == 0 {
        p_fail(st)
    } else if tok_at(st, 1) is Semicolon || !(spec_power(precedence) < spec_power(
        spec_precedence_of(tok_at(st, 1)),
    )) {
        PRes { val: Some(left), st, errs: Seq::empty() }
    } else {
        let inf = spec_parse_infix((fuel - 1) as nat, st, left);
        match inf.val {
            Some(extended) => {
                let r = spec_parse_infix_loop((fuel - 1) as nat, inf.st, extended, precedence);
                PRes { val: r.val, st: r.st, errs: inf.errs + r.errs }
            },
            None => PRes { val: Some(left), st: inf.st, errs: inf.errs },
        }
    }
}

/// One infix step: a binary operator applies its rule, a parenthesis in
/// infix position begins a call; anything else extends nothing.
pub open spec fn spec_parse_infix(fuel: nat, st: Seq<TokenV>, left: ExprV) -> PRes<ExprV>
    decreases fuel,
{
    if fuel == 0 {
        p_fail(st)
    } else {
        match tok_at(st, 1) {
            TokenV::Plus | TokenV::Minus | TokenV::Asterisk | TokenV::Slash | TokenV::Percent
                | TokenV::Equal | TokenV::NotEqual | TokenV::LessThan | TokenV::GreaterThan =>
                spec_parse_infix_expression((fuel - 1) as nat, st_adv(st), left),
            TokenV::Lparen => spec_parse_call_expression((fuel - 1) as nat, st_adv(st), left),
            _ => p_fail(st),
        }
    }
}

/// A binary operator: the right operand is parsed at the operator's own
/// binding power, so equal powers associate left.
pub open spec fn spec_parse_infix_expression(fuel: nat, st: Seq<TokenV>, left: ExprV) -> PRes<
    ExprV,
>
    decreases fuel,
{
    if fuel == 0 {
        p_fail(st)
    } else {
        let op = tok_at(st, 0);
        let r = spec_parse_expression((fuel - 1) as nat, st_adv(st), spec_precedence_of(op));
        match r.val {
            Some(right) => PRes {
                val: Some(
                    ExprV::InfixExpression {
                        left: Box::new(left),
                        op,
                        right: Box::new(right),
                    },
                ),
                st: r.st,
                errs: r.errs,
            },
            None => PRes { val: None, st: r.st, errs: r.errs },
        }
    }
}

/// A prefix rule for the current token: a literal, an identifier, unary
/// `!` or `-`, a parenthesized group, `if`, or `fn`.
pub open spec fn spec_parse_prefix(fuel: nat, st: Seq<TokenV>) -> PRes<ExprV>
    decreases fuel,
{
    if fuel == 0 {
        p_fail(st)
    } else {
        match tok_at(st, 0) {
            TokenV::Ident(name) => PRes {
                val: Some(ExprV::IdentifierExpression(name)),
                st,
                errs: Seq::empty(),
            },
            TokenV::Int(i) => PRes { val: Some(ExprV::IntExpression(i)), st, errs: Seq::empty() },
            TokenV::Str(s) => PRes {
                val: Some(ExprV::StringExpression(s)),
                st,
                errs: Seq::empty(),
            },
            TokenV::True => PRes {
                val: Some(ExprV::BooleanExpression(true)),
                st,
                errs: Seq::empty(),
            },
            TokenV::False => PRes {
                val: Some(ExprV::BooleanExpression(false)),
                st,
                errs: Seq::empty(),
            },
            TokenV::Bang | TokenV::Minus => spec_parse_prefix_expression((fuel - 1) as nat, st),
            TokenV::Lparen => spec_parse_grouped_expression((fuel - 1) as nat, st),
            TokenV::If => spec_parse_if_expression((fuel - 1) as nat, st),
            TokenV::Func => spec_parse_function_expression((fuel - 1) as nat, st),
            _ => p_fail(st),
        }
    }
}

/// Unary `!` or `-`: the operand is parsed at prefix binding power.
pub open spec fn spec_parse_prefix_expression(fuel: nat, st: Seq<TokenV>) -> PRes<ExprV>
    decreases fuel,
{
    if fuel == 0 || tok_at(st, 0) is Eof {
        p_fail(st)
    } else {
        let op = tok_at(st, 0);
        let r = spec_parse_expression((fuel - 1) as nat, st_adv(st), Precedence::Prefix);
        match r.val {
            Some(right) => PRes {
                val: Some(ExprV::PrefixExpression { op, right: Box::new(right) }),
                st: r.st,
                errs: r.errs,
            },
            None => PRes { val: None, st: r.st, errs: r.errs },
        }
    }
}

/// A parenthesized group: the inner expression, which must be followed by
/// a closing parenthesis.
pub open spec fn spec_parse_grouped_expression(fuel: nat, st: Seq<TokenV>) -> PRes<ExprV>
    decreases fuel,
{
    if fuel == 0 || tok_at(st, 0) is Eof {
        p_fail(st)
    } else {
        let r = spec_parse_expression((fuel - 1) as nat, st_adv(st), Precedence::Lowest);
        if tok_at(r.st, 1) is Rparen {
            PRes { val: r.val, st: st_adv(r.st), errs: r.errs }
        } else {
            PRes {
                val: None,
                st: r.st,
                errs: r.errs + seq![msg_expected(TokenV::Rparen, tok_at(r.st, 1))],
            }
        }
    }
}

/// An `if` expression: a condition at lowest power, a braced consequence,
/// and an optional braced alternative after `else`.
pub open spec fn spec_parse_if_expression(fuel: nat, st: Seq<TokenV>) -> PRes<ExprV>
    decreases fuel,
{
    if fuel == 0 || tok_at(st, 0) is Eof {
        p_fail(st)
    } else {
        let c = spec_parse_expression((fuel - 1) as nat, st_adv(st), Precedence::Lowest);
        match c.val {
            Some(condition) => {
                if tok_at(c.st, 1) is Lbrace {
                    let b = spec_parse_block_statement((fuel - 1) as nat, st_adv(c.st));
                    if tok_at(b.st, 1) is Else {
                        let st1 = st_adv(b.st);  // onto 'else'
                        if tok_at(st1, 1) is Lbrace {
                            let a = spec_parse_block_statement((fuel - 1) as nat, st_adv(st1));
                            PRes {
                                val: Some(
                                    ExprV::IfExpression {
                                        condition: Box::new(condition),
                                        consequence: Box::new(b.val->0),
                                        alternative: Some(Box::new(a.val->0)),
                                    },
                                ),
                                st: a.st,
                                errs: c.errs + b.errs + a.errs,
                            }
                        } else {
                            PRes {
                                val: None,
                                st: st1,
                                errs: c.errs + b.errs + seq![
                                    msg_expected(TokenV::Lbrace, tok_at(st1, 1)),
                                ],
                            }
                        }
                    } else {
                        PRes {
                            val: Some(
                                ExprV::IfExpression {
                                    condition: Box::new(condition),
                                    consequence: Box::new(b.val->0),
                                    alternative: None,
                                },
                            ),
                            st: b.st,
                            errs: c.errs + b.errs,
                        }
                    }
                } else {
                    PRes {
                        val: None,
                        st: c.st,
                        errs: c.errs + seq![msg_expected(TokenV::Lbrace, tok_at(c.st, 1))],
                    }
                }
            },
            None => PRes { val: None, st: c.st, errs: c.errs },
        }
    }
}

/// A braced block: statements until the closing brace or the end of input.
/// The block itself always parses; a bad statement inside records its
/// errors and is skipped.
pub open spec fn spec_parse_block_statement(fuel: nat, st: Seq<TokenV>) -> PRes<StmtV>
    decreases fuel,
{
    if fuel == 0 || tok_at(st, 0) is Eof {
        p_fail(st)
    } else {
        let r = spec_parse_block_loop((fuel - 1) as nat, st_adv(st));
        PRes {
            val: Some(StmtV::BlockStatement(r.val->0)),
            st: r.st,
            errs: r.errs,
        }
    }
}

/// The statements of a block, collected until `}` or the end of input.
pub open spec fn spec_parse_block_loop(fuel: nat, st: Seq<TokenV>) -> PRes<Seq<StmtV>>
    decreases fuel,
{
    if fuel == 0 {
        p_fail(st)
    } else if tok_at(st, 0) is Rbrace || tok_at(st, 0) is Eof {
        PRes { val: Some(Seq::empty()), st, errs: Seq::empty() }
    } else {
        let r = spec_parse_statement((fuel - 1) as nat, st);
        let rest = spec_parse_block_loop((fuel - 1) as nat, st_adv(r.st));
        let stmts = match r.val {
            Some(s) => seq![s] + rest.val->0,
            None => rest.val->0,
        };
        PRes { val: Some(stmts), st: rest.st, errs: r.errs + rest.errs }
    }
}

/// A function literal: a parenthesized parameter list and a braced body.
pub open spec fn spec_parse_function_expression(fuel: nat, st: Seq<TokenV>) -> PRes<ExprV>
    decreases fuel,
{
    if fuel == 0 || tok_at(st, 0) is Eof {
        p_fail(st)
    } else if !(tok_at(st, 1) is Lparen) {
        PRes { val: None, st, errs: seq![msg_expected(TokenV::Lparen, tok_at(st, 1))] }
    } else {
        let p = spec_parse_function_parameters((fuel - 1) as nat, st_adv(st));
        match p.val {
            Some(parameters) => {
                if tok_at(p.st, 1) is Lbrace {
                    let b = spec_parse_block_statement((fuel - 1) as nat, st_adv(p.st));
                    PRes {
                        val: Some(
                            ExprV::FunctionExpression {
                                parameters,
                                body: Box::new(b.val->0),
                            },
                        ),
                        st: b.st,
                        errs: p.errs + b.errs,
                    }
                } else {
                    PRes {
                        val: None,
                        st: p.st,
                        errs: p.errs + seq![msg_expected(TokenV::Lbrace, tok_at(p.st, 1))],
                    }
                }
            },
            None => PRes { val: None, st: p.st, errs: p.errs },
        }
    }
}

/// A comma-separated, possibly empty, parameter list, which must end with
/// a closing parenthesis. Each parameter is taken as the text of its token.
pub open spec fn spec_parse_function_parameters(fuel: nat, st: Seq<TokenV>) -> PRes<Seq<Seq<char>>>
    decreases fuel,
{
    if fuel == 0 || tok_at(st, 0) is Eof {
        p_fail(st)
    } else if tok_at(st, 1) is Rparen {
        PRes { val: Some(Seq::empty()), st: st_adv(st), errs: Seq::empty() }
    } else {
        let st1 = st_adv(st);  // onto the first parameter
        let r = spec_parse_params_loop((fuel - 1) as nat, st1, seq![token_text(tok_at(st1, 0))]);
        match r.val {
            Some(params) => {
                if tok_at(r.st, 1) is Rparen {
                    PRes { val: Some(params), st: st_adv(r.st), errs: r.errs }
                } else {
                    PRes {
                        val: None,
                        st: r.st,
                        errs: r.errs + seq![msg_expected(TokenV::Rparen, tok_at(r.st, 1))],
                    }
                }
            },
            None => PRes { val: None, st: r.st, errs: r.errs },
        }
    }
}

/// Further parameters, one per comma.
pub open spec fn spec_parse_params_loop(
    fuel: nat,
    st: Seq<TokenV>,
    acc: Seq<Seq<char>>,
) -> PRes<Seq<Seq<char>>>
    decreases fuel,
{
    if fuel == 0 {
        p_fail(st)
    } else if tok_at(st, 1) is Comma {
        let st1 = st_adv(st_adv(st));  // past the comma, onto the parameter
        spec_parse_params_loop((fuel - 1) as nat, st1, acc + seq![token_text(tok_at(st1, 0))])
    } else {
        PRes { val: Some(acc), st, errs: Seq::empty() }
    }
}

/// A call: the argument list after a parenthesis in infix position.
pub open spec fn spec_parse_call_expression(fuel: nat, st: Seq<TokenV>, function: ExprV) -> PRes<
    ExprV,
>
    decreases fuel,
{
    if fuel == 0 {
        p_fail(st)
    } else {
        let a = spec_parse_call_arguments((fuel - 1) as nat, st);
        match a.val {
            Some(arguments) => PRes {
                val: Some(
                    ExprV::CallExpression { function: Box::new(function), arguments },
                ),
                st: a.st,
                errs: a.errs,
            },
            None => PRes { val: None, st: a.st, errs: a.errs },
        }
    }
}

/// A comma-separated, possibly empty, argument list, each argument parsed
/// at lowest power, which must end with a closing parenthesis.
pub open spec fn spec_parse_call_arguments(fuel: nat, st: Seq<TokenV>) -> PRes<Seq<ExprV>>
    decreases fuel,
{
    if fuel == 0 || tok_at(st, 0) is Eof {
        p_fail(st)
    } else if tok_at(st, 1) is Rparen {
        PRes { val: Some(Seq::empty()), st: st_adv(st), errs: Seq::empty() }
    } else {
        let st1 = st_adv(st);  // onto the first argument
        let r = spec_parse_expression((fuel - 1) as nat, st1, Precedence::Lowest);
        match r.val {
            Some(first) => {
                let l = spec_parse_args_loop((fuel - 1) as nat, r.st, seq![first]);
                match l.val {
                    Some(args) => {
                        if tok_at(l.st, 1) is Rparen {
                            PRes { val: Some(args), st: st_adv(l.st), errs: r.errs + l.errs }
                        } else {
                            PRes {
                                val: None,
                                st: l.st,
                                errs: r.errs + l.errs + seq![
                                    msg_expected(TokenV::Rparen, tok_at(l.st, 1)),
                                ],
                            }
                        }
                    },
                    None => PRes { val: None, st: l.st, errs: r.errs + l.errs },
                }
            },
            None => PRes { val: None, st: r.st, errs: r.errs },
        }
    }
}

/// Further arguments, one per comma.
pub open spec fn spec_parse_args_loop(fuel: nat, st: Seq<TokenV>, acc: Seq<ExprV>) -> PRes<
    Seq<ExprV>,
>
    decreases fuel,
{
    if fuel == 0 {
        p_fail(st)
    } else if tok_at(st, 1) is Comma && !(tok_at(st, 0) is Eof) {
        let st1 = st_adv(st_adv(st));  // past the comma, onto the argument
        let r = spec_parse_expression((fuel - 1) as nat, st1, Precedence::Lowest);
        match r.val {
            Some(arg) => {
                let lr = spec_parse_args_loop((fuel - 1) as nat, r.st, acc + seq![arg]);
                PRes { val: lr.val, st: lr.st, errs: r.errs + lr.errs }
            },
            None => PRes { val: None, st: r.st, errs: r.errs },
        }
    } else {
        PRes { val: Some(acc), st, errs: Seq::empty() }
    }
}

/// The whole program: top-level statements until the end of input; a
/// statement that fails to parse records its errors and is skipped.
pub open spec fn spec_parse_program_loop(fuel: nat, st: Seq<TokenV>) -> PRes<Seq<StmtV>>
    decreases fuel,
{
    if fuel == 0 {
        p_fail(st)
    } else if tok_at(st, 0) is Eof {
        PRes { val: Some(Seq::empty()), st, errs: Seq::empty() }
    } else {
        let r = spec_parse_statement((fuel - 1) as nat, st);
        let rest = spec_parse_program_loop((fuel - 1) as nat, st_adv(r.st));
        let stmts = match r.val {
            Some(s) => seq![s] + rest.val->0,
            None => rest.val->0,
        };
        PRes { val: Some(stmts), st: rest.st, errs: r.errs + rest.errs }
    }
}

/// Fuel on which every parse of a stream of this length has settled: above
/// it, more fuel changes nothing.
pub open spec fn parse_fuel(st: Seq<TokenV>) -> nat {
    (st.len() * 16 + 16) as nat
}

/// What parsing a token stream yields: the program's statements and the
/// recorded syntax errors.
pub open spec fn spec_parse_program(st: Seq<TokenV>) -> PRes<Seq<StmtV>> {
    spec_parse_program_loop(parse_fuel(st), st)
}

/// The parser: a two-token lookahead over a lexer, collecting recoverable
/// syntax errors rather than stopping at the first one.
#[derive(Debug)]
pub struct Parser<'a> {
    pub lexer: Lexer<'a>,
    pub curr_token: Token,
    pub next_token: Token,
    pub errors: Vec<String>,
}

impl<'a> Parser<'a> {
    /// The tokens still to be consumed: the two buffered ones, then
    /// whatever the lexer has left; cut to the sentinel once it is
    /// buffered.
    pub open spec fn rest(&self) -> Seq<TokenV> {
        if self.curr_token@ is Eof {
            seq![TokenV::Eof]
        } else if self.next_token@ is Eof {
            seq![self.curr_token@, TokenV::Eof]
        } else {
            seq![self.curr_token@, self.next_token@] + lex_tokens(
                self.lexer.src(),
                self.lexer.pos as int,
            )
        }
    }

    /// The parser's invariant: the lexer is inside its input, the sentinel
    /// is buffered only once the lexer is exhausted, and the remaining
    /// stream is well formed.
    pub open spec fn wf(&self) -> bool {
        &&& self.lexer.wf()
        &&& (self.curr_token@ is Eof ==> self.next_token@ is Eof)
        &&& (self.next_token@ is Eof ==> self.lexer.pos == self.lexer.src().len())
        &&& wf_st(self.rest())
    }

    proof fn lemma_rest_toks(&self)
        requires
            self.wf(),
        ensures
            tok_at(self.rest(), 0) == self.curr_token@,
            tok_at(self.rest(), 1) == self.next_token@,
    {
    }

    /// A parser over the given lexer, with both lookahead slots filled.
    pub fn new(lexer: Lexer<'a>) -> (r: Self)
        requires
            lexer.wf(),
        ensures
            r.wf(),
            r.lexer.src() == lexer.src(),
            r.rest() == lex_tokens(lexer.src(), lexer.pos as int),
            r.errors@ == Seq::<String>::empty(),
    {
        let ghost s = lexer.src();
        let ghost pos0 = lexer.pos as int;
        let mut p = Parser {
            lexer,
            curr_token: Token::Illegal,
            next_token: Token::Illegal,
            errors: Vec::new(),
        };
        proof {
            lemma_lex_tokens_wf(s, pos0);
            assert(p.rest() == seq![TokenV::Illegal, TokenV::Illegal] + lex_tokens(s, pos0));
            assert(p.rest().last() is Eof) by {
                assert(lex_tokens(s, pos0).last() is Eof);
                assert(p.rest().last() == lex_tokens(s, pos0).last());
            }
            assert forall|i: int| 0 <= i < p.rest().len() - 1 implies !(#[trigger] p.rest()[i]
                is Eof) by {
                if i >= 2 {
                    assert(p.rest()[i] == lex_tokens(s, pos0)[i - 2]);
                }
            }
            assert(p.wf());
        }
        // Read two tokens so that both lookahead slots are set.
        p.advance_tokens();
        p.advance_tokens();
        proof {
            assert(p.rest() =~= lex_tokens(s, pos0));
        }
        p
    }

    /// Shifts the lookahead window one token forward.
    fn advance_tokens(&mut self)
        requires
            old(self).wf(),
        ensures
            final(self).wf(),
            final(self).lexer.src() == old(self).lexer.src(),
            final(self).errors@ == old(self).errors@,
            final(self).rest() == st_adv(old(self).rest()),
    {
        let ghost st0 = self.rest();
        let ghost s = self.lexer.src();
        let ghost pos0 = self.lexer.pos as int;
        let t = self.lexer.next_token();
        self.curr_token = self.next_token.clone();
        self.next_token = t;
        proof {
            lemma_st_adv_wf(st0);
            if old(self).curr_token@ is Eof {
                assert(self.rest() =~= st_adv(st0));
            } else if old(self).next_token@ is Eof {
                assert(self.curr_token@ is Eof);
                assert(self.rest() =~= st_adv(st0));
            } else {
                crate::lexer::lemma_next_token_spec_bounds(s, pos0);
                if t@ is Eof {
                    assert(lex_tokens(s, pos0) == seq![TokenV::Eof]);
                    assert(st0 == seq![old(self).curr_token@, old(self).next_token@] + seq![
                        TokenV::Eof,
                    ]);
                    assert(self.rest() =~= st_adv(st0));
                } else {
                    let p1 = next_token_spec(s, pos0).1;
                    assert(lex_tokens(s, pos0) == seq![t@] + lex_tokens(s, p1));
                    assert(self.rest() == seq![old(self).next_token@, t@] + lex_tokens(s, p1));
                    assert(self.rest() =~= st_adv(st0));
                }
            }
            assert(self.wf());
        }
    }

    /// Whether the current token is the given one.
    fn is_curr_token(&self, token: &Token) -> (r: bool)
        requires
            self.wf(),
        ensures
            r == (self.curr_token@ == token@),
    {
        self.curr_token == *token
    }

    /// Whether the lookahead token is the given one.
    fn is_next_token(&self, token: &Token) -> (r: bool)
        requires
            self.wf(),
        ensures
            r == (self.next_token@ == token@),
    {
        self.next_token == *token
    }

    /// Records one syntax error.
    fn report_error(&mut self, msg: String)
        ensures
            final(self).lexer == old(self).lexer,
            final(self).curr_token == old(self).curr_token,
            final(self).next_token == old(self).next_token,
            final(self).rest() == old(self).rest(),
            final(self).wf() == old(self).wf(),
            strings_view(final(self).errors@) == strings_view(old(self).errors@) + seq![msg@],
    {
        proof {
            crate::ast::lemma_strings_view_push(self.errors@, msg);
        }
        self.errors.push(msg);
    }

    /// Whether the lookahead token is the given one; records the expected
    /// and actual tokens where it is not.
    fn expect_next_token(&mut self, token: &Token) -> (r: bool)
        requires
            old(self).wf(),
        ensures
            final(self).wf(),
            final(self).lexer == old(self).lexer,
            final(self).rest() == old(self).rest(),
            r == (old(self).next_token@ == token@),
            final(self).curr_token == old(self).curr_token,
            final(self).next_token == old(self).next_token,
            r ==> strings_view(final(self).errors@) == strings_view(old(self).errors@),
            !r ==> strings_view(final(self).errors@) == strings_view(old(self).errors@) + seq![
                msg_expected(token@, old(self).next_token@),
            ],
    {
        if self.is_next_token(token) {
            return true;
        }
        proof {
            reveal_strlit("expected next token to be ");
            reveal_strlit(", got ");
            reveal_strlit(" instead");
        }
        let mut msg = String::from_str("expected next token to be ");
        let expected_text = token.render();
        msg.append(expected_text.as_str());
        msg.append(", got ");
        let got_text = self.next_token.render();
        msg.append(got_text.as_str());
        msg.append(" instead");
        proof {
            assert_seqs_equal!(msg@ == msg_expected(token@, self.next_token@));
        }
        self.report_error(msg);
        false
    }

    /// Parameters after the first, one per comma.
    fn parse_params_rest(&mut self, acc: Vec<String>) -> (r: Vec<String>)
        requires
            old(self).wf(),
        ensures
            final(self).wf(),
            final(self).lexer.src() == old(self).lexer.src(),
            final(self).rest().len() <= old(self).rest().len(),
            forall|f: nat|
                #![trigger spec_parse_params_loop(f, old(self).rest(), strings_view(acc@))]
                f >= old(self).rest().len() * 16 + 3 ==> {
                    let res = spec_parse_params_loop(f, old(self).rest(), strings_view(acc@));
                    &&& final(self).rest() == res.st
                    &&& strings_view(final(self).errors@) == strings_view(old(self).errors@)
                        + res.errs
                    &&& res.val == Some(strings_view(r@))
                },
        decreases old(self).rest().len(), 3int,
    {
        let ghost st0 = self.rest();
        let ghost accv = strings_view(acc@);
        proof {
            self.lemma_rest_toks();
        }
        if self.is_next_token(&Token::Comma) {
            proof {
                lemma_st_adv_wf(st0);
                lemma_st_adv_wf(st_adv(st0));
            }
            self.advance_tokens();
            self.advance_tokens();
            proof {
                self.lemma_rest_toks();
            }
            let mut acc2 = acc;
            let param = self.curr_token.render();
            proof {
                crate::ast::lemma_strings_view_push(acc2@, param);
            }
            acc2.push(param);
            let ghost st1 = self.rest();
            let ghost acc2v = strings_view(acc2@);
            let ghost errs0 = strings_view(self.errors@);
            let out = self.parse_params_rest(acc2);
            proof {
                assert forall|f: nat|
                    #![trigger spec_parse_params_loop(f, st0, accv)]
                    f >= st0.len() * 16 + 3 implies {
                    let res = spec_parse_params_loop(f, st0, accv);
                    &&& final(self).rest() == res.st
                    &&& strings_view(final(self).errors@) == strings_view(old(self).errors@)
                        + res.errs
                    &&& res.val == Some(strings_view(out@))
                } by {
                    let res = spec_parse_params_loop(f, st0, accv);
                    let sub = spec_parse_params_loop((f - 1) as nat, st1, acc2v);
                    assert(res == sub);
                }
            }
            out
        } else {
            proof {
                assert forall|f: nat|
                    #![trigger spec_parse_params_loop(f, st0, accv)]
                    f >= st0.len() * 16 + 3 implies {
                    let res = spec_parse_params_loop(f, st0, accv);
                    &&& final(self).rest() == res.st
                    &&& strings_view(final(self).errors@) == strings_view(old(self).errors@)
                        + res.errs
                    &&& res.val == Some(strings_view(acc@))
                } by {
                    assert(strings_view(final(self).errors@) =~= strings_view(old(self).errors@)
                        + Seq::<Seq<char>>::empty());
                }
            }
            acc
        }
    }

    /// Parses one whole program: top-level statements until the end of
    /// input, collecting syntax errors in `errors` along the way.
    pub fn parse_program(&mut self) -> (program: Program)
        requires
            old(self).wf(),
        ensures
            final(self).wf(),
            ({
                let res = spec_parse_program(old(self).rest());
                &&& res.val == Some(program@)
                &&& final(self).rest() == res.st
                &&& strings_view(final(self).errors@) == strings_view(old(self).errors@)
                    + res.errs
            }),
    {
        let ghost st0 = self.rest();
        let statments = self.parse_program_rest();
        proof {
            let res = spec_parse_program_loop(parse_fuel(st0), st0);
            assert(parse_fuel(st0) >= st0.len() * 16 + 13);
        }
        Program { statments }
    }

    /// The top-level statements from the current token to the end of input.
    #[verifier::rlimit(100)]
    fn parse_program_rest(&mut self) -> (r: Vec<Statement>)
        requires
            old(self).wf(),
        ensures
            final(self).wf(),
            final(self).lexer.src() == old(self).lexer.src(),
            final(self).rest().len() <= old(self).rest().len(),
            forall|f: nat|
                #![trigger spec_parse_program_loop(f, old(self).rest())]
                f >= old(self).rest().len() * 16 + 13 ==> {
                    let res = spec_parse_program_loop(f, old(self).rest());
                    &&& final(self).rest() == res.st
                    &&& strings_view(final(self).errors@) == strings_view(old(self).errors@)
                        + res.errs
                    &&& res.val == Some(stmts_view(r@))
                },
        decreases old(self).rest().len(), 13int,
    {
        let ghost st0 = self.rest();
        proof {
            self.lemma_rest_toks();
        }
        if self.is_curr_token(&Token::Eof) {
            proof {
                lemma_concat_empty(strings_view(self.errors@));
            }
            return Vec::new();
        }
        let stmt = self.parse_statement();
        proof {
            lemma_st_adv_wf(self.rest());
        }
        let ghost st1 = self.rest();
        self.advance_tokens();
        let ghost st2 = self.rest();
        let ghost stmt_v: Option<StmtV> = match &stmt {
            Some(st) => Some(st@),
            None => None,
        };
        let mut out: Vec<Statement> = match stmt {
            Some(s) => {
                let mut v = Vec::new();
                v.push(s);
                v
            },
            None => Vec::new(),
        };
        let mut rest_vec = self.parse_program_rest();
        let ghost outv0 = out@;
        let ghost restv = rest_vec@;
        out.append(&mut rest_vec);
        proof {
            match stmt_v {
                Some(sv) => {
                    assert(out@ == seq![outv0[0]] + restv);
                    assert(out@.drop_first() =~= restv);
                    assert(stmt_view(out@[0]) == sv);
                    assert(stmts_view(out@) == seq![sv] + stmts_view(restv));
                },
                None => {
                    assert(out@ =~= restv);
                },
            }
            assert forall|f: nat|
                #![trigger spec_parse_program_loop(f, st0)]
                f >= st0.len() * 16 + 13 implies {
                let res = spec_parse_program_loop(f, st0);
                &&& final(self).rest() == res.st
                &&& strings_view(final(self).errors@) == strings_view(old(self).errors@)
                    + res.errs
                &&& res.val == Some(stmts_view(out@))
            } by {
                let res = spec_parse_program_loop(f, st0);
                let r1 = spec_parse_statement((f - 1) as nat, st0);
                let rest = spec_parse_program_loop((f - 1) as nat, st_adv(r1.st));
                lemma_concat_assoc(strings_view(old(self).errors@), r1.errs, rest.errs);
            }
        }
        out
    }

    /// One statement: `let`, `return`, or an expression statement.
    #[verifier::rlimit(100)]
    fn parse_statement(&mut self) -> (r: Option<Statement>)
        requires
            old(self).wf(),
        ensures
            final(self).wf(),
            final(self).lexer.src() == old(self).lexer.src(),
            final(self).rest().len() <= old(self).rest().len(),
            forall|f: nat|
                #![trigger spec_parse_statement(f, old(self).rest())]
                f >= old(self).rest().len() * 16 + 11 ==> {
                    let res = spec_parse_statement(f, old(self).rest());
                    &&& final(self).rest() == res.st
                    &&& strings_view(final(self).errors@) == strings_view(old(self).errors@)
                        + res.errs
                    &&& (match r {
                        Some(s) => res.val == Some(s@),
                        None => res.val is None,
                    })
                },
        decreases old(self).rest().len(), 11int,
    {
        let ghost st0 = self.rest();
        proof {
            self.lemma_rest_toks();
        }
        let r = match &self.curr_token {
            Token::Let => self.parse_let_statement(),
            Token::Return => self.parse_return_statement(),
            _ => self.parse_expression_statement(),
        };
        proof {
            assert forall|f: nat|
                #![trigger spec_parse_statement(f, st0)]
                f >= st0.len() * 16 + 11 implies {
                let res = spec_parse_statement(f, st0);
                &&& final(self).rest() == res.st
                &&& strings_view(final(self).errors@) == strings_view(old(self).errors@)
                    + res.errs
                &&& (match r {
                    Some(s) => res.val == Some(s@),
                    None => res.val is None,
                })
            } by {
                let res = spec_parse_statement(f, st0);
                if tok_at(st0, 0) is Let {
                    let a = spec_parse_let_statement((f - 1) as nat, st0);
                } else if tok_at(st0, 0) is Return {
                    let b = spec_parse_return_statement((f - 1) as nat, st0);
                } else {
                    let c = spec_parse_expression_statement((f - 1) as nat, st0);
                }
            }
        }
        r
    }

    /// A `let` statement.
    #[verifier::rlimit(100)]
    fn parse_let_statement(&mut self) -> (r: Option<Statement>)
        requires
            old(self).wf(),
            !(tok_at(old(self).rest(), 0) is Eof),
        ensures
            final(self).wf(),
            final(self).lexer.src() == old(self).lexer.src(),
            final(self).rest().len() <= old(self).rest().len(),
            forall|f: nat|
                #![trigger spec_parse_let_statement(f, old(self).rest())]
                f >= old(self).rest().len() * 16 + 10 ==> {
                    let res = spec_parse_let_statement(f, old(self).rest());
                    &&& final(self).rest() == res.st
                    &&& strings_view(final(self).errors@) == strings_view(old(self).errors@)
                        + res.errs
                    &&& (match r {
                        Some(s) => res.val == Some(s@),
                        None => res.val is None,
                    })
                },
        decreases old(self).rest().len(), 10int,
    {
        let ghost st0 = self.rest();
        proof {
            self.lemma_rest_toks();
            lemma_concat_empty(strings_view(self.errors@));
        }
        let is_ident = match &self.next_token {
            Token::Ident(_) => true,
            _ => false,
        };
        if !is_ident {
            return None;
        }
        proof {
            lemma_st_adv_wf(st0);
        }
        self.advance_tokens();
        proof {
            self.lemma_rest_toks();
        }
        let identifier = self.curr_token.clone();
        let ghost identv = identifier@;
        if !self.advance_if_expected(&Token::Assign) {
            return None;
        }
        proof {
            lemma_st_adv_wf(st_adv(st0));
            lemma_st_adv_wf(st_adv(st_adv(st0)));
        }
        // Advance past the '='.
        self.advance_tokens();
        let ghost errs_before = strings_view(self.errors@);
        let value = self.parse_expression(Precedence::Lowest);
        let r = match value {
            Some(v) => {
                proof {
                    self.lemma_rest_toks();
                }
                if self.is_next_token(&Token::Semicolon) {
                    proof {
                        lemma_st_adv_wf(self.rest());
                    }
                    self.advance_tokens();
                }
                Some(Statement::LetStatement { ident: identifier, value: v })
            },
            None => None,
        };
        proof {
            assert forall|f: nat|
                #![trigger spec_parse_let_statement(f, st0)]
                f >= st0.len() * 16 + 10 implies {
                let res = spec_parse_let_statement(f, st0);
                &&& final(self).rest() == res.st
                &&& strings_view(final(self).errors@) == strings_view(old(self).errors@)
                    + res.errs
                &&& (match r {
                    Some(st) => res.val == Some(st@),
                    None => res.val is None,
                })
            } by {
                let res = spec_parse_let_statement(f, st0);
                let r1 = spec_parse_expression(
                    (f - 1) as nat,
                    st_adv(st_adv(st_adv(st0))),
                    Precedence::Lowest,
                );
            }
        }
        r
    }

    /// A `return` statement.
    fn parse_return_statement(&mut self) -> (r: Option<Statement>)
        requires
            old(self).wf(),
            !(tok_at(old(self).rest(), 0) is Eof),
        ensures
            final(self).wf(),
            final(self).lexer.src() == old(self).lexer.src(),
            final(self).rest().len() <= old(self).rest().len(),
            forall|f: nat|
                #![trigger spec_parse_return_statement(f, old(self).rest())]
                f >= old(self).rest().len() * 16 + 10 ==> {
                    let res = spec_parse_return_statement(f, old(self).rest());
                    &&& final(self).rest() == res.st
                    &&& strings_view(final(self).errors@) == strings_view(old(self).errors@)
                        + res.errs
                    &&& (match r {
                        Some(s) => res.val == Some(s@),
                        None => res.val is None,
                    })
                },
        decreases old(self).rest().len(), 10int,
    {
        let ghost st0 = self.rest();
        proof {
            self.lemma_rest_toks();
            lemma_st_adv_wf(st0);
        }
        // Advance past the 'return' keyword.
        self.advance_tokens();
        let value = self.parse_expression(Precedence::Lowest);
        let r = match value {
            Some(v) => {
                proof {
                    self.lemma_rest_toks();
                }
                if self.is_next_token(&Token::Semicolon) {
                    proof {
                        lemma_st_adv_wf(self.rest());
                    }
                    self.advance_tokens();
                }
                Some(Statement::ReturnStatement(v))
            },
            None => None,
        };
        proof {
            assert forall|f: nat|
                #![trigger spec_parse_return_statement(f, st0)]
                f >= st0.len() * 16 + 10 implies {
                let res = spec_parse_return_statement(f, st0);
                &&& final(self).rest() == res.st
                &&& strings_view(final(self).errors@) == strings_view(old(self).errors@)
                    + res.errs
                &&& (match r {
                    Some(s) => res.val == Some(s@),
                    None => res.val is None,
                })
            } by {
                let res = spec_parse_return_statement(f, st0);
                let r1 = spec_parse_expression((f - 1) as nat, st_adv(st0), Precedence::Lowest);
            }
        }
        r
    }

    /// An expression standing as a statement.
    fn parse_expression_statement(&mut self) -> (r: Option<Statement>)
        requires
            old(self).wf(),
        ensures
            final(self).wf(),
            final(self).lexer.src() == old(self).lexer.src(),
            final(self).rest().len() <= old(self).rest().len(),
            forall|f: nat|
                #![trigger spec_parse_expression_statement(f, old(self).rest())]
                f >= old(self).rest().len() * 16 + 10 ==> {
                    let res = spec_parse_expression_statement(f, old(self).rest());
                    &&& final(self).rest() == res.st
                    &&& strings_view(final(self).errors@) == strings_view(old(self).errors@)
                        + res.errs
                    &&& (match r {
                        Some(s) => res.val == Some(s@),
                        None => res.val is None,
                    })
                },
        decreases old(self).rest().len(), 10int,
    {
        let ghost st0 = self.rest();
        let expr = self.parse_expression(Precedence::Lowest);
        let r = match expr {
            Some(e) => {
                proof {
                    self.lemma_rest_toks();
                }
                if self.is_next_token(&Token::Semicolon) {
                    proof {
                        lemma_st_adv_wf(self.rest());
                    }
                    self.advance_tokens();
                }
                Some(Statement::ExpressionStatement(e))
            },
            None => None,
        };
        proof {
            assert forall|f: nat|
                #![trigger spec_parse_expression_statement(f, st0)]
                f >= st0.len() * 16 + 10 implies {
                let res = spec_parse_expression_statement(f, st0);
                &&& final(self).rest() == res.st
                &&& strings_view(final(self).errors@) == strings_view(old(self).errors@)
                    + res.errs
                &&& (match r {
                    Some(s) => res.val == Some(s@),
                    None => res.val is None,
                })
            } by {
                let res = spec_parse_expression_statement(f, st0);
                let r1 = spec_parse_expression((f - 1) as nat, st0, Precedence::Lowest);
            }
        }
        r
    }

    /// One expression by precedence climbing: a prefix rule, then infix
    /// rules while the lookahead binds tighter than `precedence`.
    fn parse_expression(&mut self, precedence: Precedence) -> (r: Option<Expression>)
        requires
            old(self).wf(),
        ensures
            final(self).wf(),
            final(self).lexer.src() == old(self).lexer.src(),
            final(self).rest().len() <= old(self).rest().len(),
            forall|f: nat|
                #![trigger spec_parse_expression(f, old(self).rest(), precedence)]
                f >= old(self).rest().len() * 16 + 9 ==> {
                    let res = spec_parse_expression(f, old(self).rest(), precedence);
                    &&& final(self).rest() == res.st
                    &&& strings_view(final(self).errors@) == strings_view(old(self).errors@)
                        + res.errs
                    &&& (match r {
                        Some(e) => res.val == Some(e@),
                        None => res.val is None,
                    })
                },
        decreases old(self).rest().len(), 9int,
    {
        let ghost st0 = self.rest();
        let ghost errs0 = strings_view(self.errors@);
        let prefix = self.parse_prefix();
        match prefix {
            None => {
                proof {
                    self.lemma_rest_toks();
                    reveal_strlit("no prefix parse function for ");
                }
                let mut msg = String::from_str("no prefix parse function for ");
                let curr_text = self.curr_token.render();
                msg.append(curr_text.as_str());
                let ghost st1 = self.rest();
                proof {
                    assert_seqs_equal!(msg@ == msg_no_prefix(tok_at(st1, 0)));
                }
                self.report_error(msg);
                proof {
                    assert forall|f: nat|
                        #![trigger spec_parse_expression(f, st0, precedence)]
                        f >= st0.len() * 16 + 9 implies {
                        let res = spec_parse_expression(f, st0, precedence);
                        &&& final(self).rest() == res.st
                        &&& strings_view(final(self).errors@) == strings_view(old(self).errors@)
                            + res.errs
                        &&& res.val is None
                    } by {
                        let res = spec_parse_expression(f, st0, precedence);
                        let p = spec_parse_prefix((f - 1) as nat, st0);
                        assert_seqs_equal!(
                            strings_view(final(self).errors@)
                            == strings_view(old(self).errors@) + res.errs
                        );
                    }
                }
                None
            },
            Some(left) => {
                let ghost st1 = self.rest();
                let ghost errs1 = strings_view(self.errors@);
                let ghost leftv = left@;
                let out = self.parse_infix_climb(left, precedence);
                proof {
                    assert forall|f: nat|
                        #![trigger spec_parse_expression(f, st0, precedence)]
                        f >= st0.len() * 16 + 9 implies {
                        let res = spec_parse_expression(f, st0, precedence);
                        &&& final(self).rest() == res.st
                        &&& strings_view(final(self).errors@) == strings_view(old(self).errors@)
                            + res.errs
                        &&& res.val == Some(out@)
                    } by {
                        let res = spec_parse_expression(f, st0, precedence);
                        let p = spec_parse_prefix((f - 1) as nat, st0);
                        let lr = spec_parse_infix_loop((f - 1) as nat, st1, leftv, precedence);
                        assert_seqs_equal!(
                            strings_view(final(self).errors@)
                            == strings_view(old(self).errors@) + res.errs
                        );
                    }
                }
                Some(out)
            },
        }
    }

    /// The climb: extends `left` with infix constructs while the lookahead
    /// binds tighter than `precedence`.
    fn parse_infix_climb(&mut self, left: Expression, precedence: Precedence) -> (r: Expression)
        requires
            old(self).wf(),
        ensures
            final(self).wf(),
            final(self).lexer.src() == old(self).lexer.src(),
            final(self).rest().len() <= old(self).rest().len(),
            forall|f: nat|
                #![trigger spec_parse_infix_loop(f, old(self).rest(), left@, precedence)]
                f >= old(self).rest().len() * 16 + 7 ==> {
                    let res = spec_parse_infix_loop(f, old(self).rest(), left@, precedence);
                    &&& final(self).rest() == res.st
                    &&& strings_view(final(self).errors@) == strings_view(old(self).errors@)
                        + res.errs
                    &&& res.val == Some(r@)
                },
        decreases old(self).rest().len(), 7int,
    {
        let ghost st0 = self.rest();
        proof {
            self.lemma_rest_toks();
            lemma_concat_empty(strings_view(self.errors@));
        }
        let semi = self.is_next_token(&Token::Semicolon);
        let next_prec = Precedence::of_token(&self.next_token);
        if semi || !precedence.binds_looser_than(next_prec) {
            proof {
                let ghost lv = left@;
                assert forall|f: nat|
                    #![trigger spec_parse_infix_loop(f, st0, lv, precedence)]
                    f >= st0.len() * 16 + 7 implies {
                    let res = spec_parse_infix_loop(f, st0, lv, precedence);
                    &&& final(self).rest() == res.st
                    &&& strings_view(final(self).errors@) == strings_view(old(self).errors@)
                        + res.errs
                    &&& res.val == Some(lv)
                } by {
                    let res = spec_parse_infix_loop(f, st0, lv, precedence);
                }
            }
            return left;
        }
        let ghost leftv = left@;
        let extended = self.parse_infix(&left);
        match extended {
            Some(bigger) => {
                let ghost st1 = self.rest();
                let ghost biggerv = bigger@;
                let out = self.parse_infix_climb(bigger, precedence);
                proof {
                    assert forall|f: nat|
                        #![trigger spec_parse_infix_loop(f, st0, leftv, precedence)]
                        f >= st0.len() * 16 + 7 implies {
                        let res = spec_parse_infix_loop(f, st0, leftv, precedence);
                        &&& final(self).rest() == res.st
                        &&& strings_view(final(self).errors@) == strings_view(old(self).errors@)
                            + res.errs
                        &&& res.val == Some(out@)
                    } by {
                        let res = spec_parse_infix_loop(f, st0, leftv, precedence);
                        let inf = spec_parse_infix((f - 1) as nat, st0, leftv);
                        let lr = spec_parse_infix_loop((f - 1) as nat, st1, biggerv, precedence);
                        assert_seqs_equal!(
                            strings_view(final(self).errors@)
                            == strings_view(old(self).errors@) + res.errs
                        );
                    }
                }
                out
            },
            None => {
                proof {
                    let ghost lv = leftv;
                    assert forall|f: nat|
                        #![trigger spec_parse_infix_loop(f, st0, lv, precedence)]
                        f >= st0.len() * 16 + 7 implies {
                        let res = spec_parse_infix_loop(f, st0, lv, precedence);
                        &&& final(self).rest() == res.st
                        &&& strings_view(final(self).errors@) == strings_view(old(self).errors@)
                            + res.errs
                        &&& res.val == Some(lv)
                    } by {
                        let res = spec_parse_infix_loop(f, st0, lv, precedence);
                        let inf = spec_parse_infix((f - 1) as nat, st0, lv);
                        assert_seqs_equal!(
                            strings_view(final(self).errors@)
                            == strings_view(old(self).errors@) + res.errs
                        );
                    }
                }
                left
            },
        }
    }

    /// One infix step: a binary operator or a call after `left`.
    fn parse_infix(&mut self, left: &Expression) -> (r: Option<Expression>)
        requires
            old(self).wf(),
        ensures
            final(self).wf(),
            final(self).lexer.src() == old(self).lexer.src(),
            final(self).rest().len() <= old(self).rest().len(),
            !(spec_precedence_of(tok_at(old(self).rest(), 1)) == Precedence::Lowest)
                ==> final(self).rest().len() < old(self).rest().len(),
            forall|f: nat|
                #![trigger spec_parse_infix(f, old(self).rest(), left@)]
                f >= old(self).rest().len() * 16 + 6 ==> {
                    let res = spec_parse_infix(f, old(self).rest(), left@);
                    &&& final(self).rest() == res.st
                    &&& strings_view(final(self).errors@) == strings_view(old(self).errors@)
                        + res.errs
                    &&& (match r {
                        Some(e) => res.val == Some(e@),
                        None => res.val is None,
                    })
                },
        decreases old(self).rest().len(), 6int,
    {
        let ghost st0 = self.rest();
        proof {
            self.lemma_rest_toks();
            lemma_concat_empty(strings_view(self.errors@));
        }
        let is_op = match &self.next_token {
            Token::Plus | Token::Minus | Token::Asterisk | Token::Slash | Token::Percent
                | Token::Equal | Token::NotEqual | Token::LessThan | Token::GreaterThan => true,
            _ => false,
        };
        let ghost lv = left@;
        if is_op {
            proof {
                lemma_st_adv_wf(st0);
            }
            self.advance_tokens();
            let r = self.parse_infix_expression(left.clone());
            proof {
                assert forall|f: nat|
                    #![trigger spec_parse_infix(f, st0, lv)]
                    f >= st0.len() * 16 + 6 implies {
                    let res = spec_parse_infix(f, st0, lv);
                    &&& final(self).rest() == res.st
                    &&& strings_view(final(self).errors@) == strings_view(old(self).errors@)
                        + res.errs
                    &&& (match r {
                        Some(e) => res.val == Some(e@),
                        None => res.val is None,
                    })
                } by {
                    let res = spec_parse_infix(f, st0, lv);
                    let sub = spec_parse_infix_expression((f - 1) as nat, st_adv(st0), lv);
                }
            }
            r
        } else if self.is_next_token(&Token::Lparen) {
            proof {
                lemma_st_adv_wf(st0);
            }
            self.advance_tokens();
            let r = self.parse_call_expression(left.clone());
            proof {
                assert forall|f: nat|
                    #![trigger spec_parse_infix(f, st0, lv)]
                    f >= st0.len() * 16 + 6 implies {
                    let res = spec_parse_infix(f, st0, lv);
                    &&& final(self).rest() == res.st
                    &&& strings_view(final(self).errors@) == strings_view(old(self).errors@)
                        + res.errs
                    &&& (match r {
                        Some(e) => res.val == Some(e@),
                        None => res.val is None,
                    })
                } by {
                    let res = spec_parse_infix(f, st0, lv);
                    let sub = spec_parse_call_expression((f - 1) as nat, st_adv(st0), lv);
                }
            }
            r
        } else {
            proof {
                assert(spec_precedence_of(tok_at(st0, 1)) == Precedence::Lowest);
            }
            None
        }
    }

    /// A binary operator applied to `left` and the expression after it.
    fn parse_infix_expression(&mut self, left: Expression) -> (r: Option<Expression>)
        requires
            old(self).wf(),
            !(tok_at(old(self).rest(), 0) is Eof),
        ensures
            final(self).wf(),
            final(self).lexer.src() == old(self).lexer.src(),
            final(self).rest().len() <= old(self).rest().len(),
            forall|f: nat|
                #![trigger spec_parse_infix_expression(f, old(self).rest(), left@)]
                f >= old(self).rest().len() * 16 + 5 ==> {
                    let res = spec_parse_infix_expression(f, old(self).rest(), left@);
                    &&& final(self).rest() == res.st
                    &&& strings_view(final(self).errors@) == strings_view(old(self).errors@)
                        + res.errs
                    &&& (match r {
                        Some(e) => res.val == Some(e@),
                        None => res.val is None,
                    })
                },
        decreases old(self).rest().len(), 5int,
    {
        let ghost st0 = self.rest();
        proof {
            self.lemma_rest_toks();
            lemma_st_adv_wf(st0);
        }
        let op_token = self.curr_token.clone();
        let ghost opv = op_token@;
        let curr_precedence = Precedence::of_token(&op_token);
        let ghost lv = left@;
        self.advance_tokens();
        let right = self.parse_expression(curr_precedence);
        let r = match right {
            Some(rhs) => Some(
                Expression::InfixExpression {
                    left: Box::new(left),
                    op_token,
                    right: Box::new(rhs),
                },
            ),
            None => None,
        };
        proof {
            assert forall|f: nat|
                #![trigger spec_parse_infix_expression(f, st0, lv)]
                f >= st0.len() * 16 + 5 implies {
                let res = spec_parse_infix_expression(f, st0, lv);
                &&& final(self).rest() == res.st
                &&& strings_view(final(self).errors@) == strings_view(old(self).errors@)
                    + res.errs
                &&& (match r {
                    Some(e) => res.val == Some(e@),
                    None => res.val is None,
                })
            } by {
                let res = spec_parse_infix_expression(f, st0, lv);
                let r1 = spec_parse_expression(
                    (f - 1) as nat,
                    st_adv(st0),
                    spec_precedence_of(tok_at(st0, 0)),
                );
            }
        }
        r
    }

    /// A prefix rule for the current token.
    fn parse_prefix(&mut self) -> (r: Option<Expression>)
        requires
            old(self).wf(),
        ensures
            final(self).wf(),
            final(self).lexer.src() == old(self).lexer.src(),
            final(self).rest().len() <= old(self).rest().len(),
            forall|f: nat|
                #![trigger spec_parse_prefix(f, old(self).rest())]
                f >= old(self).rest().len() * 16 + 8 ==> {
                    let res = spec_parse_prefix(f, old(self).rest());
                    &&& final(self).rest() == res.st
                    &&& strings_view(final(self).errors@) == strings_view(old(self).errors@)
                        + res.errs
                    &&& (match r {
                        Some(e) => res.val == Some(e@),
                        None => res.val is None,
                    })
                },
        decreases old(self).rest().len(), 8int,
    {
        proof {
            self.lemma_rest_toks();
            lemma_concat_empty(strings_view(self.errors@));
        }
        let ghost st0 = self.rest();
        let tok = self.curr_token.clone();
        let r = match tok {
            Token::Ident(name) => Some(self.parse_identifier(name)),
            Token::Int(i) => Some(self.parse_integer(i)),
            Token::Str(s) => Some(Expression::StringExpression(s)),
            Token::True | Token::False => Some(self.parse_boolean_expression()),
            Token::Bang | Token::Minus => self.parse_prefix_expression(),
            Token::Lparen => self.parse_grouped_expression(),
            Token::If => self.parse_if_expression(),
            Token::Func => self.parse_function_expression(),
            _ => None,
        };
        proof {
            assert forall|f: nat|
                #![trigger spec_parse_prefix(f, st0)]
                f >= st0.len() * 16 + 8 implies {
                let res = spec_parse_prefix(f, st0);
                &&& final(self).rest() == res.st
                &&& strings_view(final(self).errors@) == strings_view(old(self).errors@)
                    + res.errs
                &&& (match r {
                    Some(e) => res.val == Some(e@),
                    None => res.val is None,
                })
            } by {
                let res = spec_parse_prefix(f, st0);
                let a = spec_parse_prefix_expression((f - 1) as nat, st0);
                let b = spec_parse_grouped_expression((f - 1) as nat, st0);
                let c = spec_parse_if_expression((f - 1) as nat, st0);
                let d = spec_parse_function_expression((f - 1) as nat, st0);
            }
        }
        r
    }

    /// An identifier in expression position.
    fn parse_identifier(&mut self, name: String) -> (r: Expression)
        ensures
            *final(self) == *old(self),
            r@ == ExprV::IdentifierExpression(name@),
    {
        Expression::IdentifierExpression(name)
    }

    /// An integer literal in expression position.
    fn parse_integer(&mut self, value: i64) -> (r: Expression)
        ensures
            *final(self) == *old(self),
            r@ == ExprV::IntExpression(value as int),
    {
        Expression::IntExpression(value)
    }

    /// A boolean literal in expression position.
    fn parse_boolean_expression(&self) -> (r: Expression)
        requires
            self.wf(),
        ensures
            r@ == ExprV::BooleanExpression(self.curr_token@ is True),
    {
        Expression::BooleanExpression(self.is_curr_token(&Token::True))
    }

    /// Unary `!` or `-` applied to the expression after it.
    fn parse_prefix_expression(&mut self) -> (r: Option<Expression>)
        requires
            old(self).wf(),
            !(tok_at(old(self).rest(), 0) is Eof),
        ensures
            final(self).wf(),
            final(self).lexer.src() == old(self).lexer.src(),
            final(self).rest().len() <= old(self).rest().len(),
            forall|f: nat|
                #![trigger spec_parse_prefix_expression(f, old(self).rest())]
                f >= old(self).rest().len() * 16 + 6 ==> {
                    let res = spec_parse_prefix_expression(f, old(self).rest());
                    &&& final(self).rest() == res.st
                    &&& strings_view(final(self).errors@) == strings_view(old(self).errors@)
                        + res.errs
                    &&& (match r {
                        Some(e) => res.val == Some(e@),
                        None => res.val is None,
                    })
                },
        decreases old(self).rest().len(), 6int,
    {
        let ghost st0 = self.rest();
        proof {
            self.lemma_rest_toks();
            lemma_st_adv_wf(st0);
        }
        let op_token = self.curr_token.clone();
        let ghost opv = op_token@;
        self.advance_tokens();
        let right = self.parse_expression(Precedence::Prefix);
        let r = match right {
            Some(rhs) => Some(
                Expression::PrefixExpression { op_token, right: Box::new(rhs) },
            ),
            None => None,
        };
        proof {
            assert forall|f: nat|
                #![trigger spec_parse_prefix_expression(f, st0)]
                f >= st0.len() * 16 + 6 implies {
                let res = spec_parse_prefix_expression(f, st0);
                &&& final(self).rest() == res.st
                &&& strings_view(final(self).errors@) == strings_view(old(self).errors@)
                    + res.errs
                &&& (match r {
                    Some(e) => res.val == Some(e@),
                    None => res.val is None,
                })
            } by {
                let res = spec_parse_prefix_expression(f, st0);
                let r1 = spec_parse_expression((f - 1) as nat, st_adv(st0), Precedence::Prefix);
            }
        }
        r
    }

    /// A parenthesized group.
    fn parse_grouped_expression(&mut self) -> (r: Option<Expression>)
        requires
            old(self).wf(),
            !(tok_at(old(self).rest(), 0) is Eof),
        ensures
            final(self).wf(),
            final(self).lexer.src() == old(self).lexer.src(),
            final(self).rest().len() <= old(self).rest().len(),
            forall|f: nat|
                #![trigger spec_parse_grouped_expression(f, old(self).rest())]
                f >= old(self).rest().len() * 16 + 6 ==> {
                    let res = spec_parse_grouped_expression(f, old(self).rest());
                    &&& final(self).rest() == res.st
                    &&& strings_view(final(self).errors@) == strings_view(old(self).errors@)
                        + res.errs
                    &&& (match r {
                        Some(e) => res.val == Some(e@),
                        None => res.val is None,
                    })
                },
        decreases old(self).rest().len(), 6int,
    {
        let ghost st0 = self.rest();
        proof {
            self.lemma_rest_toks();
            lemma_st_adv_wf(st0);
        }
        self.advance_tokens();
        let expr = self.parse_expression(Precedence::Lowest);
        proof {
            self.lemma_rest_toks();
        }
        let ok = self.advance_if_expected(&Token::Rparen);
        let r = if ok {
            expr
        } else {
            None
        };
        proof {
            assert forall|f: nat|
                #![trigger spec_parse_grouped_expression(f, st0)]
                f >= st0.len() * 16 + 6 implies {
                let res = spec_parse_grouped_expression(f, st0);
                &&& final(self).rest() == res.st
                &&& strings_view(final(self).errors@) == strings_view(old(self).errors@)
                    + res.errs
                &&& (match r {
                    Some(e) => res.val == Some(e@),
                    None => res.val is None,
                })
            } by {
                let res = spec_parse_grouped_expression(f, st0);
                let r1 = spec_parse_expression((f - 1) as nat, st_adv(st0), Precedence::Lowest);
                assert_seqs_equal!(
                    strings_view(final(self).errors@)
                    == strings_view(old(self).errors@) + res.errs
                );
            }
        }
        r
    }

    /// An `if` expression: a condition, a braced consequence, and an
    /// optional braced alternative.
    #[verifier::rlimit(100)]
    fn parse_if_expression(&mut self) -> (r: Option<Expression>)
        requires
            old(self).wf(),
            !(tok_at(old(self).rest(), 0) is Eof),
        ensures
            final(self).wf(),
            final(self).lexer.src() == old(self).lexer.src(),
            final(self).rest().len() <= old(self).rest().len(),
            forall|f: nat|
                #![trigger spec_parse_if_expression(f, old(self).rest())]
                f >= old(self).rest().len() * 16 + 6 ==> {
                    let res = spec_parse_if_expression(f, old(self).rest());
                    &&& final(self).rest() == res.st
                    &&& strings_view(final(self).errors@) == strings_view(old(self).errors@)
                        + res.errs
                    &&& (match r {
                        Some(e) => res.val == Some(e@),
                        None => res.val is None,
                    })
                },
        decreases old(self).rest().len(), 6int,
    {
        let ghost st0 = self.rest();
        proof {
            self.lemma_rest_toks();
            lemma_st_adv_wf(st0);
        }
        self.advance_tokens();
        let cond = self.parse_expression(Precedence::Lowest);
        let r: Option<Expression> = match cond {
            None => None,
            Some(condition) => {
                proof {
                    self.lemma_rest_toks();
                }
                if !self.advance_if_expected(&Token::Lbrace) {
                    None
                } else {
                    proof {
                        lemma_st_adv_wf(self.rest());
                    }
                    let consequence = self.parse_block_statement();
                    proof {
                        self.lemma_rest_toks();
                    }
                    if self.is_next_token(&Token::Else) {
                        proof {
                            lemma_st_adv_wf(self.rest());
                        }
                        self.advance_tokens();
                        if !self.advance_if_expected(&Token::Lbrace) {
                            None
                        } else {
                            proof {
                                lemma_st_adv_wf(self.rest());
                            }
                            let alternative = self.parse_block_statement();
                            Some(
                                Expression::IfExpression {
                                    condition: Box::new(condition),
                                    consequence: Box::new(consequence),
                                    alternative: Some(Box::new(alternative)),
                                },
                            )
                        }
                    } else {
                        Some(
                            Expression::IfExpression {
                                condition: Box::new(condition),
                                consequence: Box::new(consequence),
                                alternative: None,
                            },
                        )
                    }
                }
            },
        };
        proof {
            assert forall|f: nat|
                #![trigger spec_parse_if_expression(f, st0)]
                f >= st0.len() * 16 + 6 implies {
                let res = spec_parse_if_expression(f, st0);
                &&& final(self).rest() == res.st
                &&& strings_view(final(self).errors@) == strings_view(old(self).errors@)
                    + res.errs
                &&& (match r {
                    Some(e) => res.val == Some(e@),
                    None => res.val is None,
                })
            } by {
                let res = spec_parse_if_expression(f, st0);
                let e0 = strings_view(old(self).errors@);
                let c = spec_parse_expression((f - 1) as nat, st_adv(st0), Precedence::Lowest);
                if c.val is Some {
                    if tok_at(c.st, 1) is Lbrace {
                        let b = spec_parse_block_statement((f - 1) as nat, st_adv(c.st));
                        lemma_concat_assoc(e0, c.errs, b.errs);
                        if tok_at(b.st, 1) is Else {
                            if tok_at(st_adv(b.st), 1) is Lbrace {
                                let a = spec_parse_block_statement(
                                    (f - 1) as nat,
                                    st_adv(st_adv(b.st)),
                                );
                                lemma_concat_assoc(e0, c.errs + b.errs, a.errs);
                            } else {
                                let m = seq![
                                    msg_expected(TokenV::Lbrace, tok_at(st_adv(b.st), 1)),
                                ];
                                lemma_concat_assoc(e0, c.errs + b.errs, m);
                            }
                        }
                    } else {
                        let m = seq![msg_expected(TokenV::Lbrace, tok_at(c.st, 1))];
                        lemma_concat_assoc(e0, c.errs, m);
                    }
                }
            }
        }
        r
    }

    /// A braced block of statements; always yields a block, skipping
    /// statements that failed to parse.
    fn parse_block_statement(&mut self) -> (r: Statement)
        requires
            old(self).wf(),
            !(tok_at(old(self).rest(), 0) is Eof),
        ensures
            final(self).wf(),
            final(self).lexer.src() == old(self).lexer.src(),
            final(self).rest().len() <= old(self).rest().len(),
            forall|f: nat|
                #![trigger spec_parse_block_statement(f, old(self).rest())]
                f >= old(self).rest().len() * 16 + 2 ==> {
                    let res = spec_parse_block_statement(f, old(self).rest());
                    &&& final(self).rest() == res.st
                    &&& strings_view(final(self).errors@) == strings_view(old(self).errors@)
                        + res.errs
                    &&& res.val == Some(r@)
                },
        decreases old(self).rest().len(), 2int,
    {
        let ghost st0 = self.rest();
        proof {
            self.lemma_rest_toks();
            lemma_st_adv_wf(st0);
        }
        self.advance_tokens();
        let statements = self.parse_block_rest();
        let r = Statement::BlockStatement(statements);
        proof {
            let rv = r@;
            assert forall|f: nat|
                #![trigger spec_parse_block_statement(f, st0)]
                f >= st0.len() * 16 + 2 implies {
                let res = spec_parse_block_statement(f, st0);
                &&& final(self).rest() == res.st
                &&& strings_view(final(self).errors@) == strings_view(old(self).errors@)
                    + res.errs
                &&& res.val == Some(rv)
            } by {
                let res = spec_parse_block_statement(f, st0);
                let b = spec_parse_block_loop((f - 1) as nat, st_adv(st0));
            }
        }
        r
    }

    /// The statements of a block, up to `}` or the end of input.
    #[verifier::rlimit(100)]
    fn parse_block_rest(&mut self) -> (r: Vec<Statement>)
        requires
            old(self).wf(),
        ensures
            final(self).wf(),
            final(self).lexer.src() == old(self).lexer.src(),
            final(self).rest().len() <= old(self).rest().len(),
            forall|f: nat|
                #![trigger spec_parse_block_loop(f, old(self).rest())]
                f >= old(self).rest().len() * 16 + 12 ==> {
                    let res = spec_parse_block_loop(f, old(self).rest());
                    &&& final(self).rest() == res.st
                    &&& strings_view(final(self).errors@) == strings_view(old(self).errors@)
                        + res.errs
                    &&& res.val == Some(stmts_view(r@))
                },
        decreases old(self).rest().len(), 12int,
    {
        let ghost st0 = self.rest();
        proof {
            self.lemma_rest_toks();
        }
        if self.is_curr_token(&Token::Rbrace) || self.is_curr_token(&Token::Eof) {
            proof {
                lemma_concat_empty(strings_view(self.errors@));
            }
            return Vec::new();
        }
        let stmt = self.parse_statement();
        proof {
            lemma_st_adv_wf(self.rest());
        }
        let ghost st1 = self.rest();
        self.advance_tokens();
        let ghost stmt_v: Option<StmtV> = match &stmt {
            Some(st) => Some(st@),
            None => None,
        };
        let mut out: Vec<Statement> = match stmt {
            Some(s) => {
                let mut v = Vec::new();
                v.push(s);
                v
            },
            None => Vec::new(),
        };
        let mut rest_vec = self.parse_block_rest();
        let ghost outv0 = out@;
        let ghost restv = rest_vec@;
        out.append(&mut rest_vec);
        proof {
            match stmt_v {
                Some(sv) => {
                    assert(out@ == seq![outv0[0]] + restv);
                    assert(out@.drop_first() =~= restv);
                    assert(stmt_view(out@[0]) == sv);
                    assert(stmts_view(out@) == seq![sv] + stmts_view(restv));
                },
                None => {
                    assert(out@ =~= restv);
                },
            }
            assert forall|f: nat|
                #![trigger spec_parse_block_loop(f, st0)]
                f >= st0.len() * 16 + 12 implies {
                let res = spec_parse_block_loop(f, st0);
                &&& final(self).rest() == res.st
                &&& strings_view(final(self).errors@) == strings_view(old(self).errors@)
                    + res.errs
                &&& res.val == Some(stmts_view(out@))
            } by {
                let res = spec_parse_block_loop(f, st0);
                let r1 = spec_parse_statement((f - 1) as nat, st0);
                let rest = spec_parse_block_loop((f - 1) as nat, st_adv(r1.st));
                lemma_concat_assoc(strings_view(old(self).errors@), r1.errs, rest.errs);
            }
        }
        out
    }

    /// A function literal: parameters, then a braced body.
    fn parse_function_expression(&mut self) -> (r: Option<Expression>)
        requires
            old(self).wf(),
            !(tok_at(old(self).rest(), 0) is Eof),
        ensures
            final(self).wf(),
            final(self).lexer.src() == old(self).lexer.src(),
            final(self).rest().len() <= old(self).rest().len(),
            forall|f: nat|
                #![trigger spec_parse_function_expression(f, old(self).rest())]
                f >= old(self).rest().len() * 16 + 6 ==> {
                    let res = spec_parse_function_expression(f, old(self).rest());
                    &&& final(self).rest() == res.st
                    &&& strings_view(final(self).errors@) == strings_view(old(self).errors@)
                        + res.errs
                    &&& (match r {
                        Some(e) => res.val == Some(e@),
                        None => res.val is None,
                    })
                },
        decreases old(self).rest().len(), 6int,
    {
        let ghost st0 = self.rest();
        proof {
            self.lemma_rest_toks();
        }
        if !self.advance_if_expected(&Token::Lparen) {
            return None;
        }
        proof {
            lemma_st_adv_wf(st0);
        }
        let parameters = match self.parse_function_parameters() {
            Some(ps) => ps,
            None => {
                proof {
                    assert forall|f: nat|
                        #![trigger spec_parse_function_expression(f, st0)]
                        f >= st0.len() * 16 + 6 implies {
                        let res = spec_parse_function_expression(f, st0);
                        &&& final(self).rest() == res.st
                        &&& strings_view(final(self).errors@) == strings_view(old(self).errors@)
                            + res.errs
                        &&& res.val is None
                    } by {
                        let res = spec_parse_function_expression(f, st0);
                        let p = spec_parse_function_parameters((f - 1) as nat, st_adv(st0));
                        assert_seqs_equal!(
                            strings_view(final(self).errors@)
                            == strings_view(old(self).errors@) + res.errs
                        );
                    }
                }
                return None;
            },
        };
        let ghost paramsv = strings_view(parameters@);
        let ghost st_p = self.rest();
        proof {
            self.lemma_rest_toks();
        }
        if !self.advance_if_expected(&Token::Lbrace) {
            proof {
                assert forall|f: nat|
                    #![trigger spec_parse_function_expression(f, st0)]
                    f >= st0.len() * 16 + 6 implies {
                    let res = spec_parse_function_expression(f, st0);
                    &&& final(self).rest() == res.st
                    &&& strings_view(final(self).errors@) == strings_view(old(self).errors@)
                        + res.errs
                    &&& res.val is None
                } by {
                    let res = spec_parse_function_expression(f, st0);
                    let p = spec_parse_function_parameters((f - 1) as nat, st_adv(st0));
                    assert_seqs_equal!(
                        strings_view(final(self).errors@)
                        == strings_view(old(self).errors@) + res.errs
                    );
                }
            }
            return None;
        }
        proof {
            lemma_st_adv_wf(st_p);
        }
        let body = self.parse_block_statement();
        let out = Expression::FunctionExpression { parameters, body: Box::new(body) };
        proof {
            let outv = out@;
            assert forall|f: nat|
                #![trigger spec_parse_function_expression(f, st0)]
                f >= st0.len() * 16 + 6 implies {
                let res = spec_parse_function_expression(f, st0);
                &&& final(self).rest() == res.st
                &&& strings_view(final(self).errors@) == strings_view(old(self).errors@)
                    + res.errs
                &&& res.val == Some(outv)
            } by {
                let res = spec_parse_function_expression(f, st0);
                let p = spec_parse_function_parameters((f - 1) as nat, st_adv(st0));
                let b = spec_parse_block_statement((f - 1) as nat, st_adv(p.st));
                assert_seqs_equal!(
                    strings_view(final(self).errors@)
                    == strings_view(old(self).errors@) + res.errs
                );
            }
        }
        Some(out)
    }

    /// A parenthesized, comma-separated, possibly empty parameter list.
    fn parse_function_parameters(&mut self) -> (r: Option<Vec<String>>)
        requires
            old(self).wf(),
            !(tok_at(old(self).rest(), 0) is Eof),
        ensures
            final(self).wf(),
            final(self).lexer.src() == old(self).lexer.src(),
            final(self).rest().len() <= old(self).rest().len(),
            forall|f: nat|
                #![trigger spec_parse_function_parameters(f, old(self).rest())]
                f >= old(self).rest().len() * 16 + 4 ==> {
                    let res = spec_parse_function_parameters(f, old(self).rest());
                    &&& final(self).rest() == res.st
                    &&& strings_view(final(self).errors@) == strings_view(old(self).errors@)
                        + res.errs
                    &&& (match r {
                        Some(ps) => res.val == Some(strings_view(ps@)),
                        None => res.val is None,
                    })
                },
        decreases old(self).rest().len(), 4int,
    {
        let ghost st0 = self.rest();
        proof {
            self.lemma_rest_toks();
            lemma_concat_empty(strings_view(self.errors@));
        }
        if self.is_next_token(&Token::Rparen) {
            proof {
                lemma_st_adv_wf(st0);
            }
            self.advance_tokens();
            return Some(Vec::new());
        }
        proof {
            lemma_st_adv_wf(st0);
        }
        // Move the first parameter into the current slot.
        self.advance_tokens();
        proof {
            self.lemma_rest_toks();
        }
        let mut identifiers: Vec<String> = Vec::new();
        let first = self.curr_token.render();
        proof {
            crate::ast::lemma_strings_view_push(identifiers@, first);
            reveal_with_fuel(strings_view, 2);
        }
        identifiers.push(first);
        let ghost st1 = self.rest();
        let ghost accv = strings_view(identifiers@);
        let params = self.parse_params_rest(identifiers);
        proof {
            self.lemma_rest_toks();
        }
        if self.advance_if_expected(&Token::Rparen) {
            proof {
                assert forall|f: nat|
                    #![trigger spec_parse_function_parameters(f, st0)]
                    f >= st0.len() * 16 + 4 implies {
                    let res = spec_parse_function_parameters(f, st0);
                    &&& final(self).rest() == res.st
                    &&& strings_view(final(self).errors@) == strings_view(old(self).errors@)
                        + res.errs
                    &&& res.val == Some(strings_view(params@))
                } by {
                    let res = spec_parse_function_parameters(f, st0);
                    let lr = spec_parse_params_loop((f - 1) as nat, st1, accv);
                }
            }
            Some(params)
        } else {
            proof {
                assert forall|f: nat|
                    #![trigger spec_parse_function_parameters(f, st0)]
                    f >= st0.len() * 16 + 4 implies {
                    let res = spec_parse_function_parameters(f, st0);
                    &&& final(self).rest() == res.st
                    &&& strings_view(final(self).errors@) == strings_view(old(self).errors@)
                        + res.errs
                    &&& res.val is None
                } by {
                    let res = spec_parse_function_parameters(f, st0);
                    let lr = spec_parse_params_loop((f - 1) as nat, st1, accv);
                    assert_seqs_equal!(
                        strings_view(final(self).errors@)
                        == strings_view(old(self).errors@) + res.errs
                    );
                }
            }
            None
        }
    }

    /// A call of `function` on the arguments after a parenthesis in infix
    /// position.
    fn parse_call_expression(&mut self, function: Expression) -> (r: Option<Expression>)
        requires
            old(self).wf(),
            tok_at(old(self).rest(), 0) is Lparen,
        ensures
            final(self).wf(),
            final(self).lexer.src() == old(self).lexer.src(),
            final(self).rest().len() <= old(self).rest().len(),
            forall|f: nat|
                #![trigger spec_parse_call_expression(f, old(self).rest(), function@)]
                f >= old(self).rest().len() * 16 + 5 ==> {
                    let res = spec_parse_call_expression(f, old(self).rest(), function@);
                    &&& final(self).rest() == res.st
                    &&& strings_view(final(self).errors@) == strings_view(old(self).errors@)
                        + res.errs
                    &&& (match r {
                        Some(e) => res.val == Some(e@),
                        None => res.val is None,
                    })
                },
        decreases old(self).rest().len(), 5int,
    {
        let ghost st0 = self.rest();
        let ghost fv = function@;
        let arguments = self.parse_call_arguments();
        let r = match arguments {
            Some(args) => Some(
                Expression::CallExpression { function: Box::new(function), arguments: args },
            ),
            None => None,
        };
        proof {
            assert forall|f: nat|
                #![trigger spec_parse_call_expression(f, st0, fv)]
                f >= st0.len() * 16 + 5 implies {
                let res = spec_parse_call_expression(f, st0, fv);
                &&& final(self).rest() == res.st
                &&& strings_view(final(self).errors@) == strings_view(old(self).errors@)
                    + res.errs
                &&& (match r {
                    Some(e) => res.val == Some(e@),
                    None => res.val is None,
                })
            } by {
                let res = spec_parse_call_expression(f, st0, fv);
                let a = spec_parse_call_arguments((f - 1) as nat, st0);
            }
        }
        r
    }

    /// A parenthesized, comma-separated, possibly empty argument list.
    #[verifier::rlimit(100)]
    fn parse_call_arguments(&mut self) -> (r: Option<Vec<Expression>>)
        requires
            old(self).wf(),
            tok_at(old(self).rest(), 0) is Lparen,
        ensures
            final(self).wf(),
            final(self).lexer.src() == old(self).lexer.src(),
            final(self).rest().len() <= old(self).rest().len(),
            forall|f: nat|
                #![trigger spec_parse_call_arguments(f, old(self).rest())]
                f >= old(self).rest().len() * 16 + 4 ==> {
                    let res = spec_parse_call_arguments(f, old(self).rest());
                    &&& final(self).rest() == res.st
                    &&& strings_view(final(self).errors@) == strings_view(old(self).errors@)
                        + res.errs
                    &&& (match r {
                        Some(args) => res.val == Some(exprs_view(args@)),
                        None => res.val is None,
                    })
                },
        decreases old(self).rest().len(), 4int,
    {
        let ghost st0 = self.rest();
        proof {
            self.lemma_rest_toks();
            lemma_concat_empty(strings_view(self.errors@));
        }
        if self.is_next_token(&Token::Rparen) {
            proof {
                lemma_st_adv_wf(st0);
                reveal_with_fuel(exprs_view, 2);
            }
            self.advance_tokens();
            return Some(Vec::new());
        }
        proof {
            lemma_st_adv_wf(st0);
        }
        // Move the first argument into the current slot.
        self.advance_tokens();
        let first = self.parse_expression(Precedence::Lowest);
        let first_expr = match first {
            Some(e) => e,
            None => {
                proof {
                    assert forall|f: nat|
                        #![trigger spec_parse_call_arguments(f, st0)]
                        f >= st0.len() * 16 + 4 implies {
                        let res = spec_parse_call_arguments(f, st0);
                        &&& final(self).rest() == res.st
                        &&& strings_view(final(self).errors@) == strings_view(old(self).errors@)
                            + res.errs
                        &&& res.val is None
                    } by {
                        let res = spec_parse_call_arguments(f, st0);
                        let r1 = spec_parse_expression(
                            (f - 1) as nat,
                            st_adv(st0),
                            Precedence::Lowest,
                        );
                    }
                }
                return None;
            },
        };
        let mut acc: Vec<Expression> = Vec::new();
        proof {
            crate::ast::lemma_exprs_view_push(acc@, first_expr);
            reveal_with_fuel(exprs_view, 2);
        }
        acc.push(first_expr);
        let ghost st1 = self.rest();
        let ghost accv = exprs_view(acc@);
        let ghost errs1 = strings_view(self.errors@);
        let rest_args = self.parse_args_rest(acc);
        let args = match rest_args {
            Some(a) => a,
            None => {
                proof {
                    assert forall|f: nat|
                        #![trigger spec_parse_call_arguments(f, st0)]
                        f >= st0.len() * 16 + 4 implies {
                        let res = spec_parse_call_arguments(f, st0);
                        &&& final(self).rest() == res.st
                        &&& strings_view(final(self).errors@) == strings_view(old(self).errors@)
                            + res.errs
                        &&& res.val is None
                    } by {
                        let res = spec_parse_call_arguments(f, st0);
                        let r1 = spec_parse_expression(
                            (f - 1) as nat,
                            st_adv(st0),
                            Precedence::Lowest,
                        );
                        let lr = spec_parse_args_loop((f - 1) as nat, st1, accv);
                        assert_seqs_equal!(
                            strings_view(final(self).errors@)
                            == strings_view(old(self).errors@) + res.errs
                        );
                    }
                }
                return None;
            },
        };
        proof {
            self.lemma_rest_toks();
        }
        if self.advance_if_expected(&Token::Rparen) {
            proof {
                assert forall|f: nat|
                    #![trigger spec_parse_call_arguments(f, st0)]
                    f >= st0.len() * 16 + 4 implies {
                    let res = spec_parse_call_arguments(f, st0);
                    &&& final(self).rest() == res.st
                    &&& strings_view(final(self).errors@) == strings_view(old(self).errors@)
                        + res.errs
                    &&& res.val == Some(exprs_view(args@))
                } by {
                    let res = spec_parse_call_arguments(f, st0);
                    let r1 = spec_parse_expression((f - 1) as nat, st_adv(st0), Precedence::Lowest);
                    let lr = spec_parse_args_loop((f - 1) as nat, st1, accv);
                    assert_seqs_equal!(
                        strings_view(final(self).errors@)
                        == strings_view(old(self).errors@) + res.errs
                    );
                }
            }
            Some(args)
        } else {
            proof {
                assert forall|f: nat|
                    #![trigger spec_parse_call_arguments(f, st0)]
                    f >= st0.len() * 16 + 4 implies {
                    let res = spec_parse_call_arguments(f, st0);
                    &&& final(self).rest() == res.st
                    &&& strings_view(final(self).errors@) == strings_view(old(self).errors@)
                        + res.errs
                    &&& res.val is None
                } by {
                    let res = spec_parse_call_arguments(f, st0);
                    let r1 = spec_parse_expression((f - 1) as nat, st_adv(st0), Precedence::Lowest);
                    let lr = spec_parse_args_loop((f - 1) as nat, st1, accv);
                    assert_seqs_equal!(
                        strings_view(final(self).errors@)
                        == strings_view(old(self).errors@) + res.errs
                    );
                }
            }
            None
        }
    }

    /// Arguments after the first, one per comma.
    fn parse_args_rest(&mut self, acc: Vec<Expression>) -> (r: Option<Vec<Expression>>)
        requires
            old(self).wf(),
        ensures
            final(self).wf(),
            final(self).lexer.src() == old(self).lexer.src(),
            final(self).rest().len() <= old(self).rest().len(),
            forall|f: nat|
                #![trigger spec_parse_args_loop(f, old(self).rest(), exprs_view(acc@))]
                f >= old(self).rest().len() * 16 + 3 ==> {
                    let res = spec_parse_args_loop(f, old(self).rest(), exprs_view(acc@));
                    &&& final(self).rest() == res.st
                    &&& strings_view(final(self).errors@) == strings_view(old(self).errors@)
                        + res.errs
                    &&& (match r {
                        Some(args) => res.val == Some(exprs_view(args@)),
                        None => res.val is None,
                    })
                },
        decreases old(self).rest().len(), 3int,
    {
        let ghost st0 = self.rest();
        let ghost accv = exprs_view(acc@);
        proof {
            self.lemma_rest_toks();
            lemma_concat_empty(strings_view(self.errors@));
        }
        if !self.is_next_token(&Token::Comma) {
            return Some(acc);
        }
        proof {
            lemma_st_adv_wf(st0);
            lemma_st_adv_wf(st_adv(st0));
        }
        self.advance_tokens();
        self.advance_tokens();
        let arg = self.parse_expression(Precedence::Lowest);
        let arg_expr = match arg {
            Some(e) => e,
            None => {
                proof {
                    assert forall|f: nat|
                        #![trigger spec_parse_args_loop(f, st0, accv)]
                        f >= st0.len() * 16 + 3 implies {
                        let res = spec_parse_args_loop(f, st0, accv);
                        &&& final(self).rest() == res.st
                        &&& strings_view(final(self).errors@) == strings_view(old(self).errors@)
                            + res.errs
                        &&& res.val is None
                    } by {
                        let res = spec_parse_args_loop(f, st0, accv);
                        let r1 = spec_parse_expression(
                            (f - 1) as nat,
                            st_adv(st_adv(st0)),
                            Precedence::Lowest,
                        );
                    }
                }
                return None;
            },
        };
        let mut acc2 = acc;
        proof {
            crate::ast::lemma_exprs_view_push(acc2@, arg_expr);
        }
        acc2.push(arg_expr);
        let ghost st1 = self.rest();
        let ghost acc2v = exprs_view(acc2@);
        let out = self.parse_args_rest(acc2);
        proof {
            assert forall|f: nat|
                #![trigger spec_parse_args_loop(f, st0, accv)]
                f >= st0.len() * 16 + 3 implies {
                let res = spec_parse_args_loop(f, st0, accv);
                &&& final(self).rest() == res.st
                &&& strings_view(final(self).errors@) == strings_view(old(self).errors@)
                    + res.errs
                &&& (match out {
                    Some(args) => res.val == Some(exprs_view(args@)),
                    None => res.val is None,
                })
            } by {
                let res = spec_parse_args_loop(f, st0, accv);
                let r1 = spec_parse_expression(
                    (f - 1) as nat,
                    st_adv(st_adv(st0)),
                    Precedence::Lowest,
                );
                let lr = spec_parse_args_loop((f - 1) as nat, st1, acc2v);
                lemma_concat_assoc(strings_view(old(self).errors@), r1.errs, lr.errs);
            }
        }
        out
    }

    /// Advances when the lookahead is the expected token; records an error
    /// and stays put when it is not.
    fn advance_if_expected(&mut self, token: &Token) -> (r: bool)
        requires
            old(self).wf(),
        ensures
            final(self).wf(),
            final(self).lexer.src() == old(self).lexer.src(),
            r == (tok_at(old(self).rest(), 1) == token@),
            r ==> final(self).rest() == st_adv(old(self).rest()) && strings_view(
                final(self).errors@,
            ) == strings_view(old(self).errors@),
            !r ==> final(self).rest() == old(self).rest() && strings_view(final(self).errors@)
                == strings_view(old(self).errors@) + seq![
                msg_expected(token@, tok_at(old(self).rest(), 1)),
            ],
    {
        proof {
            old(self).lemma_rest_toks();
        }
        if self.expect_next_token(token) {
            self.advance_tokens();
            return true;
        }
        false
    }
}

} // verus!
