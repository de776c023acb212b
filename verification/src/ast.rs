//! The abstract syntax tree: statements and expressions, their mathematical
//! views, and their textual rendering.

use crate::program::Program;
use crate::text::dec_rep_signed;
use crate::token::{token_text, Token, TokenV};
use vstd::assert_seqs_equal;
use vstd::prelude::*;

verus! {

/// A statement of the language.
#[derive(Debug, PartialEq)]
pub enum Statement {
    LetStatement { ident: Token, value: Expression },
    ReturnStatement(Expression),
    ExpressionStatement(Expression),
    BlockStatement(Vec<Statement>),
}

/// An expression of the language.
#[derive(Debug, PartialEq)]
pub enum Expression {
    IntExpression(i64),
    IdentifierExpression(String),
    StringExpression(String),
    PrefixExpression { op_token: Token, right: Box<Expression> },
    InfixExpression { left: Box<Expression>, op_token: Token, right: Box<Expression> },
    BooleanExpression(bool),
    IfExpression {
        condition: Box<Expression>,
        consequence: Box<Statement>,
        alternative: Option<Box<Statement>>,
    },
    FunctionExpression { parameters: Vec<String>, body: Box<Statement> },
    CallExpression { function: Box<Expression>, arguments: Vec<Expression> },
}

/// Any node handed to the evaluator: a whole program, one statement, or one
/// expression.
pub enum Ast {
    Program(Program),
    Statement(Statement),
    Expression(Box<Expression>),
}

/// The mathematical view of a `Statement`.
pub enum StmtV {
    LetStatement { ident: TokenV, value: ExprV },
    ReturnStatement(ExprV),
    ExpressionStatement(ExprV),
    BlockStatement(Seq<StmtV>),
}

/// The mathematical view of an `Expression`.
pub enum ExprV {
    IntExpression(int),
    IdentifierExpression(Seq<char>),
    StringExpression(Seq<char>),
    PrefixExpression { op: TokenV, right: Box<ExprV> },
    InfixExpression { left: Box<ExprV>, op: TokenV, right: Box<ExprV> },
    BooleanExpression(bool),
    IfExpression {
        condition: Box<ExprV>,
        consequence: Box<StmtV>,
        alternative: Option<Box<StmtV>>,
    },
    FunctionExpression { parameters: Seq<Seq<char>>, body: Box<StmtV> },
    CallExpression { function: Box<ExprV>, arguments: Seq<ExprV> },
}

pub open spec fn stmt_view(s: Statement) -> StmtV
    decreases s,
{
    match s {
        Statement::LetStatement { ident, value } => StmtV::LetStatement {
            ident: ident@,
            value: expr_view(value),
        },
        Statement::ReturnStatement(e) => StmtV::ReturnStatement(expr_view(e)),
        Statement::ExpressionStatement(e) => StmtV::ExpressionStatement(expr_view(e)),
        Statement::BlockStatement(ss) => StmtV::BlockStatement(stmts_view(ss@)),
    }
}

pub open spec fn stmts_view(ss: Seq<Statement>) -> Seq<StmtV>
    decreases ss,
{
    if ss.len() == 0 {
        Seq::empty()
    } else {
        seq![stmt_view(ss[0])] + stmts_view(ss.drop_first())
    }
}

pub open spec fn expr_view(e: Expression) -> ExprV
    decreases e,
{
    match e {
        Expression::IntExpression(i) => ExprV::IntExpression(i as int),
        Expression::IdentifierExpression(name) => ExprV::IdentifierExpression(name@),
        Expression::StringExpression(s) => ExprV::StringExpression(s@),
        Expression::PrefixExpression { op_token, right } => ExprV::PrefixExpression {
            op: op_token@,
            right: Box::new(expr_view(*right)),
        },
        Expression::InfixExpression { left, op_token, right } => ExprV::InfixExpression {
            left: Box::new(expr_view(*left)),
            op: op_token@,
            right: Box::new(expr_view(*right)),
        },
        Expression::BooleanExpression(b) => ExprV::BooleanExpression(b),
        Expression::IfExpression { condition, consequence, alternative } => ExprV::IfExpression {
            condition: Box::new(expr_view(*condition)),
            consequence: Box::new(stmt_view(*consequence)),
            alternative: match alternative {
                Some(alt) => Some(Box::new(stmt_view(*alt))),
                None => None,
            },
        },
        Expression::FunctionExpression { parameters, body } => ExprV::FunctionExpression {
            parameters: strings_view(parameters@),
            body: Box::new(stmt_view(*body)),
        },
        Expression::CallExpression { function, arguments } => ExprV::CallExpression {
            function: Box::new(expr_view(*function)),
            arguments: exprs_view(arguments@),
        },
    }
}

pub open spec fn exprs_view(es: Seq<Expression>) -> Seq<ExprV>
    decreases es,
{
    if es.len() == 0 {
        Seq::empty()
    } else {
        seq![expr_view(es[0])] + exprs_view(es.drop_first())
    }
}

impl View for Statement {
    type V = StmtV;

    open spec fn view(&self) -> StmtV {
        stmt_view(*self)
    }
}

impl View for Expression {
    type V = ExprV;

    open spec fn view(&self) -> ExprV {
        expr_view(*self)
    }
}

/// `stmts_view` is the element-wise view of the sequence.
pub proof fn lemma_stmts_view(ss: Seq<Statement>)
    ensures
        stmts_view(ss).len() == ss.len(),
        forall|i: int| 0 <= i < ss.len() ==> stmts_view(ss)[i] == stmt_view(ss[i]),
    decreases ss,
{
    if ss.len() > 0 {
        lemma_stmts_view(ss.drop_first());
    }
}

/// `exprs_view` is the element-wise view of the sequence.
pub proof fn lemma_exprs_view(es: Seq<Expression>)
    ensures
        exprs_view(es).len() == es.len(),
        forall|i: int| 0 <= i < es.len() ==> exprs_view(es)[i] == expr_view(es[i]),
    decreases es,
{
    if es.len() > 0 {
        lemma_exprs_view(es.drop_first());
    }
}

/// The element-wise view of a sequence of strings.
pub open spec fn strings_view(ss: Seq<String>) -> Seq<Seq<char>>
    decreases ss,
{
    if ss.len() == 0 {
        Seq::empty()
    } else {
        seq![ss[0]@] + strings_view(ss.drop_first())
    }
}

/// `strings_view` is the element-wise view of the sequence.
pub proof fn lemma_strings_view(ss: Seq<String>)
    ensures
        strings_view(ss).len() == ss.len(),
        forall|i: int| 0 <= i < ss.len() ==> strings_view(ss)[i] == ss[i]@,
    decreases ss,
{
    if ss.len() > 0 {
        lemma_strings_view(ss.drop_first());
    }
}

/// Appending a string appends its view.
pub proof fn lemma_strings_view_push(ss: Seq<String>, m: String)
    ensures
        strings_view(ss.push(m)) == strings_view(ss) + seq![m@],
    decreases ss,
{
    if ss.len() == 0 {
        reveal_with_fuel(strings_view, 3);
        assert(ss.push(m).drop_first() =~= Seq::<String>::empty());
        assert_seqs_equal!(strings_view(ss.push(m)) == strings_view(ss) + seq![m@]);
    } else {
        assert(ss.push(m).len() == ss.len() + 1);
        assert(strings_view(ss.push(m)) == seq![ss.push(m)[0]@] + strings_view(
            ss.push(m).drop_first(),
        ));
        assert(ss.push(m)[0] == ss[0]);
        assert(ss.push(m).drop_first() =~= ss.drop_first().push(m));
        lemma_strings_view_push(ss.drop_first(), m);
        assert(strings_view(ss.push(m).drop_first()) == strings_view(ss.drop_first()) + seq![m@]);
        assert_seqs_equal!(strings_view(ss.push(m)) == strings_view(ss) + seq![m@]);
    }
}

/// Appending an expression appends its view.
pub proof fn lemma_exprs_view_push(es: Seq<Expression>, e: Expression)
    ensures
        exprs_view(es.push(e)) == exprs_view(es) + seq![expr_view(e)],
    decreases es,
{
    if es.len() == 0 {
        reveal_with_fuel(exprs_view, 3);
        assert(es.push(e).drop_first() =~= Seq::<Expression>::empty());
        assert_seqs_equal!(exprs_view(es.push(e)) == exprs_view(es) + seq![expr_view(e)]);
    } else {
        assert(es.push(e).len() == es.len() + 1);
        assert(exprs_view(es.push(e)) == seq![expr_view(es.push(e)[0])] + exprs_view(
            es.push(e).drop_first(),
        ));
        assert(es.push(e)[0] == es[0]);
        assert(es.push(e).drop_first() =~= es.drop_first().push(e));
        lemma_exprs_view_push(es.drop_first(), e);
        assert_seqs_equal!(exprs_view(es.push(e)) == exprs_view(es) + seq![expr_view(e)]);
    }
}

/// Clones a vector of strings, preserving its view.
pub fn clone_strings(v: &Vec<String>) -> (r: Vec<String>)
    ensures
        strings_view(r@) == strings_view(v@),
        r@.len() == v@.len(),
{
    let mut out: Vec<String> = Vec::new();
    let mut i: usize = 0;
    while i < v.len()
        invariant
            i <= v.len(),
            out@.len() == i as int,
            forall|j: int| 0 <= j < i ==> out@[j]@ == v@[j]@,
        decreases v.len() - i,
    {
        let c = v[i].clone();
        out.push(c);
        i = i + 1;
    }
    proof {
        lemma_strings_view(out@);
        lemma_strings_view(v@);
        assert_seqs_equal!(strings_view(out@) == strings_view(v@));
    }
    out
}

impl Clone for Statement {
    /// Cloning preserves the statement's view.
    fn clone(&self) -> (r: Self)
        ensures
            r@ == self@,
        decreases self,
    {
        match self {
            Statement::LetStatement { ident, value } => Statement::LetStatement {
                ident: ident.clone(),
                value: value.clone(),
            },
            Statement::ReturnStatement(e) => Statement::ReturnStatement(e.clone()),
            Statement::ExpressionStatement(e) => Statement::ExpressionStatement(e.clone()),
            Statement::BlockStatement(ss) => {
                let mut out: Vec<Statement> = Vec::new();
                let mut i: usize = 0;
                while i < ss.len()
                    invariant
                        i <= ss.len(),
                        out@.len() == i as int,
                        forall|j: int| 0 <= j < i ==> stmt_view(out@[j]) == stmt_view(ss@[j]),
                        *self == Statement::BlockStatement(*ss),
                    decreases ss.len() - i,
                {
                    proof {
                        assert(decreases_to!(*self => self->BlockStatement_0));
                        assert(decreases_to!(self->BlockStatement_0 => ss@[i as int]));
                        assert(decreases_to!(*self => ss@[i as int]));
                    }
                    let c = ss[i].clone();
                    out.push(c);
                    i = i + 1;
                }
                proof {
                    lemma_stmts_view(out@);
                    lemma_stmts_view(ss@);
                    assert_seqs_equal!(stmts_view(out@) == stmts_view(ss@));
                }
                Statement::BlockStatement(out)
            },
        }
    }
}

impl Clone for Expression {
    /// Cloning preserves the expression's view.
    fn clone(&self) -> (r: Self)
        ensures
            r@ == self@,
        decreases self,
    {
        match self {
            Expression::IntExpression(i) => Expression::IntExpression(*i),
            Expression::IdentifierExpression(name) => Expression::IdentifierExpression(
                name.clone(),
            ),
            Expression::StringExpression(s) => Expression::StringExpression(s.clone()),
            Expression::PrefixExpression { op_token, right } => Expression::PrefixExpression {
                op_token: op_token.clone(),
                right: Box::new((**right).clone()),
            },
            Expression::InfixExpression { left, op_token, right } => Expression::InfixExpression {
                left: Box::new((**left).clone()),
                op_token: op_token.clone(),
                right: Box::new((**right).clone()),
            },
            Expression::BooleanExpression(b) => Expression::BooleanExpression(*b),
            Expression::IfExpression { condition, consequence, alternative } => {
                let alt = match alternative {
                    Some(a) => Some(Box::new((**a).clone())),
                    None => None,
                };
                Expression::IfExpression {
                    condition: Box::new((**condition).clone()),
                    consequence: Box::new((**consequence).clone()),
                    alternative: alt,
                }
            },
            Expression::FunctionExpression { parameters, body } => Expression::FunctionExpression {
                parameters: clone_strings(parameters),
                body: Box::new((**body).clone()),
            },
            Expression::CallExpression { function, arguments } => {
                let mut out: Vec<Expression> = Vec::new();
                let mut i: usize = 0;
                while i < arguments.len()
                    invariant
                        i <= arguments.len(),
                        out@.len() == i as int,
                        forall|j: int| 0 <= j < i ==> expr_view(out@[j]) == expr_view(
                            arguments@[j],
                        ),
                        *self == (Expression::CallExpression {
                            function: *function,
                            arguments: *arguments,
                        }),
                    decreases arguments.len() - i,
                {
                    proof {
                        assert(decreases_to!(*self => self->CallExpression_arguments));
                        assert(decreases_to!(self->CallExpression_arguments => arguments@[i as int]));
                        assert(decreases_to!(*self => arguments@[i as int]));
                    }
                    let c = arguments[i].clone();
                    out.push(c);
                    i = i + 1;
                }
                proof {
                    lemma_exprs_view(out@);
                    lemma_exprs_view(arguments@);
                    assert_seqs_equal!(exprs_view(out@) == exprs_view(arguments@));
                }
                Expression::CallExpression {
                    function: Box::new((**function).clone()),
                    arguments: out,
                }
            },
        }
    }
}

/// Comma-and-space separated concatenation, as in a parameter list.
pub open spec fn join_comma(items: Seq<Seq<char>>) -> Seq<char>
    decreases items,
{
    if items.len() == 0 {
        Seq::empty()
    } else if items.len() == 1 {
        items[0]
    } else {
        items[0] + ", "@ + join_comma(items.drop_first())
    }
}

/// The textual rendering of a statement.
pub open spec fn render_stmt(s: StmtV) -> Seq<char>
    decreases s,
{
    match s {
        StmtV::LetStatement { ident, value } => "let "@ + token_text(ident) + " = "@
            + render_expr(value) + ";"@,
        StmtV::ReturnStatement(e) => "return "@ + render_expr(e) + ";"@,
        StmtV::ExpressionStatement(e) => render_expr(e),
        StmtV::BlockStatement(ss) => render_stmts(ss),
    }
}

/// The concatenation of the renderings of a sequence of statements.
pub open spec fn render_stmts(ss: Seq<StmtV>) -> Seq<char>
    decreases ss,
{
    if ss.len() == 0 {
        Seq::empty()
    } else {
        render_stmt(ss[0]) + render_stmts(ss.drop_first())
    }
}

/// The textual rendering of an expression; binary and unary operator
/// applications are fully parenthesized.
pub open spec fn render_expr(e: ExprV) -> Seq<char>
    decreases e,
{
    match e {
        ExprV::IntExpression(i) => dec_rep_signed(i),
        ExprV::IdentifierExpression(name) => name,
        ExprV::StringExpression(s) => "\""@ + s + "\""@,
        ExprV::PrefixExpression { op, right } => "("@ + token_text(op) + render_expr(*right)
            + ")"@,
        ExprV::InfixExpression { left, op, right } => "("@ + render_expr(*left) + " "@
            + token_text(op) + " "@ + render_expr(*right) + ")"@,
        ExprV::BooleanExpression(b) => if b {
            "true"@
        } else {
            "false"@
        },
        ExprV::IfExpression { condition, consequence, alternative } => "if "@ + render_expr(
            *condition,
        ) + " {"@ + render_stmt(*consequence) + "}"@ + match alternative {
            Some(alt) => " else {"@ + render_stmt(*alt) + "}"@,
            None => Seq::empty(),
        },
        ExprV::FunctionExpression { parameters, body } => "fn ("@ + join_comma(parameters)
            + ") {"@ + render_stmt(*body) + "}"@,
        ExprV::CallExpression { function, arguments } => render_expr(*function) + "("@
            + render_exprs_comma(arguments) + ")"@,
    }
}

/// Comma-and-space separated renderings of an argument list.
pub open spec fn render_exprs_comma(es: Seq<ExprV>) -> Seq<char>
    decreases es,
{
    if es.len() == 0 {
        Seq::empty()
    } else if es.len() == 1 {
        render_expr(es[0])
    } else {
        render_expr(es[0]) + ", "@ + render_exprs_comma(es.drop_first())
    }
}

impl Statement {
    /// Renders the statement as program text.
    pub fn render(&self) -> (r: String)
        ensures
            r@ == render_stmt(self@),
        decreases self,
    {
        match self {
            Statement::LetStatement { ident, value } => {
                proof {
                    reveal_strlit("let ");
                    reveal_strlit(" = ");
                    reveal_strlit(";");
                }
                let mut out = String::from_str("let ");
                let ident_text = ident.render();
                out.append(ident_text.as_str());
                out.append(" = ");
                let value_text = value.render();
                out.append(value_text.as_str());
                out.append(";");
                proof {
                    assert_seqs_equal!(out@ == render_stmt(self@));
                }
                out
            },
            Statement::ReturnStatement(e) => {
                proof {
                    reveal_strlit("return ");
                    reveal_strlit(";");
                }
                let mut out = String::from_str("return ");
                let e_text = e.render();
                out.append(e_text.as_str());
                out.append(";");
                proof {
                    assert_seqs_equal!(out@ == render_stmt(self@));
                }
                out
            },
            Statement::ExpressionStatement(e) => e.render(),
            Statement::BlockStatement(ss) => {
                let mut out = String::new();
                let mut i: usize = 0;
                proof {
                    lemma_stmts_view(ss@);
                    assert(stmts_view(ss@).skip(0) =~= stmts_view(ss@));
                    assert_seqs_equal!(
                        out@ + render_stmts(stmts_view(ss@)) == render_stmts(stmts_view(ss@))
                    );
                }
                while i < ss.len()
                    invariant
                        i <= ss.len(),
                        stmts_view(ss@).len() == ss@.len(),
                        forall|j: int| 0 <= j < ss@.len() ==> stmts_view(ss@)[j] == stmt_view(
                            ss@[j],
                        ),
                        render_stmts(stmts_view(ss@)) == out@ + render_stmts(
                            stmts_view(ss@).skip(i as int),
                        ),
                        *self == Statement::BlockStatement(*ss),
                    decreases ss.len() - i,
                {
                    proof {
                        assert(stmts_view(ss@).skip(i as int).len() > 0);
                        assert(stmts_view(ss@).skip(i as int)[0] == stmt_view(ss@[i as int]));
                        assert(stmts_view(ss@).skip(i as int).drop_first() =~= stmts_view(
                            ss@,
                        ).skip(i as int + 1));
                    }
                    proof {
                        assert(decreases_to!(*self => self->BlockStatement_0));
                        assert(decreases_to!(self->BlockStatement_0 => ss@[i as int]));
                        assert(decreases_to!(*self => ss@[i as int]));
                    }
                    let s_text = ss[i].render();
                    out.append(s_text.as_str());
                    i = i + 1;
                    proof {
                        assert_seqs_equal!(
                            render_stmts(stmts_view(ss@)) == out@ + render_stmts(
                                stmts_view(ss@).skip(i as int))
                        );
                    }
                }
                proof {
                    assert(stmts_view(ss@).skip(ss@.len() as int) =~= Seq::<StmtV>::empty());
                    assert_seqs_equal!(out@ == render_stmt(self@));
                }
                out
            },
        }
    }
}

impl Expression {
    /// Renders the expression as program text.
    pub fn render(&self) -> (r: String)
        ensures
            r@ == render_expr(self@),
        decreases self,
    {
        match self {
            Expression::IntExpression(i) => crate::text::render_i64(*i),
            Expression::IdentifierExpression(name) => name.clone(),
            Expression::StringExpression(s) => {
                proof {
                    reveal_strlit("\"");
                }
                let mut out = String::from_str("\"");
                out.append(s.as_str());
                out.append("\"");
                proof {
                    assert_seqs_equal!(out@ == render_expr(self@));
                }
                out
            },
            Expression::PrefixExpression { op_token, right } => {
                proof {
                    reveal_strlit("(");
                    reveal_strlit(")");
                }
                let mut out = String::from_str("(");
                let op_text = op_token.render();
                out.append(op_text.as_str());
                let right_text = right.render();
                out.append(right_text.as_str());
                out.append(")");
                proof {
                    assert_seqs_equal!(out@ == render_expr(self@));
                }
                out
            },
            Expression::InfixExpression { left, op_token, right } => {
                proof {
                    reveal_strlit("(");
                    reveal_strlit(" ");
                    reveal_strlit(")");
                }
                let mut out = String::from_str("(");
                let left_text = left.render();
                out.append(left_text.as_str());
                out.append(" ");
                let op_text = op_token.render();
                out.append(op_text.as_str());
                out.append(" ");
                let right_text = right.render();
                out.append(right_text.as_str());
                out.append(")");
                proof {
                    assert_seqs_equal!(out@ == render_expr(self@));
                }
                out
            },
            Expression::BooleanExpression(b) => {
                if *b {
                    String::from_str("true")
                } else {
                    String::from_str("false")
                }
            },
            Expression::IfExpression { condition, consequence, alternative } => {
                proof {
                    reveal_strlit("if ");
                    reveal_strlit(" {");
                    reveal_strlit("}");
                    reveal_strlit(" else {");
                }
                let mut out = String::from_str("if ");
                let cond_text = condition.render();
                out.append(cond_text.as_str());
                out.append(" {");
                let cons_text = consequence.render();
                out.append(cons_text.as_str());
                out.append("}");
                match alternative {
                    Some(alt) => {
                        out.append(" else {");
                        let alt_text = alt.render();
                        out.append(alt_text.as_str());
                        out.append("}");
                    },
                    None => {},
                }
                proof {
                    assert_seqs_equal!(out@ == render_expr(self@));
                }
                out
            },
            Expression::FunctionExpression { parameters, body } => {
                proof {
                    reveal_strlit("fn (");
                    reveal_strlit(") {");
                    reveal_strlit("}");
                    reveal_strlit(", ");
                }
                let mut out = String::from_str("fn (");
                let mut i: usize = 0;
                while i < parameters.len()
                    invariant
                        i <= parameters.len(),
                        ", "@.len() == 2,
                        out@ == "fn ("@ + join_front(strings_view(parameters@), i as int),
                    decreases parameters.len() - i,
                {
                    if i > 0 {
                        out.append(", ");
                    }
                    out.append(parameters[i].as_str());
                    i = i + 1;
                    proof {
                        lemma_strings_view(parameters@);
                        lemma_join_front_step(strings_view(parameters@), i - 1);
                        assert_seqs_equal!(
                            out@ == "fn ("@ + join_front(strings_view(parameters@), i as int)
                        );
                    }
                }
                proof {
                    lemma_strings_view(parameters@);
                    lemma_join_front_full(strings_view(parameters@));
                    assert(join_front(strings_view(parameters@), parameters@.len() as int)
                        == join_comma(strings_view(parameters@)));
                }
                out.append(") {");
                let body_text = body.render();
                out.append(body_text.as_str());
                out.append("}");
                proof {
                    assert_seqs_equal!(out@ == render_expr(self@));
                }
                out
            },
            Expression::CallExpression { function, arguments } => {
                proof {
                    reveal_strlit("(");
                    reveal_strlit(")");
                    reveal_strlit(", ");
                    lemma_exprs_view(arguments@);
                }
                let mut out = function.render();
                let ghost fn_text = out@;
                out.append("(");
                let ghost argvs = exprs_view(arguments@);
                let ghost prefix = out@;
                let mut i: usize = 0;
                while i < arguments.len()
                    invariant
                        i <= arguments.len(),
                        ", "@.len() == 2,
                        argvs == exprs_view(arguments@),
                        argvs.len() == arguments@.len(),
                        forall|j: int| 0 <= j < arguments@.len() ==> argvs[j] == expr_view(
                            arguments@[j],
                        ),
                        out@ == prefix + render_front(argvs, i as int),
                        *self == (Expression::CallExpression {
                            function: *function,
                            arguments: *arguments,
                        }),
                    decreases arguments.len() - i,
                {
                    if i > 0 {
                        out.append(", ");
                    }
                    proof {
                        assert(decreases_to!(*self => self->CallExpression_arguments));
                        assert(decreases_to!(self->CallExpression_arguments => arguments@[i as int]));
                        assert(decreases_to!(*self => arguments@[i as int]));
                    }
                    let arg_text = arguments[i].render();
                    out.append(arg_text.as_str());
                    i = i + 1;
                    proof {
                        lemma_render_front_step(argvs, i - 1);
                        assert_seqs_equal!(out@ == prefix + render_front(argvs, i as int));
                    }
                }
                proof {
                    lemma_render_front_full(argvs);
                }
                out.append(")");
                proof {
                    assert(fn_text == render_expr(expr_view(**function)));
                    assert(prefix == fn_text + "("@);
                    assert(self@ == (ExprV::CallExpression {
                        function: Box::new(expr_view(**function)),
                        arguments: argvs,
                    }));
                    assert(render_expr(self@) == render_expr(expr_view(**function)) + "("@
                        + render_exprs_comma(argvs) + ")"@);
                    assert_seqs_equal!(out@ == render_expr(self@));
                }
                out
            },
        }
    }
}

/// The comma-joined text of the first `i` items.
pub open spec fn join_front(items: Seq<Seq<char>>, i: int) -> Seq<char>
    decreases i,
{
    if i <= 0 {
        Seq::empty()
    } else if i == 1 {
        items[0]
    } else {
        join_front(items, i - 1) + ", "@ + items[i - 1]
    }
}

/// The comma-joined renderings of the first `i` expressions.
pub open spec fn render_front(es: Seq<ExprV>, i: int) -> Seq<char>
    decreases i,
{
    if i <= 0 {
        Seq::empty()
    } else if i == 1 {
        render_expr(es[0])
    } else {
        render_front(es, i - 1) + ", "@ + render_expr(es[i - 1])
    }
}

pub proof fn lemma_join_front_step(items: Seq<Seq<char>>, i: int)
    requires
        0 <= i < items.len(),
    ensures
        i == 0 ==> join_front(items, i + 1) == join_front(items, i) + items[i],
        i > 0 ==> join_front(items, i + 1) == join_front(items, i) + ", "@ + items[i],
{
    if i == 0 {
        assert(join_front(items, 1) == items[0]);
        assert_seqs_equal!(join_front(items, 0) + items[0] == items[0]);
    }
}

pub proof fn lemma_join_front_full(items: Seq<Seq<char>>)
    ensures
        join_front(items, items.len() as int) == join_comma(items),
    decreases items.len(),
{
    if items.len() > 1 {
        lemma_join_front_full(items.drop_first());
        lemma_join_shift(items, items.len() as int);
    }
}

proof fn lemma_join_shift(items: Seq<Seq<char>>, i: int)
    requires
        items.len() >= 2,
        2 <= i <= items.len(),
    ensures
        join_front(items, i) == items[0] + ", "@ + join_front(items.drop_first(), i - 1),
    decreases i,
{
    if i == 2 {
        assert(join_front(items, 2) == join_front(items, 1) + ", "@ + items[1]);
        assert(join_front(items, 1) == items[0]);
        assert(join_front(items.drop_first(), 1) == items.drop_first()[0]);
        assert(items.drop_first()[0] == items[1]);
        assert_seqs_equal!(
            (items[0] + ", "@) + items[1] == items[0] + ", "@ + join_front(items.drop_first(), 1)
        );
    } else {
        lemma_join_shift(items, i - 1);
        assert(items.drop_first()[i - 2] == items[i - 1]);
        assert_seqs_equal!(
            (items[0] + ", "@ + join_front(items.drop_first(), i - 2)) + ", "@
                + items[i - 1]
            == items[0] + ", "@ + (join_front(items.drop_first(), i - 2) + ", "@
                + items[i - 1])
        );
    }
}

proof fn lemma_render_front_step(es: Seq<ExprV>, i: int)
    requires
        0 <= i < es.len(),
    ensures
        i == 0 ==> render_front(es, i + 1) == render_front(es, i) + render_expr(es[i]),
        i > 0 ==> render_front(es, i + 1) == render_front(es, i) + ", "@ + render_expr(es[i]),
{
    if i == 0 {
        assert_seqs_equal!(render_front(es, 0) + render_expr(es[0]) == render_expr(es[0]));
    }
}

proof fn lemma_render_front_full(es: Seq<ExprV>)
    ensures
        render_front(es, es.len() as int) == render_exprs_comma(es),
    decreases es.len(),
{
    if es.len() > 1 {
        lemma_render_front_full(es.drop_first());
        lemma_render_shift(es, es.len() as int);
    }
}

proof fn lemma_render_shift(es: Seq<ExprV>, i: int)
    requires
        es.len() >= 2,
        2 <= i <= es.len(),
    ensures
        render_front(es, i) == render_expr(es[0]) + ", "@ + render_front(es.drop_first(), i - 1),
    decreases i,
{
    if i == 2 {
        assert(render_front(es, 2) == render_front(es, 1) + ", "@ + render_expr(es[1]));
        assert(render_front(es, 1) == render_expr(es[0]));
        assert(render_front(es.drop_first(), 1) == render_expr(es.drop_first()[0]));
        assert(es.drop_first()[0] == es[1]);
        assert_seqs_equal!(
            (render_expr(es[0]) + ", "@) + render_expr(es[1])
            == render_expr(es[0]) + ", "@ + render_front(es.drop_first(), 1)
        );
    } else {
        lemma_render_shift(es, i - 1);
        assert(es.drop_first()[i - 2] == es[i - 1]);
        assert_seqs_equal!(
            (render_expr(es[0]) + ", "@ + render_front(es.drop_first(), i - 2)) + ", "@
                + render_expr(es[i - 1])
            == render_expr(es[0]) + ", "@ + (render_front(es.drop_first(), i - 2) + ", "@
                + render_expr(es[i - 1]))
        );
    }
}

} // verus!
