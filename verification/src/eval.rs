//! The evaluator: walks the syntax tree against an environment chain,
//! producing a value or a descriptive error.
//!
//! The specification side defines evaluation as a recursive function over
//! views, indexed by a depth budget: each function application consumes
//! one unit, so evaluation is total, and a program that recurses past the
//! budget fails with a depth error rather than exhausting the stack. The
//! built-in functions touch the outside world only through the injected
//! input lines and output text carried in the evaluation state.

use crate::ast::{exprs_view, stmts_view, strings_view, Ast, ExprV, Expression, Statement, StmtV};
use crate::env::{env_lookup, val_wf, Environment, ScopeV};
use crate::lexer::{digits_value, is_digit_char, is_ws_char, skip_ws};
use crate::program::Program;
use crate::text::{dec_rep_signed, render_i64};
use crate::token::{token_text, Token, TokenV};
use crate::value::{
    render_value, spec_get_function, truthy, val_view, BuiltInKind, Truth, Value, ValueV,
};
use vstd::assert_seqs_equal;
use vstd::prelude::*;

verus! {

/// How deep function application may nest before evaluation fails with a
/// depth error.
pub const EVAL_DEPTH_LIMIT: u64 = 4096;

/// The full evaluation state: the scope arena, the injected input lines
/// not yet read, and the output text written so far.
#[verifier::ext_equal]
pub struct StateV {
    pub scopes: Seq<ScopeV>,
    pub input: Seq<Seq<char>>,
    pub output: Seq<char>,
}

/// Why an evaluation failed.
pub enum ErrV {
    IdentNotFound(Seq<char>),
    InvalidPrefix(TokenV, ValueV),
    PrefixOverflow(int),
    InvalidInfix(ValueV, TokenV, ValueV),
    InvalidIntegerOp(int, TokenV, int),
    DivisionByZero(int, TokenV, int),
    IntegerOverflow(int, TokenV, int),
    NotAFunction(ValueV),
    ArityMismatch(int, int),
    LenArity(int),
    LenType(ValueV),
    LenOverflow,
    InputArity(int),
    InputType(ValueV),
    InputExhausted,
    DepthLimit,
}

/// What one evaluation step yields: a value, or the first failure.
pub enum OutV {
    Val(ValueV),
    Fail(ErrV),
}

/// The length of a text in bytes of its UTF-8 encoding, as the machine
/// measures it.
pub open spec fn byte_len(s: Seq<char>) -> int {
    (vstd::utf8::encode_utf8(s).len() as usize) as int
}

/// The message each failure carries.
pub open spec fn err_msg(e: ErrV) -> Seq<char> {
    match e {
        ErrV::IdentNotFound(n) => msg_ident_not_found(n),
        ErrV::InvalidPrefix(op, v) => "Invalid prefix expression!\n\t("@ + token_text(op)
            + render_value(v) + ")"@,
        ErrV::PrefixOverflow(i) => "integer overflow!\n\t(-"@ + dec_rep_signed(i) + ")"@,
        ErrV::InvalidInfix(l, op, r) => "Invalid infix expression!\n\t("@ + render_value(l) + " "@
            + token_text(op) + " "@ + render_value(r) + ")"@,
        ErrV::InvalidIntegerOp(l, op, r) => "Invalid integer infix operator!\n\t("@
            + dec_rep_signed(l) + " "@ + token_text(op) + " "@ + dec_rep_signed(r) + ")"@,
        ErrV::DivisionByZero(l, op, r) => "cannot divide by zero!\n\t("@ + dec_rep_signed(l)
            + " "@ + token_text(op) + " "@ + dec_rep_signed(r) + ")"@,
        ErrV::IntegerOverflow(l, op, r) => "integer overflow!\n\t("@ + dec_rep_signed(l) + " "@
            + token_text(op) + " "@ + dec_rep_signed(r) + ")"@,
        ErrV::NotAFunction(v) => "apply_function had an error. func is not of type Value::Function. got "@
            + render_value(v),
        ErrV::ArityMismatch(want, got) => "function takes "@ + dec_rep_signed(want)
            + " arguments, "@ + dec_rep_signed(got) + " arguments given"@,
        ErrV::LenArity(got) => "len() takes 1 argument, "@ + dec_rep_signed(got)
            + " arguments given"@,
        ErrV::LenType(v) => "Cannot take length of "@ + render_value(v),
        ErrV::LenOverflow => "length does not fit in an integer"@,
        ErrV::InputArity(got) => "input() takes 1 argument, "@ + dec_rep_signed(got)
            + " arguments given"@,
        ErrV::InputType(v) => "Cannot take input of "@ + render_value(v),
        ErrV::InputExhausted => "input exhausted"@,
        ErrV::DepthLimit => "evaluation depth limit exceeded"@,
    }
}

/// The identifier-not-found message.
pub open spec fn msg_ident_not_found(n: Seq<char>) -> Seq<char> {
    "identifier not found: "@ + n
}

/// Builds the identifier-not-found message.
pub fn build_ident_not_found(name: &String) -> (r: String)
    ensures
        r@ == msg_ident_not_found(name@),
{
    proof {
        reveal_strlit("identifier not found: ");
    }
    let mut m = String::from_str("identifier not found: ");
    m.append(name.as_str());
    m
}

/// Truncating division, as machine integers divide: the magnitudes divide
/// and the signs combine.
pub open spec fn tdiv(l: int, r: int) -> int {
    let q = abs_of(l) / abs_of(r);
    if (l < 0) != (r < 0) {
        -q
    } else {
        q
    }
}

/// Truncating remainder: the magnitude remainder with the sign of the
/// dividend.
pub open spec fn tmod(l: int, r: int) -> int {
    let m = abs_of(l) % abs_of(r);
    if l < 0 {
        -m
    } else {
        m
    }
}

pub open spec fn abs_of(i: int) -> int {
    if i < 0 {
        -i
    } else {
        i
    }
}

pub open spec fn in_i64(i: int) -> bool {
    i64::MIN <= i <= i64::MAX
}

/// Arithmetic and comparison on two integers. `+ - * / %` produce an
/// integer, `< > == !=` a boolean; division or remainder by zero and any
/// result outside the machine range fail.
pub open spec fn eval_int_op(l: int, op: TokenV, r: int) -> OutV {
    match op {
        TokenV::Plus => if in_i64(l + r) {
            OutV::Val(ValueV::Integer(l + r))
        } else {
            OutV::Fail(ErrV::IntegerOverflow(l, op, r))
        },
        TokenV::Minus => if in_i64(l - r) {
            OutV::Val(ValueV::Integer(l - r))
        } else {
            OutV::Fail(ErrV::IntegerOverflow(l, op, r))
        },
        TokenV::Asterisk => if in_i64(l * r) {
            OutV::Val(ValueV::Integer(l * r))
        } else {
            OutV::Fail(ErrV::IntegerOverflow(l, op, r))
        },
        TokenV::Slash => if r == 0 {
            OutV::Fail(ErrV::DivisionByZero(l, op, r))
        } else if in_i64(tdiv(l, r)) {
            OutV::Val(ValueV::Integer(tdiv(l, r)))
        } else {
            OutV::Fail(ErrV::IntegerOverflow(l, op, r))
        },
        TokenV::Percent => if r == 0 {
            OutV::Fail(ErrV::DivisionByZero(l, op, r))
        } else if l == i64::MIN && r == -1 {
            OutV::Fail(ErrV::IntegerOverflow(l, op, r))
        } else {
            OutV::Val(ValueV::Integer(tmod(l, r)))
        },
        TokenV::LessThan => OutV::Val(ValueV::Boolean(l < r)),
        TokenV::GreaterThan => OutV::Val(ValueV::Boolean(l > r)),
        TokenV::Equal => OutV::Val(ValueV::Boolean(l == r)),
        TokenV::NotEqual => OutV::Val(ValueV::Boolean(l != r)),
        _ => OutV::Fail(ErrV::InvalidIntegerOp(l, op, r)),
    }
}

/// A unary operator applied to a value: `!` negates truthiness of any
/// value, `-` negates an integer; anything else fails.
pub open spec fn eval_prefix_op(op: TokenV, v: ValueV) -> OutV {
    match op {
        TokenV::Bang => OutV::Val(ValueV::Boolean(!truthy(v))),
        TokenV::Minus => match v {
            ValueV::Integer(i) => if in_i64(-i) {
                OutV::Val(ValueV::Integer(-i))
            } else {
                OutV::Fail(ErrV::PrefixOverflow(i))
            },
            _ => OutV::Fail(ErrV::InvalidPrefix(op, v)),
        },
        _ => OutV::Fail(ErrV::InvalidPrefix(op, v)),
    }
}

/// A binary operator applied to two values: integers dispatch to integer
/// arithmetic, booleans support `==` and `!=`, anything else fails.
pub open spec fn eval_infix_op(l: ValueV, op: TokenV, r: ValueV) -> OutV {
    match (l, op, r) {
        (ValueV::Integer(a), _, ValueV::Integer(b)) => eval_int_op(a, op, b),
        (ValueV::Boolean(a), TokenV::Equal, ValueV::Boolean(b)) => OutV::Val(
            ValueV::Boolean(a == b),
        ),
        (ValueV::Boolean(a), TokenV::NotEqual, ValueV::Boolean(b)) => OutV::Val(
            ValueV::Boolean(a != b),
        ),
        _ => OutV::Fail(ErrV::InvalidInfix(l, op, r)),
    }
}

/// Identifier resolution: the scope chain first, the built-in registry as
/// a fallback, then failure.
pub open spec fn lookup_or_builtin(scopes: Seq<ScopeV>, cur: int, n: Seq<char>) -> OutV {
    match env_lookup(scopes, cur, n) {
        Some(v) => OutV::Val(v),
        None => match spec_get_function(n) {
            Some(k) => OutV::Val(ValueV::BuiltInFunction(k)),
            None => OutV::Fail(ErrV::IdentNotFound(n)),
        },
    }
}

/// Parameter binding, positional; a repeated name keeps its last argument.
pub open spec fn bind_params(params: Seq<Seq<char>>, args: Seq<ValueV>) -> Map<Seq<char>, ValueV>
    decreases params,
{
    if params.len() == 0 || args.len() == 0 {
        Map::empty()
    } else {
        bind_params(params.drop_last(), args.drop_last()).insert(params.last(), args.last())
    }
}

/// The views of a sequence of values.
pub open spec fn vals_view(vs: Seq<Value>) -> Seq<ValueV>
    decreases vs,
{
    if vs.len() == 0 {
        Seq::empty()
    } else {
        seq![val_view(vs[0])] + vals_view(vs.drop_first())
    }
}

pub proof fn lemma_vals_view(vs: Seq<Value>)
    ensures
        vals_view(vs).len() == vs.len(),
        forall|i: int| 0 <= i < vs.len() ==> vals_view(vs)[i] == val_view(vs[i]),
    decreases vs,
{
    if vs.len() > 0 {
        lemma_vals_view(vs.drop_first());
    }
}

/// Appending a value appends its view.
pub proof fn lemma_vals_view_push(vs: Seq<Value>, v: Value)
    ensures
        vals_view(vs.push(v)) == vals_view(vs) + seq![val_view(v)],
    decreases vs,
{
    if vs.len() == 0 {
        reveal_with_fuel(vals_view, 3);
        assert(vs.push(v).drop_first() =~= Seq::<Value>::empty());
        assert_seqs_equal!(vals_view(vs.push(v)) == vals_view(vs) + seq![val_view(v)]);
    } else {
        assert(vs.push(v)[0] == vs[0]);
        assert(vs.push(v).drop_first() =~= vs.drop_first().push(v));
        lemma_vals_view_push(vs.drop_first(), v);
        assert_seqs_equal!(vals_view(vs.push(v)) == vals_view(vs) + seq![val_view(v)]);
    }
}

/// The space-separated line the `println` built-in writes.
pub open spec fn println_line(args: Seq<ValueV>) -> Seq<char>
    decreases args,
{
    if args.len() == 0 {
        Seq::empty()
    } else if args.len() == 1 {
        render_value(args[0])
    } else {
        render_value(args[0]) + " "@ + println_line(args.drop_first())
    }
}

/// The last position in `s` from `i` backward that has whitespace right
/// before it.
pub open spec fn trim_end_idx(s: Seq<char>, i: int) -> int
    decreases i,
{
    if i > 0 && is_ws_char(s[i - 1]) {
        trim_end_idx(s, i - 1)
    } else {
        i
    }
}

/// The text with leading and trailing ASCII whitespace removed.
pub open spec fn trim_spec(s: Seq<char>) -> Seq<char> {
    let a = skip_ws(s, 0);
    if a >= s.len() {
        Seq::empty()
    } else {
        s.subrange(a, trim_end_idx(s, s.len() as int))
    }
}

/// Whether every character is a decimal digit.
pub open spec fn all_digits(ds: Seq<char>) -> bool
    decreases ds,
{
    if ds.len() == 0 {
        true
    } else {
        is_digit_char(ds[0]) && all_digits(ds.drop_first())
    }
}

/// `all_digits` holds exactly of the pointwise-digit sequences.
pub proof fn lemma_all_digits(ds: Seq<char>)
    ensures
        all_digits(ds) <==> (forall|k: int| 0 <= k < ds.len() ==> is_digit_char(#[trigger] ds[k])),
    decreases ds,
{
    if ds.len() > 0 {
        lemma_all_digits(ds.drop_first());
        assert(forall|k: int|
            0 <= k < ds.drop_first().len() ==> ds.drop_first()[k] == ds[k + 1]);
        if is_digit_char(ds[0]) && all_digits(ds.drop_first()) {
            assert forall|k: int| 0 <= k < ds.len() implies is_digit_char(#[trigger] ds[k]) by {
                if k > 0 {
                    assert(ds[k] == ds.drop_first()[k - 1]);
                }
            }
        }
    }
}

/// The integer a piece of text denotes: an optional minus sign and at
/// least one digit, the value in machine range; anything else is no
/// integer.
pub open spec fn spec_parse_i64(s: Seq<char>) -> Option<int> {
    let (neg, ds) = if s.len() > 0 && s[0] == '-' {
        (true, s.drop_first())
    } else {
        (false, s)
    };
    if ds.len() == 0 {
        None
    } else if !all_digits(ds) {
        None
    } else {
        let v = digits_value(ds);
        if neg {
            if v <= 0x8000000000000000 {
                Some(-v)
            } else {
                None
            }
        } else {
            if v <= i64::MAX {
                Some(v)
            } else {
                None
            }
        }
    }
}

/// What the `input` built-in yields for one line: the trimmed line as an
/// integer when it reads as one, as text otherwise.
pub open spec fn input_value(line: Seq<char>) -> ValueV {
    match spec_parse_i64(trim_spec(line)) {
        Some(i) => ValueV::Integer(i),
        None => ValueV::StrValue(trim_spec(line)),
    }
}

/// A built-in applied to evaluated arguments. `len` measures a string in
/// bytes; `println` writes one line to the output; `input` writes its
/// prompt and takes the next injected input line.
pub open spec fn apply_builtin_spec(
    k: BuiltInKind,
    args: Seq<ValueV>,
    input: Seq<Seq<char>>,
    output: Seq<char>,
) -> (OutV, Seq<Seq<char>>, Seq<char>) {
    match k {
        BuiltInKind::Len => if args.len() != 1 {
            (OutV::Fail(ErrV::LenArity(args.len() as int)), input, output)
        } else {
            match args[0] {
                ValueV::StrValue(s) => {
                    let n = byte_len(s);
                    if n <= i64::MAX {
                        (OutV::Val(ValueV::Integer(n)), input, output)
                    } else {
                        (OutV::Fail(ErrV::LenOverflow), input, output)
                    }
                },
                v => (OutV::Fail(ErrV::LenType(v)), input, output),
            }
        },
        BuiltInKind::Println => (
            OutV::Val(ValueV::Null),
            input,
            output + println_line(args) + "\n"@,
        ),
        BuiltInKind::Input => if args.len() != 1 {
            (OutV::Fail(ErrV::InputArity(args.len() as int)), input, output)
        } else {
            match args[0] {
                ValueV::StrValue(prompt) => {
                    if input.len() == 0 {
                        (OutV::Fail(ErrV::InputExhausted), input, output + prompt)
                    } else {
                        (
                            OutV::Val(input_value(input[0])),
                            input.drop_first(),
                            output + prompt,
                        )
                    }
                },
                v => (OutV::Fail(ErrV::InputType(v)), input, output),
            }
        },
    }
}

/// One statement. A `let` evaluates its expression and binds the result
/// in the current scope (never an outer one); `return` wraps its value in
/// the unwind marker; a block evaluates in the same scope.
pub open spec fn eval_stmt_spec(fuel: nat, s: StmtV, cur: int, st: StateV) -> (OutV, StateV)
    decreases fuel, s, 0int,
{
    match s {
        StmtV::LetStatement { ident, value } => {
            let (r, st1) = eval_expr_spec(fuel, value, cur, st);
            match r {
                OutV::Val(v) => (
                    OutV::Val(v),
                    StateV {
                        scopes: st1.scopes.update(
                            cur,
                            ScopeV {
                                bindings: st1.scopes[cur].bindings.insert(token_text(ident), v),
                                outer: st1.scopes[cur].outer,
                            },
                        ),
                        input: st1.input,
                        output: st1.output,
                    },
                ),
                OutV::Fail(e) => (OutV::Fail(e), st1),
            }
        },
        StmtV::ReturnStatement(e) => {
            let (r, st1) = eval_expr_spec(fuel, e, cur, st);
            match r {
                OutV::Val(v) => (OutV::Val(ValueV::Return(Box::new(v))), st1),
                OutV::Fail(err) => (OutV::Fail(err), st1),
            }
        },
        StmtV::ExpressionStatement(e) => eval_expr_spec(fuel, e, cur, st),
        StmtV::BlockStatement(ss) => eval_block_spec(fuel, ss, cur, st, ValueV::Null),
    }
}

/// The statements of a block, in order, in the same scope: the first
/// failure or unwind marker stops the walk; otherwise the block's value
/// is its last statement's value, null for an empty block.
pub open spec fn eval_block_spec(
    fuel: nat,
    ss: Seq<StmtV>,
    cur: int,
    st: StateV,
    last: ValueV,
) -> (OutV, StateV)
    decreases fuel, ss, 0int,
{
    if ss.len() == 0 {
        (OutV::Val(last), st)
    } else {
        let (r, st1) = eval_stmt_spec(fuel, ss[0], cur, st);
        match r {
            OutV::Val(v) => if v is Return {
                (OutV::Val(v), st1)
            } else {
                eval_block_spec(fuel, ss.drop_first(), cur, st1, v)
            },
            OutV::Fail(e) => (OutV::Fail(e), st1),
        }
    }
}

/// One expression.
pub open spec fn eval_expr_spec(fuel: nat, e: ExprV, cur: int, st: StateV) -> (OutV, StateV)
    decreases fuel, e, 0int,
{
    match e {
        ExprV::IntExpression(i) => (OutV::Val(ValueV::Integer(i)), st),
        ExprV::BooleanExpression(b) => (OutV::Val(ValueV::Boolean(b)), st),
        ExprV::StringExpression(s) => (OutV::Val(ValueV::StrValue(s)), st),
        ExprV::IdentifierExpression(n) => (lookup_or_builtin(st.scopes, cur, n), st),
        ExprV::PrefixExpression { op, right } => {
            let (r, st1) = eval_expr_spec(fuel, *right, cur, st);
            match r {
                OutV::Val(v) => (eval_prefix_op(op, v), st1),
                OutV::Fail(err) => (OutV::Fail(err), st1),
            }
        },
        ExprV::InfixExpression { left, op, right } => {
            let (l, st1) = eval_expr_spec(fuel, *left, cur, st);
            match l {
                OutV::Val(lv) => {
                    let (r, st2) = eval_expr_spec(fuel, *right, cur, st1);
                    match r {
                        OutV::Val(rv) => (eval_infix_op(lv, op, rv), st2),
                        OutV::Fail(err) => (OutV::Fail(err), st2),
                    }
                },
                OutV::Fail(err) => (OutV::Fail(err), st1),
            }
        },
        ExprV::IfExpression { condition, consequence, alternative } => {
            let (c, st1) = eval_expr_spec(fuel, *condition, cur, st);
            match c {
                OutV::Val(cv) => if truthy(cv) {
                    eval_stmt_spec(fuel, *consequence, cur, st1)
                } else {
                    match alternative {
                        Some(alt) => eval_stmt_spec(fuel, *alt, cur, st1),
                        None => (OutV::Val(ValueV::Null), st1),
                    }
                },
                OutV::Fail(err) => (OutV::Fail(err), st1),
            }
        },
        ExprV::FunctionExpression { parameters, body } => (
            OutV::Val(ValueV::Function { params: parameters, body: *body, env: cur }),
            st,
        ),
        ExprV::CallExpression { function, arguments } => {
            let (fr, st1) = eval_expr_spec(fuel, *function, cur, st);
            match fr {
                OutV::Val(fval) => {
                    let (ar, st2) = eval_exprs_spec(fuel, arguments, cur, st1);
                    match ar {
                        ArgsV::Vals(args) => {
                            let (res, st3) = match fval {
                                ValueV::Function { params, body, env } => if fuel == 0 {
                                    (OutV::Fail(ErrV::DepthLimit), st2)
                                } else {
                                    apply_fn_spec(
                                        (fuel - 1) as nat,
                                        params,
                                        body,
                                        env,
                                        args,
                                        st2,
                                    )
                                },
                                ValueV::BuiltInFunction(k) => {
                                    let (bres, inp2, out2) = apply_builtin_spec(
                                        k,
                                        args,
                                        st2.input,
                                        st2.output,
                                    );
                                    (
                                        bres,
                                        StateV { scopes: st2.scopes, input: inp2, output: out2 },
                                    )
                                },
                                other => (OutV::Fail(ErrV::NotAFunction(other)), st2),
                            };
                            match res {
                                OutV::Val(ValueV::Return(inner)) => (OutV::Val(*inner), st3),
                                other => (other, st3),
                            }
                        },
                        ArgsV::Fail(err) => (OutV::Fail(err), st2),
                    }
                },
                OutV::Fail(err) => (OutV::Fail(err), st1),
            }
        },
    }
}

/// What evaluating an argument list yields: every value, or the first
/// failure.
pub enum ArgsV {
    Vals(Seq<ValueV>),
    Fail(ErrV),
}

/// Argument evaluation, left to right; a failure stops the walk with no
/// later argument evaluated.
pub open spec fn eval_exprs_spec(fuel: nat, es: Seq<ExprV>, cur: int, st: StateV) -> (
    ArgsV,
    StateV,
)
    decreases fuel, es, 0int,
{
    if es.len() == 0 {
        (ArgsV::Vals(Seq::empty()), st)
    } else {
        let (r, st1) = eval_expr_spec(fuel, es[0], cur, st);
        match r {
            OutV::Val(v) => {
                let (rest, st2) = eval_exprs_spec(fuel, es.drop_first(), cur, st1);
                match rest {
                    ArgsV::Vals(vs) => (ArgsV::Vals(seq![v] + vs), st2),
                    ArgsV::Fail(e) => (ArgsV::Fail(e), st2),
                }
            },
            OutV::Fail(e) => (ArgsV::Fail(e), st1),
        }
    }
}

/// Function application: a fresh scope whose outer link is the captured
/// environment, each parameter bound positionally, then the body; the
/// argument count must match the parameter count.
pub open spec fn apply_fn_spec(
    fuel: nat,
    params: Seq<Seq<char>>,
    body: StmtV,
    fenv: int,
    args: Seq<ValueV>,
    st: StateV,
) -> (OutV, StateV)
    decreases fuel, body, 1int,
{
    if params.len() != args.len() {
        (OutV::Fail(ErrV::ArityMismatch(params.len() as int, args.len() as int)), st)
    } else {
        let newscope = ScopeV { bindings: bind_params(params, args), outer: Some(fenv) };
        let st1 = StateV { scopes: st.scopes.push(newscope), input: st.input, output: st.output };
        eval_stmt_spec(fuel, body, st.scopes.len() as int, st1)
    }
}

/// A whole program: like a block, except an unwind marker reaching the
/// top is unwrapped to its value.
pub open spec fn eval_program_spec(fuel: nat, prog: Seq<StmtV>, cur: int, st: StateV) -> (
    OutV,
    StateV,
) {
    let (r, st1) = eval_block_spec(fuel, prog, cur, st, ValueV::Null);
    match r {
        OutV::Val(ValueV::Return(inner)) => (OutV::Val(*inner), st1),
        other => (other, st1),
    }
}

/// The view of an evaluation root.
pub enum AstV {
    Program(Seq<StmtV>),
    Statement(StmtV),
    Expression(ExprV),
}

impl View for Ast {
    type V = AstV;

    open spec fn view(&self) -> AstV {
        match self {
            Ast::Program(p) => AstV::Program(stmts_view(p.statments@)),
            Ast::Statement(s) => AstV::Statement(s@),
            Ast::Expression(e) => AstV::Expression((**e)@),
        }
    }
}

/// Any evaluation root: a program, one statement, or one expression.
pub open spec fn eval_ast_spec(fuel: nat, a: AstV, cur: int, st: StateV) -> (OutV, StateV) {
    match a {
        AstV::Program(p) => eval_program_spec(fuel, p, cur, st),
        AstV::Statement(s) => eval_stmt_spec(fuel, s, cur, st),
        AstV::Expression(e) => eval_expr_spec(fuel, e, cur, st),
    }
}



/// A function literal captures the scope it is evaluated in, by
/// reference: the function value holds the index of that very scope, not
/// a copy of its bindings, so bindings made in it later are visible
/// through the closure at call time.
pub proof fn lemma_closure_captures_definition_scope(
    fuel: nat,
    parameters: Seq<Seq<char>>,
    body: StmtV,
    cur: int,
    st: StateV,
)
    ensures
        eval_expr_spec(
            fuel,
            ExprV::FunctionExpression { parameters, body: Box::new(body) },
            cur,
            st,
        ) == (OutV::Val(ValueV::Function { params: parameters, body, env: cur }), st),
{
}

/// Applying a function evaluates its body in a fresh scope whose outer
/// link is the scope the function captured at its definition — not the
/// caller's scope: free identifiers resolve lexically.
pub proof fn lemma_application_chains_to_captured_scope(
    fuel: nat,
    params: Seq<Seq<char>>,
    body: StmtV,
    fenv: int,
    args: Seq<ValueV>,
    st: StateV,
)
    requires
        params.len() == args.len(),
    ensures
        apply_fn_spec(fuel, params, body, fenv, args, st) == eval_stmt_spec(
            fuel,
            body,
            st.scopes.len() as int,
            StateV {
                scopes: st.scopes.push(
                    ScopeV { bindings: bind_params(params, args), outer: Some(fenv) },
                ),
                input: st.input,
                output: st.output,
            },
        ),
{
}

/// An unwind marker produced by any statement of a block stops the block
/// at once: no later statement is evaluated, and the marker is the
/// block's result.
pub proof fn lemma_return_stops_block(
    fuel: nat,
    ss: Seq<StmtV>,
    cur: int,
    st: StateV,
    last: ValueV,
)
    requires
        ss.len() > 0,
        eval_stmt_spec(fuel, ss[0], cur, st).0 matches OutV::Val(v) && v is Return,
    ensures
        eval_block_spec(fuel, ss, cur, st, last) == (
            eval_stmt_spec(fuel, ss[0], cur, st).0,
            eval_stmt_spec(fuel, ss[0], cur, st).1,
        ),
{
}

/// The view of the whole evaluation state.
pub open spec fn sview(env: Environment, inp: Seq<String>, out: Seq<char>) -> StateV {
    StateV { scopes: env.view_scopes(), input: strings_view(inp), output: out }
}

/// The state a fresh evaluator starts from: one empty root scope, no
/// input, no output.
pub open spec fn fresh_state() -> StateV {
    StateV {
        scopes: seq![ScopeV { bindings: Map::<Seq<char>, ValueV>::empty(), outer: None }],
        input: Seq::empty(),
        output: Seq::empty(),
    }
}

/// Resolves an identifier: the scope chain, then the built-in registry.
fn eval_identifier(
    name: &String,
    cur: usize,
    env: &Environment,
) -> (r: Result<Value, String>)
    requires
        env.wf(),
        cur < env.scopes@.len(),
    ensures
        (match lookup_or_builtin(env.view_scopes(), cur as int, name@) {
            OutV::Val(v) => r is Ok && r->Ok_0@ == v && val_wf(v, env.scopes@.len() as int),
            OutV::Fail(e) => r is Err && r->Err_0@ == err_msg(e),
        }),
{
    match env.get(cur, name) {
        Ok(v) => Ok(v),
        Err(m) => match crate::value::get_function(name.as_str()) {
            Some(k) => Ok(Value::BuiltInFunction { func: k }),
            None => Err(m),
        },
    }
}

/// Applies a unary operator to an evaluated operand.
fn eval_prefix_expression(operator: &Token, right: Value) -> (r: Result<Value, String>)
    ensures
        (match eval_prefix_op(operator@, right@) {
            OutV::Val(v) => r is Ok && r->Ok_0@ == v && !(v is Function) && !(v is Return),
            OutV::Fail(e) => r is Err && r->Err_0@ == err_msg(e),
        }),
{
    match operator {
        Token::Bang => Ok(Value::Boolean(!right.truth())),
        Token::Minus => match right {
            Value::Integer(i) => {
                if i == i64::MIN {
                    proof {
                        reveal_strlit("integer overflow!\n\t(-");
                        reveal_strlit(")");
                    }
                    let mut m = String::from_str("integer overflow!\n\t(-");
                    let it = render_i64(i);
                    m.append(it.as_str());
                    m.append(")");
                    Err(m)
                } else {
                    Ok(Value::Integer(-i))
                }
            },
            other => Err(build_invalid_prefix(operator, &other)),
        },
        _ => Err(build_invalid_prefix(operator, &right)),
    }
}

/// Builds the invalid-prefix-expression message.
fn build_invalid_prefix(operator: &Token, right: &Value) -> (r: String)
    ensures
        r@ == err_msg(ErrV::InvalidPrefix(operator@, right@)),
{
    proof {
        reveal_strlit("Invalid prefix expression!\n\t(");
        reveal_strlit(")");
    }
    let mut m = String::from_str("Invalid prefix expression!\n\t(");
    let ot = operator.render();
    m.append(ot.as_str());
    let rt = right.render();
    m.append(rt.as_str());
    m.append(")");
    m
}

/// Builds a message of the shape `<head><left> <op> <right>)`, the
/// opening parenthesis being part of `head`.
fn build_pair_msg(head: &str, left: &String, operator: &Token, right: &String) -> (r: String)
    ensures
        r@ == head@ + left@ + " "@ + token_text(operator@) + " "@ + right@ + ")"@,
{
    proof {
        reveal_strlit(" ");
        reveal_strlit(")");
    }
    let mut m = String::from_str(head);
    m.append(left.as_str());
    m.append(" ");
    let ot = operator.render();
    m.append(ot.as_str());
    m.append(" ");
    m.append(right.as_str());
    m.append(")");
    m
}

/// Applies a binary operator to two evaluated operands.
fn eval_infix_expression(left: Value, operator: &Token, right: Value) -> (r: Result<Value, String>)
    ensures
        (match eval_infix_op(left@, operator@, right@) {
            OutV::Val(v) => r is Ok && r->Ok_0@ == v && !(v is Function) && !(v is Return),
            OutV::Fail(e) => r is Err && r->Err_0@ == err_msg(e),
        }),
{
    match (&left, &right) {
        (Value::Integer(l), Value::Integer(rr)) => eval_integer_infix_expression(
            *l,
            operator,
            *rr,
        ),
        (Value::Boolean(l), Value::Boolean(rr)) => match operator {
            Token::Equal => Ok(Value::Boolean(*l == *rr)),
            Token::NotEqual => Ok(Value::Boolean(*l != *rr)),
            _ => {
                let lt = left.render();
                let rt = right.render();
                Err(build_pair_msg("Invalid infix expression!\n\t(", &lt, operator, &rt))
            },
        },
        _ => {
            let lt = left.render();
            let rt = right.render();
            Err(build_pair_msg("Invalid infix expression!\n\t(", &lt, operator, &rt))
        },
    }
}


/// Integer arithmetic and comparison.
fn eval_integer_infix_expression(left: i64, operator: &Token, right: i64) -> (r: Result<
    Value,
    String,
>)
    ensures
        (match eval_int_op(left as int, operator@, right as int) {
            OutV::Val(v) => r is Ok && r->Ok_0@ == v && !(v is Function) && !(v is Return),
            OutV::Fail(e) => r is Err && r->Err_0@ == err_msg(e),
        }),
{
    let lt = render_i64(left);
    let rt = render_i64(right);
    match operator {
        Token::Plus => {
            if (right > 0 && left > i64::MAX - right) || (right < 0 && left < i64::MIN - right) {
                Err(build_pair_msg("integer overflow!\n\t(", &lt, operator, &rt))
            } else {
                Ok(Value::Integer(left + right))
            }
        },
        Token::Minus => {
            if (right < 0 && left > i64::MAX + right) || (right > 0 && left < i64::MIN + right) {
                Err(build_pair_msg("integer overflow!\n\t(", &lt, operator, &rt))
            } else {
                Ok(Value::Integer(left - right))
            }
        },
        Token::Asterisk => {
            let ghost li: int = left as int;
            let ghost ri: int = right as int;
            proof {
                assert(li * ri <= 0x40000000000000000000000000000000
                    && li * ri >= -0x40000000000000000000000000000000) by (nonlinear_arith)
                    requires
                        -0x8000000000000000 <= li <= 0x7fffffffffffffff,
                        -0x8000000000000000 <= ri <= 0x7fffffffffffffff,
                ;
            }
            let wide: i128 = (left as i128) * (right as i128);
            if wide > i64::MAX as i128 || wide < i64::MIN as i128 {
                Err(build_pair_msg("integer overflow!\n\t(", &lt, operator, &rt))
            } else {
                Ok(Value::Integer(wide as i64))
            }
        },
        Token::Slash => {
            if right == 0 {
                Err(build_pair_msg("cannot divide by zero!\n\t(", &lt, operator, &rt))
            } else if left == i64::MIN && right == -1 {
                proof {
                    assert(abs_of(left as int) == 0x8000000000000000);
                    assert(abs_of(right as int) == 1);
                    assert(abs_of(left as int) / abs_of(right as int)
                        == 0x8000000000000000) by (nonlinear_arith)
                        requires
                            abs_of(left as int) == 0x8000000000000000,
                            abs_of(right as int) == 1,
                    ;
                    assert(tdiv(left as int, right as int) == 0x8000000000000000);
                }
                Err(build_pair_msg("integer overflow!\n\t(", &lt, operator, &rt))
            } else {
                let la = magnitude(left);
                let ra = magnitude(right);
                let q = la / ra;
                let neg = (left < 0) != (right < 0);
                if neg {
                    proof {
                        assert(q <= la) by (nonlinear_arith)
                            requires ra >= 1 && q == la / ra,
                        ;
                    }
                    Ok(Value::Integer(neg_of_magnitude(q)))
                } else {
                    proof {
                        if left == i64::MIN {
                            assert(ra >= 2);
                            assert(q <= la / 2) by (nonlinear_arith)
                                requires ra >= 2 && la >= 0 && q == la / ra,
                            ;
                        } else {
                            assert(q <= la) by (nonlinear_arith)
                                requires ra >= 1 && q == la / ra,
                            ;
                        }
                    }
                    Ok(Value::Integer(q as i64))
                }
            }
        },
        Token::Percent => {
            if right == 0 {
                Err(build_pair_msg("cannot divide by zero!\n\t(", &lt, operator, &rt))
            } else if left == i64::MIN && right == -1 {
                Err(build_pair_msg("integer overflow!\n\t(", &lt, operator, &rt))
            } else {
                let la = magnitude(left);
                let ra = magnitude(right);
                let m = la % ra;
                proof {
                    assert(m < ra);
                }
                if left < 0 {
                    Ok(Value::Integer(neg_of_magnitude(m)))
                } else {
                    Ok(Value::Integer(m as i64))
                }
            }
        },
        Token::LessThan => Ok(Value::Boolean(left < right)),
        Token::GreaterThan => Ok(Value::Boolean(left > right)),
        Token::Equal => Ok(Value::Boolean(left == right)),
        Token::NotEqual => Ok(Value::Boolean(left != right)),
        _ => Err(build_pair_msg("Invalid integer infix operator!\n\t(", &lt, operator, &rt)),
    }
}

/// The magnitude of a machine integer, as an unsigned number.
fn magnitude(i: i64) -> (r: u64)
    ensures
        r as int == abs_of(i as int),
{
    if i == i64::MIN {
        9223372036854775808u64
    } else if i < 0 {
        (-i) as u64
    } else {
        i as u64
    }
}

/// The machine integer whose magnitude is `m`, negated.
fn neg_of_magnitude(m: u64) -> (r: i64)
    requires
        m <= 9223372036854775808u64,
    ensures
        r as int == -(m as int),
{
    if m == 9223372036854775808u64 {
        i64::MIN
    } else {
        -(m as i64)
    }
}

/// Builds the not-a-function message.
fn build_not_a_function(v: &Value) -> (r: String)
    ensures
        r@ == err_msg(ErrV::NotAFunction(v@)),
{
    let mut m = String::from_str(
        "apply_function had an error. func is not of type Value::Function. got ",
    );
    let vt = v.render();
    m.append(vt.as_str());
    m
}

/// One statement against the environment.
fn eval_statement(
    stmt: &Statement,
    cur: usize,
    fuel: u64,
    env: &mut Environment,
    input: &mut Vec<String>,
    output: &mut String,
) -> (r: Result<Value, String>)
    requires
        old(env).wf(),
        cur < old(env).scopes@.len(),
    ensures
        final(env).wf(),
        final(env).scopes@.len() >= old(env).scopes@.len(),
        ({
            let (res, st2) = eval_stmt_spec(
                fuel as nat,
                stmt@,
                cur as int,
                sview(*old(env), old(input)@, old(output)@),
            );
            &&& sview(*final(env), final(input)@, final(output)@) == st2
            &&& (match r {
                Ok(v) => res == OutV::Val(v@) && val_wf(v@, final(env).scopes@.len() as int),
                Err(m) => res is Fail && m@ == err_msg(res->Fail_0),
            })
        }),
    decreases fuel, stmt, 1int,
{
    match stmt {
        Statement::LetStatement { ident, value } => {
            let v = match eval_expression(value, cur, fuel, env, input, output) {
                Ok(v) => v,
                Err(m) => {
                    return Err(m);
                },
            };
            let name = ident.render();
            let bound = env.set(cur, name, v);
            Ok(bound)
        },
        Statement::ReturnStatement(e) => {
            let v = match eval_expression(e, cur, fuel, env, input, output) {
                Ok(v) => v,
                Err(m) => {
                    return Err(m);
                },
            };
            Ok(Value::Return(Box::new(v)))
        },
        Statement::ExpressionStatement(e) => eval_expression(e, cur, fuel, env, input, output),
        Statement::BlockStatement(ss) => {
            proof {
                assert(decreases_to!(*stmt => stmt->BlockStatement_0));
            }
            eval_block(ss, cur, fuel, env, input, output)
        },
    }
}

/// The statements of a block, in order, in the same scope.
fn eval_block(
    block: &Vec<Statement>,
    cur: usize,
    fuel: u64,
    env: &mut Environment,
    input: &mut Vec<String>,
    output: &mut String,
) -> (r: Result<Value, String>)
    requires
        old(env).wf(),
        cur < old(env).scopes@.len(),
    ensures
        final(env).wf(),
        final(env).scopes@.len() >= old(env).scopes@.len(),
        ({
            let (res, st2) = eval_block_spec(
                fuel as nat,
                stmts_view(block@),
                cur as int,
                sview(*old(env), old(input)@, old(output)@),
                ValueV::Null,
            );
            &&& sview(*final(env), final(input)@, final(output)@) == st2
            &&& (match r {
                Ok(v) => res == OutV::Val(v@) && val_wf(v@, final(env).scopes@.len() as int),
                Err(m) => res is Fail && m@ == err_msg(res->Fail_0),
            })
        }),
    decreases fuel, block, 0int,
{
    let ghost st0 = sview(*env, input@, output@);
    let ghost all = stmts_view(block@);
    proof {
        crate::ast::lemma_stmts_view(block@);
    }
    let mut stmt_value = Value::Null;
    let mut i: usize = 0;
    proof {
        assert(all.skip(0) =~= all);
    }
    while i < block.len()
        invariant
            i <= block.len(),
            env.wf(),
            cur < env.scopes@.len(),
            env.scopes@.len() >= old(env).scopes@.len(),
            all == stmts_view(block@),
            st0 == sview(*old(env), old(input)@, old(output)@),
            all.len() == block@.len(),
            forall|j: int| 0 <= j < block@.len() ==> all[j] == crate::ast::stmt_view(block@[j]),
            val_wf(stmt_value@, env.scopes@.len() as int),
            !(stmt_value@ is Return),
            eval_block_spec(fuel as nat, all, cur as int, st0, ValueV::Null) == eval_block_spec(
                fuel as nat,
                all.skip(i as int),
                cur as int,
                sview(*env, input@, output@),
                stmt_value@,
            ),
        decreases block.len() - i,
    {
        proof {
            assert(all.skip(i as int).len() > 0);
            assert(all.skip(i as int)[0] == crate::ast::stmt_view(block@[i as int]));
            assert(all.skip(i as int).drop_first() =~= all.skip(i as int + 1));
            assert(decreases_to!(block => block@[i as int]));
        }
        let ghost st_b = sview(*env, input@, output@);
        let ghost last_b = stmt_value@;
        let r = eval_statement(&block[i], cur, fuel, env, input, output);
        proof {
            let (sres, sst) = eval_stmt_spec(
                fuel as nat,
                all.skip(i as int)[0],
                cur as int,
                st_b,
            );
            assert(eval_block_spec(fuel as nat, all.skip(i as int), cur as int, st_b, last_b)
                == (match sres {
                OutV::Val(v) => if v is Return {
                    (OutV::Val(v), sst)
                } else {
                    eval_block_spec(fuel as nat, all.skip(i as int + 1), cur as int, sst, v)
                },
                OutV::Fail(e) => (OutV::Fail(e), sst),
            }));
        }
        match r {
            Ok(v) => {
                let is_ret = match &v {
                    Value::Return(_) => true,
                    _ => false,
                };
                if is_ret {
                    return Ok(v);
                }
                stmt_value = v;
            },
            Err(m) => {
                return Err(m);
            },
        }
        i = i + 1;
    }
    proof {
        assert(all.skip(block@.len() as int) =~= Seq::<StmtV>::empty());
    }
    Ok(stmt_value)
}

/// One expression against the environment.
#[verifier::rlimit(100)]
fn eval_expression(
    expr: &Expression,
    cur: usize,
    fuel: u64,
    env: &mut Environment,
    input: &mut Vec<String>,
    output: &mut String,
) -> (r: Result<Value, String>)
    requires
        old(env).wf(),
        cur < old(env).scopes@.len(),
    ensures
        final(env).wf(),
        final(env).scopes@.len() >= old(env).scopes@.len(),
        ({
            let (res, st2) = eval_expr_spec(
                fuel as nat,
                expr@,
                cur as int,
                sview(*old(env), old(input)@, old(output)@),
            );
            &&& sview(*final(env), final(input)@, final(output)@) == st2
            &&& (match r {
                Ok(v) => res == OutV::Val(v@) && val_wf(v@, final(env).scopes@.len() as int),
                Err(m) => res is Fail && m@ == err_msg(res->Fail_0),
            })
        }),
    decreases fuel, expr, 1int,
{
    match expr {
        Expression::IntExpression(i) => Ok(Value::Integer(*i)),
        Expression::BooleanExpression(b) => Ok(Value::Boolean(*b)),
        Expression::StringExpression(s) => Ok(Value::String(s.clone())),
        Expression::IdentifierExpression(name) => eval_identifier(name, cur, env),
        Expression::PrefixExpression { op_token, right } => {
            let rv = match eval_expression(right, cur, fuel, env, input, output) {
                Ok(v) => v,
                Err(m) => {
                    return Err(m);
                },
            };
            eval_prefix_expression(op_token, rv)
        },
        Expression::InfixExpression { left, op_token, right } => {
            let lv = match eval_expression(left, cur, fuel, env, input, output) {
                Ok(v) => v,
                Err(m) => {
                    return Err(m);
                },
            };
            let rv = match eval_expression(right, cur, fuel, env, input, output) {
                Ok(v) => v,
                Err(m) => {
                    return Err(m);
                },
            };
            eval_infix_expression(lv, op_token, rv)
        },
        Expression::IfExpression { condition, consequence, alternative } => {
            let cv = match eval_expression(condition, cur, fuel, env, input, output) {
                Ok(v) => v,
                Err(m) => {
                    return Err(m);
                },
            };
            proof {
                assert(decreases_to!(*expr => expr->IfExpression_consequence));
            }
            if cv.truth() {
                eval_statement(consequence, cur, fuel, env, input, output)
            } else {
                match alternative {
                    Some(alt) => {
                        proof {
                            assert(decreases_to!(*expr => expr->IfExpression_alternative));
                        }
                        eval_statement(alt, cur, fuel, env, input, output)
                    },
                    None => Ok(Value::Null),
                }
            }
        },
        Expression::FunctionExpression { parameters, body } => Ok(
            Value::Function {
                params: crate::ast::clone_strings(parameters),
                body: Box::new((**body).clone()),
                env: cur,
            },
        ),
        Expression::CallExpression { function, arguments } => {
            let fv = match eval_expression(function, cur, fuel, env, input, output) {
                Ok(v) => v,
                Err(m) => {
                    return Err(m);
                },
            };
            proof {
                assert(decreases_to!(*expr => expr->CallExpression_arguments));
            }
            let argv = match eval_expressions(arguments, cur, fuel, env, input, output) {
                Ok(vs) => vs,
                Err(m) => {
                    return Err(m);
                },
            };
            let result = match fv {
                Value::Function { params, body, env: fenv } => {
                    if fuel == 0 {
                        Err(String::from_str("evaluation depth limit exceeded"))
                    } else {
                        apply_function(params, body, fenv, argv, fuel - 1, env, input, output)
                    }
                },
                Value::BuiltInFunction { func } => apply_builtin(func, argv, input, output),
                other => Err(build_not_a_function(&other)),
            };
            match result {
                Ok(v) => {
                    match v {
                        Value::Return(inner) => Ok(*inner),
                        other_v => Ok(other_v),
                    }
                },
                Err(m) => Err(m),
            }
        },
    }
}


/// Applies a user function: a fresh scope over the captured environment,
/// the parameters bound positionally, then the body. The argument count
/// must equal the parameter count.
fn apply_function(
    params: Vec<String>,
    body: Box<Statement>,
    fenv: usize,
    arguments: Vec<Value>,
    fuel: u64,
    env: &mut Environment,
    input: &mut Vec<String>,
    output: &mut String,
) -> (r: Result<Value, String>)
    requires
        old(env).wf(),
        fenv < old(env).scopes@.len(),
        forall|j: int| 0 <= j < vals_view(arguments@).len() ==> val_wf(
            #[trigger] vals_view(arguments@)[j],
            old(env).scopes@.len() as int,
        ),
        vals_view(arguments@).len() == arguments@.len(),
    ensures
        final(env).wf(),
        final(env).scopes@.len() >= old(env).scopes@.len(),
        ({
            let (res, st2) = apply_fn_spec(
                fuel as nat,
                strings_view(params@),
                stmts_box_view(body),
                fenv as int,
                vals_view(arguments@),
                sview(*old(env), old(input)@, old(output)@),
            );
            &&& sview(*final(env), final(input)@, final(output)@) == st2
            &&& (match r {
                Ok(v) => res == OutV::Val(v@) && val_wf(v@, final(env).scopes@.len() as int),
                Err(m) => res is Fail && m@ == err_msg(res->Fail_0),
            })
        }),
    decreases fuel, body, 2int,
{
    proof {
        crate::ast::lemma_strings_view(params@);
        lemma_vals_view(arguments@);
    }
    if params.len() != arguments.len() {
        proof {
            reveal_strlit("function takes ");
            reveal_strlit(" arguments, ");
            reveal_strlit(" arguments given");
        }
        let mut m = String::from_str("function takes ");
        let pt = crate::text::render_u64(params.len() as u64);
        m.append(pt.as_str());
        m.append(" arguments, ");
        let at = crate::text::render_u64(arguments.len() as u64);
        m.append(at.as_str());
        m.append(" arguments given");
        proof {
            assert(dec_rep_signed(params@.len() as int) == crate::text::dec_rep(
                params@.len() as nat,
            ));
            assert(dec_rep_signed(arguments@.len() as int) == crate::text::dec_rep(
                arguments@.len() as nat,
            ));
        }
        return Err(m);
    }
    let func_env = setup_function_env(fenv, &params, arguments, env);
    proof {
        assert(sview(*env, input@, output@) =~= StateV {
            scopes: sview(*old(env), old(input)@, old(output)@).scopes.push(
                ScopeV {
                    bindings: bind_params(strings_view(params@), vals_view(arguments@)),
                    outer: Some(fenv as int),
                },
            ),
            input: sview(*old(env), old(input)@, old(output)@).input,
            output: sview(*old(env), old(input)@, old(output)@).output,
        });
        crate::env::lemma_scopes_view(old(env).scopes@);
    }
    let result = eval_statement(&body, func_env, fuel, env, input, output);
    result
}

/// A fresh scope whose outer link is the function's captured scope, with
/// each parameter bound to its argument.
fn setup_function_env(
    function_env: usize,
    params: &Vec<String>,
    arguments: Vec<Value>,
    env: &mut Environment,
) -> (idx: usize)
    requires
        old(env).wf(),
        function_env < old(env).scopes@.len(),
        params@.len() == arguments@.len(),
        forall|j: int| 0 <= j < vals_view(arguments@).len() ==> val_wf(
            #[trigger] vals_view(arguments@)[j],
            old(env).scopes@.len() as int,
        ),
        vals_view(arguments@).len() == arguments@.len(),
    ensures
        final(env).wf(),
        idx == old(env).scopes@.len(),
        final(env).scopes@.len() == old(env).scopes@.len() + 1,
        final(env).view_scopes() == old(env).view_scopes().push(
            ScopeV {
                bindings: bind_params(strings_view(params@), vals_view(arguments@)),
                outer: Some(function_env as int),
            },
        ),
{
    let idx = env.new_enclosed(function_env);
    proof {
        crate::ast::lemma_strings_view(params@);
        lemma_vals_view(arguments@);
        assert(bind_params(
            strings_view(params@).take(0),
            vals_view(arguments@).take(0),
        ) =~= Map::<Seq<char>, ValueV>::empty());
    }
    let n = params.len();
    let mut i: usize = 0;
    while i < n
        invariant
            i <= n,
            n == params@.len(),
            n == arguments@.len(),
            env.wf(),
            idx < env.scopes@.len(),
            idx == old(env).scopes@.len(),
            env.scopes@.len() == old(env).scopes@.len() + 1,
            forall|j: int| 0 <= j < vals_view(arguments@).len() ==> val_wf(
                #[trigger] vals_view(arguments@)[j],
                old(env).scopes@.len() as int,
            ),
            vals_view(arguments@).len() == arguments@.len(),
            strings_view(params@).len() == params@.len(),
            forall|j: int| 0 <= j < params@.len() ==> strings_view(params@)[j] == params@[j]@,
            forall|j: int| 0 <= j < arguments@.len() ==> vals_view(arguments@)[j] == val_view(
                arguments@[j],
            ),
            env.view_scopes() =~= old(env).view_scopes().push(
                ScopeV {
                    bindings: bind_params(
                        strings_view(params@).take(i as int),
                        vals_view(arguments@).take(i as int),
                    ),
                    outer: Some(function_env as int),
                },
            ),
        decreases n - i,
    {
        let name = params[i].clone();
        let value = arguments[i].clone();
        proof {
            assert(val_wf(vals_view(arguments@)[i as int], old(env).scopes@.len() as int));
            assert(vals_view(arguments@)[i as int] == val_view(arguments@[i as int]));
            crate::env::lemma_val_wf_grow(
                val_view(arguments@[i as int]),
                old(env).scopes@.len() as int,
                env.scopes@.len() as int,
            );
            assert(strings_view(params@).take(i as int + 1).drop_last() =~= strings_view(
                params@,
            ).take(i as int));
            assert(vals_view(arguments@).take(i as int + 1).drop_last() =~= vals_view(
                arguments@,
            ).take(i as int));
            assert(strings_view(params@).take(i as int + 1).last() == params@[i as int]@);
            assert(vals_view(arguments@).take(i as int + 1).last() == val_view(
                arguments@[i as int],
            ));
        }
        let ghost view_before = env.view_scopes();
        let ghost scope_before = ScopeV {
            bindings: bind_params(
                strings_view(params@).take(i as int),
                vals_view(arguments@).take(i as int),
            ),
            outer: Some(function_env as int),
        };
        proof {
            assert(view_before =~= old(env).view_scopes().push(scope_before));
            crate::env::lemma_scopes_view(old(env).scopes@);
            assert(old(env).view_scopes().len() == old(env).scopes@.len());
            assert(view_before[idx as int] == scope_before);
        }
        env.set(idx, name, value);
        proof {
            assert(env.view_scopes() =~= view_before.update(
                idx as int,
                ScopeV {
                    bindings: scope_before.bindings.insert(name@, value@),
                    outer: scope_before.outer,
                },
            ));
            assert(bind_params(
                strings_view(params@).take(i as int + 1),
                vals_view(arguments@).take(i as int + 1),
            ) == bind_params(
                strings_view(params@).take(i as int),
                vals_view(arguments@).take(i as int),
            ).insert(params@[i as int]@, val_view(arguments@[i as int])));
            assert(env.view_scopes() =~= old(env).view_scopes().push(
                ScopeV {
                    bindings: bind_params(
                        strings_view(params@).take(i as int + 1),
                        vals_view(arguments@).take(i as int + 1),
                    ),
                    outer: Some(function_env as int),
                },
            ));
        }
        i = i + 1;
    }
    proof {
        assert(strings_view(params@).take(n as int) =~= strings_view(params@));
        assert(vals_view(arguments@).take(n as int) =~= vals_view(arguments@));
        assert(env.view_scopes() =~= old(env).view_scopes().push(
            ScopeV {
                bindings: bind_params(strings_view(params@), vals_view(arguments@)),
                outer: Some(function_env as int),
            },
        ));
    }
    idx
}

/// The space-separated renderings of the values from `i` on.
fn println_join(args: &Vec<Value>, i: usize) -> (r: String)
    requires
        i <= args@.len(),
    ensures
        r@ == println_line(vals_view(args@).skip(i as int)),
    decreases args@.len() - i,
{
    proof {
        lemma_vals_view(args@);
        assert(vals_view(args@).skip(i as int).len() == args@.len() - i);
    }
    if i >= args.len() {
        proof {
            assert(vals_view(args@).skip(i as int) =~= Seq::<ValueV>::empty());
        }
        String::new()
    } else if i + 1 == args.len() {
        proof {
            assert(vals_view(args@).skip(i as int)[0] == val_view(args@[i as int]));
        }
        args[i].render()
    } else {
        proof {
            reveal_strlit(" ");
            assert(vals_view(args@).skip(i as int)[0] == val_view(args@[i as int]));
            assert(vals_view(args@).skip(i as int).drop_first() =~= vals_view(args@).skip(
                i as int + 1,
            ));
        }
        let mut out = args[i].render();
        out.append(" ");
        let rest = println_join(args, i + 1);
        out.append(rest.as_str());
        out
    }
}

/// Removes leading and trailing ASCII whitespace.
fn trim_text(line: &String) -> (r: String)
    ensures
        r@ == trim_spec(line@),
{
    let s = line.as_str();
    let n = s.unicode_len();
    let mut a: usize = 0;
    while a < n && is_ws_exec_char(s.get_char(a))
        invariant
            a <= n,
            n == s@.len(),
            skip_ws(s@, 0) == skip_ws(s@, a as int),
        decreases n - a,
    {
        a = a + 1;
    }
    proof {
        assert(skip_ws(s@, a as int) == a as int);
    }
    if a >= n {
        String::new()
    } else {
        let mut b: usize = n;
        while b > a + 1 && is_ws_exec_char(s.get_char(b - 1))
            invariant
                a < b <= n,
                n == s@.len(),
                trim_end_idx(s@, n as int) == trim_end_idx(s@, b as int),
            decreases b,
        {
            b = b - 1;
        }
        proof {
            if b == a + 1 {
                assert(!is_ws_char(s@[a as int]));
                assert(trim_end_idx(s@, b as int) == b as int);
            } else {
                assert(trim_end_idx(s@, b as int) == b as int);
            }
        }
        s.substring_char(a, b).to_owned()
    }
}

fn is_ws_exec_char(c: char) -> (r: bool)
    ensures
        r == is_ws_char(c),
{
    c == ' ' || c == '\t' || c == '\n' || c == '\r' || c == '\u{c}'
}

/// Reads a piece of text as a machine integer, if it is one.
fn parse_i64_text(t: &str) -> (r: Option<i64>)
    ensures
        (match spec_parse_i64(t@) {
            Some(i) => r is Some && r->0 as int == i,
            None => r is None,
        }),
{
    let n = t.unicode_len();
    if n == 0 {
        return None;
    }
    let neg = t.get_char(0) == '-';
    let start: usize = if neg {
        1
    } else {
        0
    };
    let ghost ds = if neg {
        t@.drop_first()
    } else {
        t@
    };
    proof {
        assert(ds.len() == n - start);
        assert(forall|k: int| 0 <= k < ds.len() ==> ds[k] == t@[k + start]);
    }
    if start >= n {
        return None;
    }
    let mut acc: u64 = 0;
    let mut overflow = false;
    let mut k = start;
    while k < n
        invariant
            start <= k <= n,
            n == t@.len(),
            start <= 1,
            n > 0,
            neg == (t@[0] == '-'),
            ds == (if neg {
                t@.drop_first()
            } else {
                t@
            }),
            ds.len() >= 1,
            ds.len() == n - start,
            forall|j: int| 0 <= j < ds.len() ==> ds[j] == t@[j + start],
            forall|j: int| 0 <= j < (k - start) as int ==> is_digit_char(ds[j]),
            !overflow ==> acc as int == digits_value(ds.take((k - start) as int)) && acc
                <= 0x8000000000000000u64,
            overflow ==> digits_value(ds.take((k - start) as int)) > 0x8000000000000000,
        decreases n - k,
    {
        let c = t.get_char(k);
        if !is_digit_exec_char(c) {
            proof {
                assert(ds[(k - start) as int] == t@[k as int]);
                assert(0 <= ((k - start) as int) && ((k - start) as int) < ds.len()
                    && !is_digit_char(ds[(k - start) as int]));
                lemma_all_digits(ds);
            }
            return None;
        }
        let d: u64 = (c as u32 as u64) - 48;
        let ghost prefix = ds.take((k - start) as int);
        let ghost extended = ds.take((k - start) as int + 1);
        proof {
            assert(extended.drop_last() =~= prefix);
            assert(extended.last() == ds[(k - start) as int]);
            assert(digits_value(extended) == digits_value(prefix) * 10 + d);
            crate::eval::lemma_digits_value_nonneg_pub(prefix);
        }
        if !overflow {
            if acc > (9223372036854775808u64 - d) / 10 {
                overflow = true;
                proof {
                    assert(acc * 10 + d > 0x8000000000000000) by (nonlinear_arith)
                        requires
                            acc > (9223372036854775808u64 - d) / 10,
                            d < 10,
                    ;
                }
            } else {
                proof {
                    assert(acc * 10 + d <= 0x8000000000000000) by (nonlinear_arith)
                        requires
                            acc <= (9223372036854775808u64 - d) / 10,
                            d < 10,
                    ;
                }
                acc = acc * 10 + d;
            }
        } else {
            proof {
                assert(digits_value(prefix) * 10 + d > 0x8000000000000000) by (nonlinear_arith)
                    requires
                        digits_value(prefix) > 0x8000000000000000,
                        d >= 0,
                ;
            }
        }
        k = k + 1;
    }
    proof {
        assert(ds.take(ds.len() as int) =~= ds);
        lemma_all_digits(ds);
    }
    if overflow {
        return None;
    }
    if neg {
        Some(neg_of_magnitude(acc))
    } else {
        if acc <= 9223372036854775807u64 {
            Some(acc as i64)
        } else {
            None
        }
    }
}

fn is_digit_exec_char(c: char) -> (r: bool)
    ensures
        r == is_digit_char(c),
{
    '0' <= c && c <= '9'
}

/// A non-negative digit-sequence value.
pub proof fn lemma_digits_value_nonneg_pub(ds: Seq<char>)
    requires
        forall|k: int| 0 <= k < ds.len() ==> is_digit_char(ds[k]),
    ensures
        digits_value(ds) >= 0,
    decreases ds.len(),
{
    if ds.len() > 0 {
        assert(forall|k: int|
            0 <= k < ds.drop_last().len() ==> is_digit_char(ds.drop_last()[k]));
        lemma_digits_value_nonneg_pub(ds.drop_last());
    }
}

/// Applies a built-in function to evaluated arguments.
fn apply_builtin(
    kind: BuiltInKind,
    args: Vec<Value>,
    input: &mut Vec<String>,
    output: &mut String,
) -> (r: Result<Value, String>)
    ensures
        ({
            let (res, inp2, out2) = apply_builtin_spec(
                kind,
                vals_view(args@),
                strings_view(old(input)@),
                old(output)@,
            );
            &&& strings_view(final(input)@) == inp2
            &&& final(output)@ == out2
            &&& (match r {
                Ok(v) => res == OutV::Val(v@) && !(v@ is Function) && !(v@ is Return),
                Err(m) => res is Fail && m@ == err_msg(res->Fail_0),
            })
        }),
{
    proof {
        lemma_vals_view(args@);
        crate::ast::lemma_strings_view(input@);
    }
    match kind {
        BuiltInKind::Len => {
            if args.len() != 1 {
                proof {
                    reveal_strlit("len() takes 1 argument, ");
                    reveal_strlit(" arguments given");
                }
                let mut m = String::from_str("len() takes 1 argument, ");
                let ct = crate::text::render_u64(args.len() as u64);
                m.append(ct.as_str());
                m.append(" arguments given");
                return Err(m);
            }
            match &args[0] {
                Value::String(s) => {
                    let sstr = s.as_str();
                    proof {
                        assert(sstr@ == s@);
                    }
                    let nbytes = sstr.len();
                    if nbytes as u64 <= 9223372036854775807u64 {
                        Ok(Value::Integer(nbytes as i64))
                    } else {
                        Err(String::from_str("length does not fit in an integer"))
                    }
                },
                other => {
                    proof {
                        reveal_strlit("Cannot take length of ");
                    }
                    let mut m = String::from_str("Cannot take length of ");
                    let vt = other.render();
                    m.append(vt.as_str());
                    Err(m)
                },
            }
        },
        BuiltInKind::Println => {
            proof {
                reveal_strlit("\n");
                assert(vals_view(args@).skip(0) =~= vals_view(args@));
            }
            let line = println_join(&args, 0);
            output.append(line.as_str());
            output.append("\n");
            Ok(Value::Null)
        },
        BuiltInKind::Input => {
            if args.len() != 1 {
                proof {
                    reveal_strlit("input() takes 1 argument, ");
                    reveal_strlit(" arguments given");
                }
                let mut m = String::from_str("input() takes 1 argument, ");
                let ct = crate::text::render_u64(args.len() as u64);
                m.append(ct.as_str());
                m.append(" arguments given");
                return Err(m);
            }
            match &args[0] {
                Value::String(prompt) => {
                    output.append(prompt.as_str());
                    if input.len() == 0 {
                        Err(String::from_str("input exhausted"))
                    } else {
                        let line = input.remove(0);
                        proof {
                            lemma_strings_view_drop_first(old(input)@);
                        }
                        let trimmed = trim_text(&line);
                        match parse_i64_text(trimmed.as_str()) {
                            Some(i) => Ok(Value::Integer(i)),
                            None => Ok(Value::String(trimmed)),
                        }
                    }
                },
                other => {
                    proof {
                        reveal_strlit("Cannot take input of ");
                    }
                    let mut m = String::from_str("Cannot take input of ");
                    let vt = other.render();
                    m.append(vt.as_str());
                    Err(m)
                },
            }
        },
    }
}

/// Dropping the first string drops the first view.
proof fn lemma_strings_view_drop_first(ss: Seq<String>)
    requires
        ss.len() > 0,
    ensures
        strings_view(ss.drop_first()) == strings_view(ss).drop_first(),
{
    crate::ast::lemma_strings_view(ss);
    crate::ast::lemma_strings_view(ss.drop_first());
    assert_seqs_equal!(strings_view(ss.drop_first()) == strings_view(ss).drop_first());
}

/// The view of a boxed statement.
pub open spec fn stmts_box_view(b: Box<Statement>) -> StmtV {
    crate::ast::stmt_view(*b)
}

/// A whole program, in the root scope; an unwind marker reaching the top
/// is unwrapped to its value.
fn eval_program(
    program: &Program,
    fuel: u64,
    env: &mut Environment,
    input: &mut Vec<String>,
    output: &mut String,
) -> (r: Result<Value, String>)
    requires
        old(env).wf(),
    ensures
        final(env).wf(),
        ({
            let (res, st2) = eval_program_spec(
                fuel as nat,
                program@,
                0,
                sview(*old(env), old(input)@, old(output)@),
            );
            &&& sview(*final(env), final(input)@, final(output)@) == st2
            &&& (match r {
                Ok(v) => res == OutV::Val(v@),
                Err(m) => res is Fail && m@ == err_msg(res->Fail_0),
            })
        }),
{
    let r = eval_block(&program.statments, 0, fuel, env, input, output);
    match r {
        Ok(v) => match v {
            Value::Return(inner) => Ok(*inner),
            other => Ok(other),
        },
        Err(m) => Err(m),
    }
}

/// Any evaluation root against an environment; input and output are the
/// injected capabilities of the built-in functions.
fn eval_ast(
    ast: &Ast,
    fuel: u64,
    env: &mut Environment,
    input: &mut Vec<String>,
    output: &mut String,
) -> (r: Result<Value, String>)
    requires
        old(env).wf(),
    ensures
        final(env).wf(),
        ({
            let (res, st2) = eval_ast_spec(
                fuel as nat,
                ast@,
                0,
                sview(*old(env), old(input)@, old(output)@),
            );
            &&& sview(*final(env), final(input)@, final(output)@) == st2
            &&& (match r {
                Ok(v) => res == OutV::Val(v@),
                Err(m) => res is Fail && m@ == err_msg(res->Fail_0),
            })
        }),
{
    match ast {
        Ast::Program(prog) => eval_program(prog, fuel, env, input, output),
        Ast::Statement(stmt) => eval_statement(stmt, 0, fuel, env, input, output),
        Ast::Expression(e) => eval_expression(e, 0, fuel, env, input, output),
    }
}

/// Evaluates a syntax tree against a fresh environment and discarded
/// input and output; callers that keep state or need the written output
/// use an `Evaluator`.
pub fn eval(ast: &Ast) -> (r: Result<Value, String>)
    ensures
        ({
            let fresh = fresh_state();
            let (res, st2) = eval_ast_spec(EVAL_DEPTH_LIMIT as nat, ast@, 0, fresh);
            match r {
                Ok(v) => res == OutV::Val(v@),
                Err(m) => res is Fail && m@ == err_msg(res->Fail_0),
            }
        }),
{
    let mut env = Environment::new();
    let mut input: Vec<String> = Vec::new();
    let mut output = String::new();
    eval_ast(ast, EVAL_DEPTH_LIMIT, &mut env, &mut input, &mut output)
}

/// The evaluator: an environment retained across evaluations, and the
/// input and output the built-in functions touch.
#[derive(Debug)]
pub struct Evaluator {
    pub env: Environment,
    pub input: Vec<String>,
    pub output: String,
}

impl Evaluator {
    pub open spec fn wf(&self) -> bool {
        self.env.wf()
    }

    /// A fresh evaluator: an empty root scope, no input, no output.
    pub fn new() -> (r: Self)
        ensures
            r.wf(),
            sview(r.env, r.input@, r.output@) == fresh_state(),
    {
        let r = Evaluator { env: Environment::new(), input: Vec::new(), output: String::new() };
        proof {
            assert(sview(r.env, r.input@, r.output@) =~= fresh_state());
        }
        r
    }

    /// Evaluates a syntax tree against a caller-supplied environment, the
    /// root scope current; input and output of built-ins are empty and
    /// discarded.
    pub fn eval_with_environment(ast: &Ast, env: &mut Environment) -> (r: Result<Value, String>)
        requires
            old(env).wf(),
        ensures
            final(env).wf(),
            ({
                let (res, st2) = eval_ast_spec(
                    EVAL_DEPTH_LIMIT as nat,
                    ast@,
                    0,
                    StateV {
                        scopes: old(env).view_scopes(),
                        input: Seq::empty(),
                        output: Seq::empty(),
                    },
                );
                &&& final(env).view_scopes() == st2.scopes
                &&& (match r {
                    Ok(v) => res == OutV::Val(v@),
                    Err(m) => res is Fail && m@ == err_msg(res->Fail_0),
                })
            }),
    {
        let mut input: Vec<String> = Vec::new();
        let mut output = String::new();
        let r = eval_ast(ast, EVAL_DEPTH_LIMIT, env, &mut input, &mut output);
        r
    }

    /// Evaluates a syntax tree against a fresh environment.
    pub fn eval(ast: &Ast) -> (r: Result<Value, String>)
        ensures
            ({
                let (res, st2) = eval_ast_spec(
                    EVAL_DEPTH_LIMIT as nat,
                    ast@,
                    0,
                    fresh_state(),
                );
                match r {
                    Ok(v) => res == OutV::Val(v@),
                    Err(m) => res is Fail && m@ == err_msg(res->Fail_0),
                }
            }),
    {
        let mut env = Environment::new();
        Evaluator::eval_with_environment(ast, &mut env)
    }

    /// Evaluates a syntax tree against this evaluator's own environment,
    /// input and output, keeping bindings for later calls.
    pub fn eval_self(&mut self, ast: &Ast) -> (r: Result<Value, String>)
        requires
            old(self).wf(),
        ensures
            final(self).wf(),
            ({
                let (res, st2) = eval_ast_spec(
                    EVAL_DEPTH_LIMIT as nat,
                    ast@,
                    0,
                    sview(old(self).env, old(self).input@, old(self).output@),
                );
                &&& sview(final(self).env, final(self).input@, final(self).output@) == st2
                &&& (match r {
                    Ok(v) => res == OutV::Val(v@),
                    Err(m) => res is Fail && m@ == err_msg(res->Fail_0),
                })
            }),
    {
        eval_ast(ast, EVAL_DEPTH_LIMIT, &mut self.env, &mut self.input, &mut self.output)
    }

    /// Hands one more line to the `input` built-in.
    pub fn push_input(&mut self, line: String)
        ensures
            final(self).wf() == old(self).wf(),
            final(self).env == old(self).env,
            final(self).output == old(self).output,
            strings_view(final(self).input@) == strings_view(old(self).input@) + seq![line@],
    {
        proof {
            crate::ast::lemma_strings_view_push(self.input@, line);
        }
        self.input.push(line);
    }

    /// Takes the output written so far, leaving it empty.
    pub fn take_output(&mut self) -> (r: String)
        ensures
            final(self).wf() == old(self).wf(),
            final(self).env == old(self).env,
            final(self).input == old(self).input,
            r@ == old(self).output@,
            final(self).output@ == Seq::<char>::empty(),
    {
        let r = self.output.clone();
        self.output = String::new();
        r
    }
}

impl Default for Evaluator {
    /// The default evaluator is a fresh one.
    fn default() -> (r: Self)
        ensures
            r.wf(),
            sview(r.env, r.input@, r.output@) == fresh_state(),
    {
        Evaluator::new()
    }
}

/// An evaluation error: the message an evaluation fails with.
pub type EvaluatorErr = String;


/// Evaluates an argument list left to right; the first failure stops the
/// walk.
#[verifier::rlimit(100)]
fn eval_expressions(
    arguments: &Vec<Expression>,
    cur: usize,
    fuel: u64,
    env: &mut Environment,
    input: &mut Vec<String>,
    output: &mut String,
) -> (r: Result<Vec<Value>, String>)
    requires
        old(env).wf(),
        cur < old(env).scopes@.len(),
    ensures
        final(env).wf(),
        final(env).scopes@.len() >= old(env).scopes@.len(),
        ({
            let (res, st2) = eval_exprs_spec(
                fuel as nat,
                exprs_view(arguments@),
                cur as int,
                sview(*old(env), old(input)@, old(output)@),
            );
            &&& sview(*final(env), final(input)@, final(output)@) == st2
            &&& (match r {
                Ok(vs) => res == ArgsV::Vals(vals_view(vs@)) && vals_view(vs@).len() == vs@.len()
                    && (forall|j: int| 0 <= j < vals_view(vs@).len() ==> val_wf(
                    #[trigger] vals_view(vs@)[j],
                    final(env).scopes@.len() as int,
                )),
                Err(m) => res is Fail && m@ == err_msg(res->Fail_0),
            })
        }),
    decreases fuel, arguments, 0int,
{
    let ghost st1 = sview(*env, input@, output@);
    let ghost argsv = exprs_view(arguments@);
    proof {
        crate::ast::lemma_exprs_view(arguments@);
    }
    let mut argv: Vec<Value> = Vec::new();
    let mut i: usize = 0;
    proof {
        assert(argsv.skip(0) =~= argsv);
        assert(vals_view(argv@) =~= Seq::<ValueV>::empty());
        let (ar1, sr1) = eval_exprs_spec(fuel as nat, argsv, cur as int, st1);
        match ar1 {
            ArgsV::Vals(vs) => {
                assert_seqs_equal!(vals_view(argv@) + vs == vs);
            },
            ArgsV::Fail(e) => {},
        }
    }
    while i < arguments.len()
        invariant
            i <= arguments.len(),
            env.wf(),
            cur < env.scopes@.len(),
            env.scopes@.len() >= old(env).scopes@.len(),
            argsv == exprs_view(arguments@),
            st1 == sview(*old(env), old(input)@, old(output)@),
            argsv.len() == arguments@.len(),
            forall|j: int| 0 <= j < arguments@.len() ==> argsv[j] == crate::ast::expr_view(
                arguments@[j],
            ),
            argv@.len() == i as int,
            forall|j: int| 0 <= j < i as int ==> val_wf(
                #[trigger] vals_view(argv@)[j],
                env.scopes@.len() as int,
            ),
            vals_view(argv@).len() == i as int,
            ({
                let (ar0, sr0) = eval_exprs_spec(fuel as nat, argsv, cur as int, st1);
                let (ar1, sr1) = eval_exprs_spec(
                    fuel as nat,
                    argsv.skip(i as int),
                    cur as int,
                    sview(*env, input@, output@),
                );
                match ar1 {
                    ArgsV::Vals(vs) => ar0 == ArgsV::Vals(vals_view(argv@) + vs) && sr0 == sr1,
                    ArgsV::Fail(e) => ar0 == ArgsV::Fail(e) && sr0 == sr1,
                }
            }),
        decreases arguments.len() - i,
    {
        proof {
            assert(argsv.skip(i as int).len() > 0);
            assert(argsv.skip(i as int)[0] == crate::ast::expr_view(arguments@[i as int]));
            assert(argsv.skip(i as int).drop_first() =~= argsv.skip(i as int + 1));
            assert(decreases_to!(arguments => arguments@[i as int]));
        }
        let ghost argv_before = argv@;
        let ghost len_before = env.scopes@.len() as int;
        let a = match eval_expression(&arguments[i], cur, fuel, env, input, output) {
            Ok(v) => v,
            Err(m) => {
                return Err(m);
            },
        };
        let ghost av = a@;
        proof {
            lemma_vals_view_push(argv@, a);
            assert forall|j: int| 0 <= j < (i + 1) as int implies val_wf(
                #[trigger] vals_view(argv@.push(a))[j],
                env.scopes@.len() as int,
            ) by {
                lemma_vals_view(argv_before);
                lemma_vals_view(argv_before.push(a));
                if j < i as int {
                    crate::env::lemma_val_wf_grow(
                        vals_view(argv_before)[j],
                        len_before,
                        env.scopes@.len() as int,
                    );
                }
            }
        }
        argv.push(a);
        i = i + 1;
        proof {
            let (ar_rem, sr_rem) = eval_exprs_spec(
                fuel as nat,
                argsv.skip(i as int),
                cur as int,
                sview(*env, input@, output@),
            );
            match ar_rem {
                ArgsV::Vals(vs) => {
                    assert_seqs_equal!(
                        vals_view(argv_before) + (seq![av] + vs)
                        == vals_view(argv@) + vs
                    );
                },
                ArgsV::Fail(e) => {},
            }
        }
    }
    proof {
        assert(argsv.skip(arguments@.len() as int) =~= Seq::<ExprV>::empty());
        let (ar1, sr1) = eval_exprs_spec(
            fuel as nat,
            argsv.skip(arguments@.len() as int),
            cur as int,
            sview(*env, input@, output@),
        );
        match ar1 {
            ArgsV::Vals(vs) => {
                assert_seqs_equal!(vals_view(argv@) + vs == vals_view(argv@));
            },
            ArgsV::Fail(e) => {},
        }
    }
    Ok(argv)
}

} // verus!
