//! Runtime values: the tagged union the evaluator produces, its
//! mathematical view, truthiness, and textual rendering.

use crate::ast::{
    join_comma, join_front, lemma_strings_view, render_stmt, stmt_view, strings_view, Statement,
    StmtV,
};
use crate::text::{dec_rep_signed, render_i64};
use vstd::assert_seqs_equal;
use vstd::prelude::*;

verus! {

/// One of the built-in functions of the language.
#[derive(Debug, Clone, Copy, PartialEq, Eq, Structural)]
pub enum BuiltInKind {
    Len,
    Println,
    Input,
}

/// A runtime value. `Return` is an internal wrapper used only to unwind a
/// block early; it is never observable outside the evaluator. A function
/// value captures the scope it was defined in by its index in the
/// environment arena.
#[derive(Debug)]
pub enum Value {
    Integer(i64),
    Boolean(bool),
    String(String),
    Return(Box<Value>),
    Function { params: Vec<String>, body: Box<Statement>, env: usize },
    BuiltInFunction { func: BuiltInKind },
    Null,
}

/// The mathematical view of a `Value`.
pub enum ValueV {
    Integer(int),
    Boolean(bool),
    StrValue(Seq<char>),
    Return(Box<ValueV>),
    Function { params: Seq<Seq<char>>, body: StmtV, env: int },
    BuiltInFunction(BuiltInKind),
    Null,
}

pub open spec fn val_view(v: Value) -> ValueV
    decreases v,
{
    match v {
        Value::Integer(i) => ValueV::Integer(i as int),
        Value::Boolean(b) => ValueV::Boolean(b),
        Value::String(s) => ValueV::StrValue(s@),
        Value::Return(inner) => ValueV::Return(Box::new(val_view(*inner))),
        Value::Function { params, body, env } => ValueV::Function {
            params: strings_view(params@),
            body: stmt_view(*body),
            env: env as int,
        },
        Value::BuiltInFunction { func } => ValueV::BuiltInFunction(func),
        Value::Null => ValueV::Null,
    }
}

impl View for Value {
    type V = ValueV;

    open spec fn view(&self) -> ValueV {
        val_view(*self)
    }
}

/// Whether a value counts as true in a condition: positive integers and
/// `true` are truthy; zero, negative integers and every other value are
/// falsy.
pub open spec fn truthy(v: ValueV) -> bool {
    match v {
        ValueV::Integer(i) => i > 0,
        ValueV::Boolean(b) => b,
        _ => false,
    }
}

/// The truthiness boundary: a positive integer is truthy, zero and every
/// negative integer are falsy, a boolean is its own truth, and every
/// other value is falsy.
pub proof fn lemma_truthiness_boundary(i: int, b: bool, s: Seq<char>)
    ensures
        truthy(ValueV::Integer(i)) == (i > 0),
        truthy(ValueV::Boolean(b)) == b,
        !truthy(ValueV::StrValue(s)),
        !truthy(ValueV::Null),
{
}

/// Conversion of a value to a conditional: its truthiness.
pub trait Truth {
    /// What the conversion yields, as a specification.
    spec fn spec_truth(&self) -> bool;

    /// The truthiness of the value.
    fn truth(&self) -> (r: bool)
        ensures
            r == self.spec_truth(),
    ;
}

impl Truth for Value {
    open spec fn spec_truth(&self) -> bool {
        truthy(self@)
    }

    fn truth(&self) -> (r: bool)
        ensures
            r == self.spec_truth(),
    {
        match self {
            Value::Integer(i) => *i > 0,
            Value::Boolean(b) => *b,
            _ => false,
        }
    }
}

impl Value {
    /// Whether this value is the null value.
    pub fn is_null(&self) -> (r: bool)
        ensures
            r == (self@ is Null),
    {
        match self {
            Value::Null => true,
            _ => false,
        }
    }
}

impl Clone for Value {
    /// Cloning preserves the value's view.
    fn clone(&self) -> (r: Self)
        ensures
            r@ == self@,
        decreases self,
    {
        match self {
            Value::Integer(i) => Value::Integer(*i),
            Value::Boolean(b) => Value::Boolean(*b),
            Value::String(s) => Value::String(s.clone()),
            Value::Return(inner) => Value::Return(Box::new((**inner).clone())),
            Value::Function { params, body, env } => Value::Function {
                params: crate::ast::clone_strings(params),
                body: Box::new((**body).clone()),
                env: *env,
            },
            Value::BuiltInFunction { func } => Value::BuiltInFunction { func: *func },
            Value::Null => Value::Null,
        }
    }
}

/// The textual rendering of a value, as the REPL and error messages show
/// it.
pub open spec fn render_value(v: ValueV) -> Seq<char>
    decreases v,
{
    match v {
        ValueV::Integer(i) => dec_rep_signed(i),
        ValueV::Boolean(b) => if b {
            "true"@
        } else {
            "false"@
        },
        ValueV::StrValue(s) => s,
        ValueV::Return(inner) => render_value(*inner),
        ValueV::Function { params, body, .. } => "fn("@ + join_comma(params) + ") {\n"@
            + render_stmt(body) + "\n}"@,
        ValueV::BuiltInFunction(_) => "builtin function"@,
        ValueV::Null => "null"@,
    }
}

impl Value {
    /// Renders the value as text.
    pub fn render(&self) -> (r: String)
        ensures
            r@ == render_value(self@),
        decreases self,
    {
        match self {
            Value::Integer(i) => render_i64(*i),
            Value::Boolean(b) => {
                if *b {
                    String::from_str("true")
                } else {
                    String::from_str("false")
                }
            },
            Value::String(s) => s.clone(),
            Value::Return(inner) => (**inner).render(),
            Value::Function { params, body, .. } => {
                proof {
                    reveal_strlit("fn(");
                    reveal_strlit(") {\n");
                    reveal_strlit("\n}");
                    reveal_strlit(", ");
                }
                let mut out = String::from_str("fn(");
                let mut i: usize = 0;
                while i < params.len()
                    invariant
                        i <= params.len(),
                        ", "@.len() == 2,
                        out@ == "fn("@ + join_front(strings_view(params@), i as int),
                    decreases params.len() - i,
                {
                    if i > 0 {
                        out.append(", ");
                    }
                    out.append(params[i].as_str());
                    i = i + 1;
                    proof {
                        lemma_strings_view(params@);
                        crate::ast::lemma_join_front_step(strings_view(params@), i - 1);
                        assert_seqs_equal!(
                            out@ == "fn("@ + join_front(strings_view(params@), i as int)
                        );
                    }
                }
                proof {
                    lemma_strings_view(params@);
                    crate::ast::lemma_join_front_full(strings_view(params@));
                }
                out.append(") {\n");
                let body_text = body.render();
                out.append(body_text.as_str());
                out.append("\n}");
                proof {
                    assert_seqs_equal!(out@ == render_value(self@));
                }
                out
            },
            Value::BuiltInFunction { .. } => String::from_str("builtin function"),
            Value::Null => String::from_str("null"),
        }
    }
}

/// The name-keyed registry of built-in functions.
pub open spec fn spec_get_function(name: Seq<char>) -> Option<BuiltInKind> {
    if name == "len"@ {
        Some(BuiltInKind::Len)
    } else if name == "println"@ {
        Some(BuiltInKind::Println)
    } else if name == "input"@ {
        Some(BuiltInKind::Input)
    } else {
        None
    }
}

/// Looks a name up in the registry of built-in functions.
pub fn get_function(name: &str) -> (r: Option<BuiltInKind>)
    ensures
        r == spec_get_function(name@),
{
    let word = name.to_owned();
    if word == String::from_str("len") {
        Some(BuiltInKind::Len)
    } else if word == String::from_str("println") {
        Some(BuiltInKind::Println)
    } else if word == String::from_str("input") {
        Some(BuiltInKind::Input)
    } else {
        None
    }
}

} // verus!
