//! A tree-walking interpreter for a small expression-oriented language:
//! integer, boolean and string literals, `let` bindings, `if` expressions,
//! first-class functions with closures, and `return`.
//!
//! Source text is lexed into tokens, parsed by precedence climbing into an
//! abstract syntax tree, and evaluated against a chain of lexical scopes.

pub mod ast;
pub mod env;
pub mod eval;
pub mod lexer;
pub mod parser;
pub mod precedence;
pub mod program;
pub mod text;
pub mod token;
pub mod value;

use crate::ast::Ast;
use crate::eval::{eval_ast_spec, fresh_state, sview, err_msg, Evaluator, EvaluatorErr, OutV,
    EVAL_DEPTH_LIMIT};
use crate::program::Program;
use crate::value::Value;
use vstd::prelude::*;

verus! {

/// The whole interpreter: an evaluator whose bindings persist across
/// programs, as a session needs.
#[derive(Debug)]
pub struct Monkey {
    pub eval: Evaluator,
}

impl Monkey {
    pub open spec fn wf(&self) -> bool {
        self.eval.wf()
    }

    /// A fresh interpreter.
    pub fn new() -> (r: Self)
        ensures
            r.wf(),
    {
        Monkey { eval: Evaluator::new() }
    }

    /// Evaluates one parsed program, keeping its bindings for the next.
    pub fn eval(&mut self, program: Program) -> (r: Result<Value, EvaluatorErr>)
        requires
            old(self).wf(),
        ensures
            final(self).wf(),
            ({
                let (res, st2) = eval_ast_spec(
                    EVAL_DEPTH_LIMIT as nat,
                    crate::eval::AstV::Program(program@),
                    0,
                    sview(old(self).eval.env, old(self).eval.input@, old(self).eval.output@),
                );
                &&& sview(final(self).eval.env, final(self).eval.input@, final(self).eval.output@)
                    == st2
                &&& (match r {
                    Ok(v) => res == OutV::Val(v@),
                    Err(m) => res is Fail && m@ == err_msg(res->Fail_0),
                })
            }),
    {
        self.eval.eval_self(&Ast::Program(program))
    }
}

impl Default for Monkey {
    /// The default interpreter is a fresh one.
    fn default() -> (r: Self)
        ensures
            r.wf(),
    {
        Monkey::new()
    }
}

} // verus!
