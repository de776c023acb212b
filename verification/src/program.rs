//! A parsed program: the ordered sequence of its top-level statements.

use crate::ast::{render_stmts, stmt_view, stmts_view, Statement, StmtV};
use vstd::assert_seqs_equal;
use vstd::prelude::*;

verus! {

/// A whole program: the ordered top-level statements the parser produced.
#[derive(Debug, Default)]
pub struct Program {
    pub statments: Vec<Statement>,
}

impl View for Program {
    type V = Seq<StmtV>;

    open spec fn view(&self) -> Seq<StmtV> {
        stmts_view(self.statments@)
    }
}

impl Program {
    /// Renders the program: the concatenation of its statements' renderings.
    pub fn render(&self) -> (r: String)
        ensures
            r@ == render_stmts(self@),
    {
        let mut out = String::new();
        let mut i: usize = 0;
        proof {
            crate::ast::lemma_stmts_view(self.statments@);
            assert(self@.skip(0) =~= self@);
            assert_seqs_equal!(out@ + render_stmts(self@) == render_stmts(self@));
        }
        while i < self.statments.len()
            invariant
                i <= self.statments.len(),
                self@.len() == self.statments@.len(),
                forall|j: int| 0 <= j < self.statments@.len() ==> self@[j] == stmt_view(
                    self.statments@[j],
                ),
                render_stmts(self@) == out@ + render_stmts(self@.skip(i as int)),
            decreases self.statments.len() - i,
        {
            proof {
                assert(self@.skip(i as int).len() > 0);
                assert(self@.skip(i as int)[0] == stmt_view(self.statments@[i as int]));
                assert(self@.skip(i as int).drop_first() =~= self@.skip(i as int + 1));
            }
            let s_text = self.statments[i].render();
            out.append(s_text.as_str());
            i = i + 1;
            proof {
                assert_seqs_equal!(
                    render_stmts(self@) == out@ + render_stmts(self@.skip(i as int))
                );
            }
        }
        proof {
            assert(self@.skip(self@.len() as int) =~= Seq::<StmtV>::empty());
            assert_seqs_equal!(out@ == render_stmts(self@));
        }
        out
    }
}

} // verus!
