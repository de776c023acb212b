//! The environment: a chain of name-to-value scopes, held in one arena so
//! that closures can capture a scope by index and keep it alive.

use crate::value::{val_view, Value, ValueV};
use vstd::prelude::*;

verus! {

/// One scope: its bindings in insertion order, and the index of the
/// enclosing scope, absent at the root.
#[derive(Debug)]
pub struct Scope {
    pub bindings: Vec<(String, Value)>,
    pub outer: Option<usize>,
}

/// The mathematical view of one scope: its bindings as a map, and its
/// outer link.
#[verifier::ext_equal]
pub struct ScopeV {
    pub bindings: Map<Seq<char>, ValueV>,
    pub outer: Option<int>,
}

/// The map an association list denotes; a later binding for a name wins.
pub open spec fn assoc_map(bs: Seq<(String, Value)>) -> Map<Seq<char>, ValueV>
    decreases bs,
{
    if bs.len() == 0 {
        Map::empty()
    } else {
        assoc_map(bs.drop_last()).insert(bs.last().0@, val_view(bs.last().1))
    }
}

pub open spec fn scope_view(s: Scope) -> ScopeV {
    ScopeV {
        bindings: assoc_map(s.bindings@),
        outer: match s.outer {
            Some(o) => Some(o as int),
            None => None,
        },
    }
}

pub open spec fn scopes_view(ss: Seq<Scope>) -> Seq<ScopeV>
    decreases ss,
{
    if ss.len() == 0 {
        Seq::empty()
    } else {
        seq![scope_view(ss[0])] + scopes_view(ss.drop_first())
    }
}

pub proof fn lemma_scopes_view(ss: Seq<Scope>)
    ensures
        scopes_view(ss).len() == ss.len(),
        forall|i: int| 0 <= i < ss.len() ==> scopes_view(ss)[i] == scope_view(ss[i]),
    decreases ss,
{
    if ss.len() > 0 {
        lemma_scopes_view(ss.drop_first());
    }
}

/// A value that is meaningful in an arena of `n` scopes: every scope a
/// function value captures exists.
pub open spec fn val_wf(v: ValueV, n: int) -> bool
    decreases v,
{
    match v {
        ValueV::Function { env, .. } => 0 <= env < n,
        ValueV::Return(inner) => val_wf(*inner, n),
        _ => true,
    }
}

/// A value meaningful in `n` scopes is meaningful in more.
pub proof fn lemma_val_wf_grow(v: ValueV, n: int, m: int)
    requires
        val_wf(v, n),
        n <= m,
    ensures
        val_wf(v, m),
    decreases v,
{
    match v {
        ValueV::Return(inner) => lemma_val_wf_grow(*inner, n, m),
        _ => {},
    }
}

/// Looking a name up in the chain that starts at scope `i`: the innermost
/// binding wins; the walk moves strictly outward.
pub open spec fn env_lookup(scopes: Seq<ScopeV>, i: int, name: Seq<char>) -> Option<ValueV>
    decreases i,
{
    if 0 <= i < scopes.len() {
        if scopes[i].bindings.contains_key(name) {
            Some(scopes[i].bindings[name])
        } else {
            match scopes[i].outer {
                Some(j) => if 0 <= j < i {
                    env_lookup(scopes, j, name)
                } else {
                    None
                },
                None => None,
            }
        }
    } else {
        None
    }
}

/// A chained scope arena: scope links always point to earlier scopes, and
/// every stored function value captures an existing scope.
#[derive(Debug)]
pub struct Environment {
    pub scopes: Vec<Scope>,
}

impl Environment {
    /// The arena's invariant.
    pub open spec fn wf(&self) -> bool {
        &&& self.scopes@.len() >= 1
        &&& forall|i: int|
            0 <= i < self.scopes@.len() ==> (match (#[trigger] self.scopes@[i]).outer {
                Some(j) => 0 <= j < i,
                None => true,
            })
        &&& forall|i: int, k: int|
            0 <= i < self.scopes@.len() && 0 <= k < (#[trigger] self.scopes@[i]).bindings@.len()
                ==> val_wf(val_view((#[trigger] self.scopes@[i].bindings@[k]).1),
                self.scopes@.len() as int)
    }

    /// The arena's view: the views of its scopes in order.
    pub open spec fn view_scopes(&self) -> Seq<ScopeV> {
        scopes_view(self.scopes@)
    }

    /// A fresh environment: one empty root scope.
    pub fn new() -> (r: Self)
        ensures
            r.wf(),
            r.view_scopes() =~= seq![
                ScopeV { bindings: Map::<Seq<char>, ValueV>::empty(), outer: None },
            ],
            r.scopes@.len() == 1,
    {
        let mut scopes: Vec<Scope> = Vec::new();
        scopes.push(Scope { bindings: Vec::new(), outer: None });
        let r = Environment { scopes };
        proof {
            lemma_scopes_view(r.scopes@);
            assert(r.view_scopes() =~= seq![scope_view(r.scopes@[0])]);
        }
        r
    }

    /// Appends a fresh scope enclosed by the scope at `outer`, and yields
    /// the new scope's index.
    pub fn new_enclosed(&mut self, outer: usize) -> (idx: usize)
        requires
            old(self).wf(),
            outer < old(self).scopes@.len(),
        ensures
            final(self).wf(),
            idx == old(self).scopes@.len(),
            final(self).scopes@.len() == old(self).scopes@.len() + 1,
            final(self).view_scopes() =~= old(self).view_scopes().push(
                ScopeV { bindings: Map::<Seq<char>, ValueV>::empty(), outer: Some(outer as int) },
            ),
    {
        let idx = self.scopes.len();
        self.scopes.push(Scope { bindings: Vec::new(), outer: Some(outer) });
        proof {
            lemma_scopes_view(self.scopes@);
            lemma_scopes_view(old(self).scopes@);
            assert forall|i: int, k: int|
                0 <= i < self.scopes@.len() && 0 <= k < (#[trigger] self.scopes@[i]).bindings@.len()
                    implies val_wf(val_view((#[trigger] self.scopes@[i].bindings@[k]).1),
                    self.scopes@.len() as int) by {
                if i < old(self).scopes@.len() {
                    assert(self.scopes@[i] == old(self).scopes@[i]);
                    assert(val_wf(val_view(self.scopes@[i].bindings@[k].1),
                        old(self).scopes@.len() as int));
                    lemma_val_wf_grow(val_view(self.scopes@[i].bindings@[k].1),
                        old(self).scopes@.len() as int, self.scopes@.len() as int);
                }
            }
            assert(final(self).view_scopes() =~= old(self).view_scopes().push(
                ScopeV { bindings: Map::<Seq<char>, ValueV>::empty(), outer: Some(outer as int) },
            ));
        }
        idx
    }

    /// Looks `name` up along the chain from scope `scope` outward; fails
    /// with an identifier-not-found message at the root.
    pub fn get(&self, scope: usize, name: &String) -> (r: Result<Value, String>)
        requires
            self.wf(),
            scope < self.scopes@.len(),
        ensures
            (match env_lookup(self.view_scopes(), scope as int, name@) {
                Some(vv) => r is Ok && r->Ok_0@ == vv && val_wf(vv, self.scopes@.len() as int),
                None => r is Err && r->Err_0@ == crate::eval::msg_ident_not_found(name@),
            }),
        decreases scope,
    {
        proof {
            lemma_scopes_view(self.scopes@);
        }
        let sc = &self.scopes[scope];
        let n = sc.bindings.len();
        let ghost bs = sc.bindings@;
        let mut k = n;
        while k > 0
            invariant
                k <= n,
                n == bs.len(),
                bs == self.scopes@[scope as int].bindings@,
                self.wf(),
                scope < self.scopes@.len(),
                forall|j: int| k <= j < n ==> (#[trigger] bs[j]).0@ != name@,
            decreases k,
        {
            k = k - 1;
            if self.scopes[scope].bindings[k].0.eq(name) {
                let v = self.scopes[scope].bindings[k].1.clone();
                proof {
                    lemma_scopes_view(self.scopes@);
                    lemma_assoc_found(bs, k as int, name@);
                    assert(scope_view(self.scopes@[scope as int]).bindings == assoc_map(bs));
                    assert(self.view_scopes()[scope as int] == scope_view(
                        self.scopes@[scope as int],
                    ));
                    assert(val_wf(val_view((self.scopes@[scope as int].bindings@[k as int]).1),
                        self.scopes@.len() as int));
                }
                return Ok(v);
            }
        }
        proof {
            lemma_scopes_view(self.scopes@);
            lemma_assoc_absent(bs, name@);
            assert(self.view_scopes()[scope as int] == scope_view(self.scopes@[scope as int]));
        }
        match sc.outer {
            Some(j) => self.get(j, name),
            None => Err(crate::eval::build_ident_not_found(name)),
        }
    }

    /// Binds `name` to `value` in the scope at `scope` (never in an outer
    /// one), and yields the bound value.
    pub fn set(&mut self, scope: usize, name: String, value: Value) -> (r: Value)
        requires
            old(self).wf(),
            scope < old(self).scopes@.len(),
            val_wf(value@, old(self).scopes@.len() as int),
        ensures
            final(self).wf(),
            final(self).scopes@.len() == old(self).scopes@.len(),
            r@ == value@,
            final(self).view_scopes() =~= old(self).view_scopes().update(
                scope as int,
                ScopeV {
                    bindings: old(self).view_scopes()[scope as int].bindings.insert(name@, value@),
                    outer: old(self).view_scopes()[scope as int].outer,
                },
            ),
    {
        proof {
            lemma_scopes_view(self.scopes@);
        }
        let stored = value.clone();
        let ghost oldbs = self.scopes@[scope as int].bindings@;
        let ghost namev = name@;
        let ghost storedv = stored@;
        let sc = &mut self.scopes[scope];
        sc.bindings.push((name, stored));
        proof {
            lemma_scopes_view(self.scopes@);
            lemma_scopes_view(old(self).scopes@);
            let newbs = self.scopes@[scope as int].bindings@;
            assert(newbs.len() == oldbs.len() + 1);
            assert(newbs.last().0@ == namev);
            assert(val_view(newbs.last().1) == storedv);
            assert(newbs.drop_last() =~= oldbs);
            assert(assoc_map(newbs) == assoc_map(newbs.drop_last()).insert(
                newbs.last().0@,
                val_view(newbs.last().1),
            ));
            assert(assoc_map(self.scopes@[scope as int].bindings@) == assoc_map(oldbs).insert(
                name@,
                value@,
            ));
            assert forall|i: int, k: int|
                0 <= i < self.scopes@.len() && 0 <= k < (#[trigger] self.scopes@[i]).bindings@.len()
                    implies val_wf(val_view((#[trigger] self.scopes@[i].bindings@[k]).1),
                    self.scopes@.len() as int) by {
                if i == scope as int && k == self.scopes@[i].bindings@.len() - 1 {
                    assert(val_view(self.scopes@[i].bindings@[k].1) == value@);
                } else {
                    assert(self.scopes@[i].bindings@[k] == old(self).scopes@[i].bindings@[k]);
                }
            }
            assert(final(self).view_scopes() =~= old(self).view_scopes().update(
                scope as int,
                ScopeV {
                    bindings: old(self).view_scopes()[scope as int].bindings.insert(name@, value@),
                    outer: old(self).view_scopes()[scope as int].outer,
                },
            ));
        }
        value
    }
}

impl Default for Environment {
    /// The default environment is a fresh one.
    fn default() -> (r: Self)
        ensures
            r.wf(),
            r.scopes@.len() == 1,
            r.view_scopes() =~= seq![
                ScopeV { bindings: Map::<Seq<char>, ValueV>::empty(), outer: None },
            ],
    {
        Environment::new()
    }
}

/// If index `k` holds `name` and no later binding does, the map the list
/// denotes sends `name` to the value at `k`.
proof fn lemma_assoc_found(bs: Seq<(String, Value)>, k: int, name: Seq<char>)
    requires
        0 <= k < bs.len(),
        bs[k].0@ == name,
        forall|j: int| k < j < bs.len() ==> (#[trigger] bs[j]).0@ != name,
    ensures
        assoc_map(bs).contains_key(name),
        assoc_map(bs)[name] == val_view(bs[k].1),
    decreases bs.len(),
{
    if k == bs.len() - 1 {
    } else {
        assert(bs.drop_last()[k] == bs[k]);
        lemma_assoc_found(bs.drop_last(), k, name);
    }
}

/// If no binding holds `name`, the map the list denotes has no entry for
/// it.
proof fn lemma_assoc_absent(bs: Seq<(String, Value)>, name: Seq<char>)
    requires
        forall|j: int| 0 <= j < bs.len() ==> (#[trigger] bs[j]).0@ != name,
    ensures
        !assoc_map(bs).contains_key(name),
    decreases bs.len(),
{
    if bs.len() > 0 {
        assert(forall|j: int|
            0 <= j < bs.drop_last().len() ==> (#[trigger] bs.drop_last()[j]).0@ != name);
        lemma_assoc_absent(bs.drop_last(), name);
    }
}

} // verus!
