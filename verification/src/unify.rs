//! Structural pattern matching and substitution: matching a rule's pattern
//! against a term produces bindings, and the rule's replacement is rebuilt
//! with the bound subterms in place of its variables.
use vstd::prelude::*;

use crate::error::Loc;
use crate::intern::Id;
use crate::parser::{
    cached_head,
    clone_expr,
    dispose,
    eq_spec,
    expr_eq,
    get_id,
    no_red,
    rc_app,
    vars_of,
    wf_expr,
    App,
    Def,
    Expr,
};

verus! {

/// The bindings accumulated so far, newest entry winning.
pub open spec fn map_of(b: Seq<(Id, Expr)>) -> Map<Id, Expr>
    decreases b.len(),
{
    if b.len() == 0 {
        Map::empty()
    } else {
        map_of(b.drop_last()).insert(b.last().0, b.last().1)
    }
}

/// Matching a pattern against a candidate under existing bindings: a
/// first variable occurrence binds the candidate subterm, a repeated one
/// demands a structurally equal candidate, an atom matches the same atom,
/// and an application matches an application of the same head handle
/// function by function and argument by argument.
pub open spec fn unify_spec(b: Map<Id, Expr>, pat: Expr, e: Expr) -> Option<Map<Id, Expr>>
    decreases pat,
{
    match pat {
        Expr::Var { id, .. } => {
            if b.dom().contains(id) {
                if eq_spec(b[id], e) {
                    Option::Some(b)
                } else {
                    Option::None
                }
            } else {
                Option::Some(b.insert(id, e))
            }
        },
        Expr::Fun { id, .. } => match e {
            Expr::Fun { id: id2, .. } => if id == id2 {
                Option::Some(b)
            } else {
                Option::None
            },
            _ => Option::None,
        },
        Expr::App(p) => {
            let pf = p.f;
            let parg = p.arg;
            let pid = p.id;
            match e {
                Expr::App(c) => {
                    if pid == c.id {
                        match unify_spec(b, pf, c.f) {
                            Option::Some(b2) => unify_spec(b2, parg, c.arg),
                            Option::None => Option::None,
                        }
                    } else {
                        Option::None
                    }
                },
                Expr::RedApp(c) => {
                    if pid == c.id {
                        match unify_spec(b, pf, c.f) {
                            Option::Some(b2) => unify_spec(b2, parg, c.arg),
                            Option::None => Option::None,
                        }
                    } else {
                        Option::None
                    }
                },
                _ => Option::None,
            }
        },
        Expr::RedApp(_) => Option::None,
    }
}

/// Instantiating a replacement: a variable becomes its bound subterm, an
/// atom is copied verbatim unless a binding of the same name shadows it,
/// and an application is rebuilt bottom-up with its head handle recomputed
/// from the rebuilt function subterm.
pub open spec fn subst_spec(b: Map<Id, Expr>, rep: Expr) -> Expr
    decreases rep,
{
    match rep {
        Expr::Var { id, .. } => b[id],
        Expr::Fun { id, .. } => if b.dom().contains(id) {
            b[id]
        } else {
            rep
        },
        Expr::App(p) => {
            let f2 = subst_spec(b, p.f);
            Expr::App(
                Box::new(App { id: cached_head(f2), loc: p.loc, f: f2, arg: subst_spec(b, p.arg) }),
            )
        },
        Expr::RedApp(_) => rep,
    }
}

/// What one rule does to a term: the instantiated replacement if the
/// pattern matches with no prior bindings, nothing otherwise.
pub open spec fn apply_def_spec(d: Def, e: Expr) -> Option<Expr> {
    match unify_spec(Map::empty(), d.pat, e) {
        Option::Some(m) => Option::Some(subst_spec(m, d.rep)),
        Option::None => Option::None,
    }
}

proof fn lemma_map_of_found(b: Seq<(Id, Expr)>, i: int)
    requires
        0 <= i < b.len(),
        forall|j: int| i < j < b.len() ==> (#[trigger] b[j]).0 != b[i].0,
    ensures
        map_of(b).dom().contains(b[i].0),
        map_of(b)[b[i].0] == b[i].1,
    decreases b.len(),
{
    if i < b.len() - 1 {
        assert(b.drop_last()[i] == b[i]);
        lemma_map_of_found(b.drop_last(), i);
    }
}

proof fn lemma_map_of_absent(b: Seq<(Id, Expr)>, id: Id)
    requires
        forall|j: int| 0 <= j < b.len() ==> (#[trigger] b[j]).0 != id,
    ensures
        !map_of(b).dom().contains(id),
    decreases b.len(),
{
    if b.len() > 0 {
        lemma_map_of_absent(b.drop_last(), id);
    }
}

/// The bound subterm of a handle, if the handle was bound.
fn lookup<'a>(b: &'a Vec<(Id, Expr)>, id: Id) -> (r: Option<&'a Expr>)
    ensures
        match r {
            Option::Some(e) => map_of(b@).dom().contains(id) && *e == map_of(b@)[id],
            Option::None => !map_of(b@).dom().contains(id),
        },
{
    let mut i = b.len();
    while i > 0
        invariant
            i <= b@.len(),
            forall|j: int| i <= j < b@.len() ==> (#[trigger] b@[j]).0 != id,
        decreases i,
    {
        i = i - 1;
        if b[i].0.0 == id.0 {
            proof {
                lemma_map_of_found(b@, i as int);
            }
            return Option::Some(&b[i].1);
        }
    }
    proof {
        lemma_map_of_absent(b@, id);
    }
    Option::None
}

/// Structural matching of a pattern against a candidate, growing the
/// bindings in place. On failure the bindings so far are meaningless and
/// the caller discards them.
pub(crate) fn unify(b: &mut Vec<(Id, Expr)>, pat: &Expr, e: &Expr) -> (r: bool)
    ensures
        r == (unify_spec(map_of(old(b)@), *pat, *e) is Some),
        r ==> map_of(final(b)@) == unify_spec(map_of(old(b)@), *pat, *e).unwrap(),
    decreases *pat,
{
    match pat {
        Expr::Var { id, .. } => {
            let found = lookup(b, *id);
            match found {
                Option::Some(e2) => expr_eq(e2, e),
                Option::None => {
                    let ghost prev = b@;
                    b.push((*id, clone_expr(e)));
                    proof {
                        assert(b@.drop_last() =~= prev);
                        assert(map_of(b@) == map_of(prev).insert(*id, *e));
                    }
                    true
                },
            }
        },
        Expr::Fun { id, .. } => {
            match e {
                Expr::Fun { id: id2, .. } => id.0 == id2.0,
                _ => false,
            }
        },
        Expr::App(p) => {
            match e {
                Expr::App(c) => {
                    if p.id.0 == c.id.0 {
                        unify(b, &p.f, &c.f) && unify(b, &p.arg, &c.arg)
                    } else {
                        false
                    }
                },
                Expr::RedApp(c) => {
                    if p.id.0 == c.id.0 {
                        unify(b, &p.f, &c.f) && unify(b, &p.arg, &c.arg)
                    } else {
                        false
                    }
                },
                _ => false,
            }
        },
        Expr::RedApp(_) => false,
    }
}

/// A successful match binds every variable of the pattern, on top of what
/// was already bound.
pub proof fn lemma_unify_dom(b: Map<Id, Expr>, pat: &Expr, e: &Expr)
    requires
        unify_spec(b, *pat, *e) is Some,
    ensures
        b.dom().union(vars_of(*pat)).subset_of(unify_spec(b, *pat, *e).unwrap().dom()),
    decreases *pat,
{
    match pat {
        Expr::App(p) => {
            match e {
                Expr::App(c) => {
                    lemma_unify_dom(b, &p.f, &c.f);
                    let ghost b2 = unify_spec(b, p.f, e->App_0.f).unwrap();
                    lemma_unify_dom(b2, &p.arg, &c.arg);
                },
                Expr::RedApp(c) => {
                    lemma_unify_dom(b, &p.f, &c.f);
                    let ghost b2 = unify_spec(b, p.f, rc_app(c).f).unwrap();
                    lemma_unify_dom(b2, &p.arg, &c.arg);
                },
                _ => {},
            }
        },
        _ => {},
    }
}

/// Every subterm a successful match binds is well-formed, provided the
/// candidate and the prior bindings were.
pub proof fn lemma_unify_wf(b: Map<Id, Expr>, pat: &Expr, e: &Expr, n: int)
    requires
        unify_spec(b, *pat, *e) is Some,
        wf_expr(*e, n),
        forall|k: Id| b.dom().contains(k) ==> wf_expr(#[trigger] b[k], n),
    ensures
        forall|k: Id|
            unify_spec(b, *pat, *e).unwrap().dom().contains(k) ==> wf_expr(
                #[trigger] unify_spec(b, *pat, *e).unwrap()[k],
                n,
            ),
    decreases *pat,
{
    match pat {
        Expr::App(p) => {
            match e {
                Expr::App(c) => {
                    lemma_unify_wf(b, &p.f, &c.f, n);
                    let ghost b2 = unify_spec(b, p.f, e->App_0.f).unwrap();
                    lemma_unify_wf(b2, &p.arg, &c.arg, n);
                },
                Expr::RedApp(c) => {
                    lemma_unify_wf(b, &p.f, &c.f, n);
                    let ghost b2 = unify_spec(b, p.f, rc_app(c).f).unwrap();
                    lemma_unify_wf(b2, &p.arg, &c.arg, n);
                },
                _ => {},
            }
        },
        _ => {},
    }
}

/// An instantiated replacement is well-formed whenever the replacement and
/// every bound subterm are.
pub proof fn lemma_subst_wf(b: Map<Id, Expr>, rep: &Expr, n: int)
    requires
        wf_expr(*rep, n),
        vars_of(*rep).subset_of(b.dom()),
        forall|k: Id| b.dom().contains(k) ==> wf_expr(#[trigger] b[k], n),
    ensures
        wf_expr(subst_spec(b, *rep), n),
    decreases *rep,
{
    match rep {
        Expr::Var { id, .. } => {
            assert(vars_of(*rep).contains(*id));
        },
        Expr::Fun { .. } => {},
        Expr::App(p) => {
            assert(vars_of(p.f).subset_of(vars_of(*rep)));
            assert(vars_of(p.arg).subset_of(vars_of(*rep)));
            lemma_subst_wf(b, &p.f, n);
            lemma_subst_wf(b, &p.arg, n);
        },
        Expr::RedApp(_) => {},
    }
}

/// Rebuild a replacement with its variables (and shadowed atoms) replaced
/// by their bound subterms; frozen bound subterms are aliased, not copied.
pub(crate) fn substitute(b: &Vec<(Id, Expr)>, rep: &Expr) -> (r: Expr)
    requires
        vars_of(*rep).subset_of(map_of(b@).dom()),
        no_red(*rep),
    ensures
        r == subst_spec(map_of(b@), *rep),
    decreases *rep,
{
    match rep {
        Expr::Var { id, .. } => {
            proof {
                assert(vars_of(*rep).contains(*id));
            }
            let found = lookup(b, *id);
            clone_expr(found.unwrap())
        },
        Expr::Fun { id, loc } => {
            let found = lookup(b, *id);
            match found {
                Option::Some(bound) => clone_expr(bound),
                Option::None => Expr::Fun { id: *id, loc: *loc },
            }
        },
        Expr::App(p) => {
            proof {
                assert(vars_of(p.f).subset_of(vars_of(*rep)));
                assert(vars_of(p.arg).subset_of(vars_of(*rep)));
            }
            let f2 = substitute(b, &p.f);
            let id2 = get_id(&f2);
            let arg2 = substitute(b, &p.arg);
            Expr::App(Box::new(App { id: id2, loc: p.loc, f: f2, arg: arg2 }))
        },
        Expr::RedApp(_) => {
            proof {
                assert(false);
            }
            clone_expr(rep)
        },
    }
}

/// Structural equality is reflexive: every term equals itself.
pub proof fn lemma_eq_spec_refl(e: &Expr)
    ensures
        eq_spec(*e, *e),
    decreases *e,
{
    match e {
        Expr::App(x) => {
            lemma_eq_spec_refl(&x.f);
            lemma_eq_spec_refl(&x.arg);
        },
        Expr::RedApp(x) => {
            lemma_eq_spec_refl(&x.f);
            lemma_eq_spec_refl(&x.arg);
        },
        _ => {},
    }
}

/// Non-linear matching: a pattern that repeats one variable in both
/// argument positions matches exactly the applications whose two
/// arguments are structurally equal; repeated variables force equal
/// instances.
pub proof fn lemma_nonlinear(fid: Id, x: Id, lp: Loc, lc: Loc, a: Expr, b: Expr)
    ensures
        ({
            let pat = Expr::App(
                Box::new(
                    App {
                        id: fid,
                        loc: lp,
                        f: Expr::App(
                            Box::new(
                                App {
                                    id: fid,
                                    loc: lp,
                                    f: Expr::Fun { id: fid, loc: lp },
                                    arg: Expr::Var { id: x, loc: lp },
                                },
                            ),
                        ),
                        arg: Expr::Var { id: x, loc: lp },
                    },
                ),
            );
            let cand = Expr::App(
                Box::new(
                    App {
                        id: fid,
                        loc: lc,
                        f: Expr::App(
                            Box::new(
                                App {
                                    id: fid,
                                    loc: lc,
                                    f: Expr::Fun { id: fid, loc: lc },
                                    arg: a,
                                },
                            ),
                        ),
                        arg: b,
                    },
                ),
            );
            unify_spec(Map::empty(), pat, cand) is Some <==> eq_spec(a, b)
        }),
{
    let inner_pat = Expr::App(
        Box::new(
            App {
                id: fid,
                loc: lp,
                f: Expr::Fun { id: fid, loc: lp },
                arg: Expr::Var { id: x, loc: lp },
            },
        ),
    );
    let inner_cand = Expr::App(
        Box::new(App { id: fid, loc: lc, f: Expr::Fun { id: fid, loc: lc }, arg: a }),
    );
    let m0 = Map::<Id, Expr>::empty();
    assert(unify_spec(m0, Expr::Fun { id: fid, loc: lp }, Expr::Fun { id: fid, loc: lc })
        == Option::Some(m0));
    assert(!m0.dom().contains(x));
    assert(unify_spec(m0, Expr::Var { id: x, loc: lp }, a) == Option::Some(m0.insert(x, a)));
    assert(unify_spec(m0, inner_pat, inner_cand) == Option::Some(m0.insert(x, a)));
    let m1 = m0.insert(x, a);
    assert(m1.dom().contains(x) && m1[x] == a);
    assert(unify_spec(m1, Expr::Var { id: x, loc: lp }, b) == if eq_spec(a, b) {
        Option::Some(m1)
    } else {
        Option::None::<Map<Id, Expr>>
    });
}

impl Def {
    /// Attempt to match this rule's pattern against `e`: on success `e` is
    /// rewritten in place to the instantiated replacement and true comes
    /// back; on failure `e` is left untouched and false comes back.
    pub fn apply(&self, e: &mut Expr) -> (r: bool)
        requires
            no_red(self.pat),
            no_red(self.rep),
            vars_of(self.rep).subset_of(vars_of(self.pat)),
        ensures
            r == (apply_def_spec(*self, *old(e)) is Some),
            r ==> *final(e) == apply_def_spec(*self, *old(e)).unwrap(),
            !r ==> *final(e) == *old(e),
            forall|n: int|
                r && wf_expr(self.pat, n) && wf_expr(self.rep, n) && wf_expr(*old(e), n)
                    ==> #[trigger] wf_expr(*final(e), n),
    {
        let mut bindings: Vec<(Id, Expr)> = Vec::new();
        proof {
            assert(map_of(bindings@) =~= Map::<Id, Expr>::empty());
        }
        if !unify(&mut bindings, &self.pat, e) {
            return false;
        }
        proof {
            lemma_unify_dom(Map::empty(), &self.pat, e);
            assert(vars_of(self.rep).subset_of(map_of(bindings@).dom()));
        }
        proof {
            assert forall|n: int|
                wf_expr(self.pat, n) && wf_expr(self.rep, n) && wf_expr(*e, n) implies wf_expr(
                subst_spec(map_of(bindings@), self.rep),
                n,
            ) by {
                lemma_unify_wf(Map::empty(), &self.pat, e, n);
                lemma_subst_wf(map_of(bindings@), &self.rep, n);
            }
        }
        let mut new_expr = substitute(&bindings, &self.rep);
        core::mem::swap(e, &mut new_expr);
        dispose(new_expr);
        while bindings.len() > 0
            invariant
                true,
            decreases bindings@.len(),
        {
            let bound = bindings.pop().unwrap();
            dispose(bound.1);
        }
        true
    }
}

} // verus!
