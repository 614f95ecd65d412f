//! The term model: the tagged term representation, structural equality,
//! canonical printing, iterative teardown, and the recursive-descent parser
//! for rule definitions and application terms.
use vstd::prelude::*;
use std::rc::Rc;

use crate::error::{Error, ErrorTy, Loc};
use crate::intern::{Alloc, DisplayWithAlloc, Id};
use crate::io::{find_sp, intern_one, lemma_find_sp};
use crate::token::{
    bad_char_text,
    end_at,
    expected_text,
    lemma_end_at_bounds,
    raw_at,
    raw_tok_text,
    tok_loc,
    RawTok,
    Scanner,
    TokenTy,
};

verus! {

/// One rewrite rule: `pat = rep;`, dispatched on the head handle of the
/// pattern. Closedness invariant: every variable of `rep` occurs in `pat`.
#[derive(Debug)]
pub struct Def {
    pub id: Id,
    pub loc: Loc,
    pub pat: Expr,
    pub rep: Expr,
}

/// A term. Application nodes come in two flavours: `App` is owned-mutable
/// (exclusively held, rewritten in place), `RedApp` is the same shape but
/// frozen: proven irreducible and held under shared reference-counted
/// ownership, so it can be aliased into several positions without copying.
/// The transition `App` to `RedApp` is one-directional.
///
/// Application chains can grow millions of nodes deep; a plain drop of
/// such a term unwinds them on the native call stack. Hand deep terms to
/// [`dispose`], which tears them down iteratively.
#[derive(Debug)]
pub enum Expr {
    /// A nullary named atom.
    Fun { id: Id, loc: Loc },
    /// A rewrite-rule variable occurrence.
    Var { id: Id, loc: Loc },
    /// A frozen, shareable application proven irreducible.
    RedApp(Rc<App>),
    /// An owned-mutable application node.
    App(Box<App>),
}

/// The shape shared by the two application flavours. `id` caches the
/// identifier at the leftmost end of the application spine.
#[derive(Debug)]
pub struct App {
    pub id: Id,
    pub loc: Loc,
    pub f: Expr,
    pub arg: Expr,
}

/// The identifier at the leftmost end of a term's application spine.
pub open spec fn head_of(e: Expr) -> Id
    decreases e,
{
    match e {
        Expr::Fun { id, .. } => id,
        Expr::Var { id, .. } => id,
        Expr::RedApp(b) => head_of(b.f),
        Expr::App(b) => head_of(b.f),
    }
}

/// The head handle as stored: the cached field of an application node,
/// the identifier itself of a leaf.
pub open spec fn cached_head(e: Expr) -> Id {
    match e {
        Expr::Fun { id, .. } => id,
        Expr::Var { id, .. } => id,
        Expr::RedApp(b) => b.id,
        Expr::App(b) => b.id,
    }
}

/// Structural well-formedness of a term against an interner of `n`
/// spellings: every handle was assigned by the interner, and every cached
/// head handle equals the head of the node's function subterm.
pub open spec fn wf_expr(e: Expr, n: int) -> bool
    decreases e,
{
    match e {
        Expr::Fun { id, .. } => id.0 < n,
        Expr::Var { id, .. } => id.0 < n,
        Expr::RedApp(b) => b.id == head_of(b.f) && wf_expr(b.f, n) && wf_expr(b.arg, n),
        Expr::App(b) => b.id == head_of(b.f) && wf_expr(b.f, n) && wf_expr(b.arg, n),
    }
}

/// Structural equality over handles and substructure, ignoring locations
/// and cached head handles. An owned and a frozen application never
/// compare equal, mirroring the one-directional freezing discipline.
pub open spec fn eq_spec(a: Expr, b: Expr) -> bool
    decreases a,
{
    match (a, b) {
        (Expr::Var { id: i1, .. }, Expr::Var { id: i2, .. }) => i1 == i2,
        (Expr::Fun { id: i1, .. }, Expr::Fun { id: i2, .. }) => i1 == i2,
        (Expr::RedApp(x), Expr::RedApp(y)) => eq_spec(x.f, y.f) && eq_spec(x.arg, y.arg),
        (Expr::App(x), Expr::App(y)) => eq_spec(x.f, y.f) && eq_spec(x.arg, y.arg),
        _ => false,
    }
}

/// The set of variable handles occurring in a term.
pub open spec fn vars_of(e: Expr) -> Set<Id>
    decreases e,
{
    match e {
        Expr::Var { id, .. } => Set::empty().insert(id),
        Expr::Fun { .. } => Set::empty(),
        Expr::RedApp(b) => vars_of(b.f).union(vars_of(b.arg)),
        Expr::App(b) => vars_of(b.f).union(vars_of(b.arg)),
    }
}


/// The variable handles occurring in a term, leftmost first, repeats kept.
pub open spec fn vars_seq(e: Expr) -> Seq<Id>
    decreases e,
{
    match e {
        Expr::Var { id, .. } => seq![id],
        Expr::Fun { .. } => Seq::empty(),
        Expr::RedApp(b) => vars_seq(b.f) + vars_seq(b.arg),
        Expr::App(b) => vars_seq(b.f) + vars_seq(b.arg),
    }
}

/// The ordered and the unordered readings of a term's variables agree on
/// membership.
pub proof fn lemma_vars_seq_set(e: &Expr)
    ensures
        forall|x: Id| vars_seq(*e).contains(x) <==> vars_of(*e).contains(x),
    decreases *e,
{
    match e {
        Expr::App(b) => {
            lemma_vars_seq_set(&b.f);
            lemma_vars_seq_set(&b.arg);
            lemma_concat_contains(vars_seq(b.f), vars_seq(b.arg));
            assert forall|x: Id|
                vars_seq(*e).contains(x) <==> vars_of(*e).contains(x) by {
                assert(vars_seq(*e) == vars_seq(b.f) + vars_seq(b.arg));
                assert((vars_seq(b.f) + vars_seq(b.arg)).contains(x) <==> vars_seq(b.f).contains(
                    x,
                ) || vars_seq(b.arg).contains(x));
                assert(vars_seq(b.f).contains(x) <==> vars_of(b.f).contains(x));
                assert(vars_seq(b.arg).contains(x) <==> vars_of(b.arg).contains(x));
            }
        },
        Expr::RedApp(b) => {
            lemma_vars_seq_set(&b.f);
            lemma_vars_seq_set(&b.arg);
            lemma_concat_contains(vars_seq(rc_app(b).f), vars_seq(rc_app(b).arg));
            assert forall|x: Id|
                vars_seq(*e).contains(x) <==> vars_of(*e).contains(x) by {
                assert(vars_seq(*e) == vars_seq(rc_app(b).f) + vars_seq(rc_app(b).arg));
                assert((vars_seq(rc_app(b).f) + vars_seq(rc_app(b).arg)).contains(x)
                    <==> vars_seq(rc_app(b).f).contains(x) || vars_seq(rc_app(b).arg).contains(x));
                assert(vars_seq(rc_app(b).f).contains(x) <==> vars_of(rc_app(b).f).contains(x));
                assert(vars_seq(rc_app(b).arg).contains(x) <==> vars_of(rc_app(b).arg).contains(
                    x,
                ));
            }
        },
        Expr::Var { id, .. } => {
            assert forall|x: Id|
                vars_seq(*e).contains(x) <==> vars_of(*e).contains(x) by {
                if x == *id {
                    assert(vars_seq(*e)[0] == x);
                }
            }
        },
        Expr::Fun { .. } => {
            assert(forall|x: Id| !vars_seq(*e).contains(x));
        },
    }
}

/// Membership in a concatenation is membership in either half.
pub proof fn lemma_concat_contains(a: Seq<Id>, b: Seq<Id>)
    ensures
        forall|x: Id| (a + b).contains(x) <==> a.contains(x) || b.contains(x),
{
    assert forall|x: Id| (a + b).contains(x) <==> a.contains(x) || b.contains(x) by {
        if (a + b).contains(x) {
            let i = choose|i: int| 0 <= i < (a + b).len() && (a + b)[i] == x;
            if i < a.len() {
                assert(a[i] == x);
            } else {
                assert(b[i - a.len()] == x);
            }
        }
        if a.contains(x) {
            let i = choose|i: int| 0 <= i < a.len() && a[i] == x;
            assert((a + b)[i] == x);
        }
        if b.contains(x) {
            let i = choose|i: int| 0 <= i < b.len() && b[i] == x;
            assert((a + b)[a.len() + i] == x);
        }
    }
}

/// Whether a term holds no frozen application. Patterns and replacements
/// built by the parser are all-owned.
pub open spec fn no_red(e: Expr) -> bool
    decreases e,
{
    match e {
        Expr::Fun { .. } => true,
        Expr::Var { .. } => true,
        Expr::RedApp(_) => false,
        Expr::App(b) => no_red(b.f) && no_red(b.arg),
    }
}

/// A structural size measure used by the iterative traversals.
pub open spec fn esize(e: Expr) -> nat
    decreases e,
{
    match e {
        Expr::Fun { .. } => 1,
        Expr::Var { .. } => 1,
        Expr::RedApp(b) => esize(b.f) + esize(b.arg) + 3,
        Expr::App(b) => esize(b.f) + esize(b.arg) + 3,
    }
}

impl Def {
    /// The interner-independent half of well-formedness: a non-variable
    /// all-owned pattern headed by the dispatch handle, an all-owned
    /// replacement, and closedness (every replacement variable occurs in
    /// the pattern).
    pub open spec fn closed_wf(&self) -> bool {
        &&& !(self.pat is Var)
        &&& no_red(self.pat)
        &&& no_red(self.rep)
        &&& self.id == head_of(self.pat)
        &&& vars_of(self.rep).subset_of(vars_of(self.pat))
    }

    /// A definition as the parser produces it: closed, and with every
    /// handle assigned by an interner of `n` spellings.
    pub open spec fn wf(&self, n: int) -> bool {
        &&& wf_expr(self.pat, n)
        &&& wf_expr(self.rep, n)
        &&& self.closed_wf()
    }
}

/// Relies on Rc::clone: returns a second handle to the same shared node,
/// without copying it.
#[verifier::external_body]
pub(crate) fn rc_clone(b: &Rc<App>) -> (r: Rc<App>)
    ensures
        *r == **b,
{
    Rc::clone(b)
}

/// A structurally identical copy of a term. Frozen subterms are aliased,
/// not copied.
pub fn clone_expr(e: &Expr) -> (r: Expr)
    ensures
        r == *e,
    decreases *e,
{
    match e {
        Expr::Fun { id, loc } => Expr::Fun { id: *id, loc: *loc },
        Expr::Var { id, loc } => Expr::Var { id: *id, loc: *loc },
        Expr::RedApp(b) => Expr::RedApp(rc_clone(b)),
        Expr::App(b) => Expr::App(
            Box::new(App { id: b.id, loc: b.loc, f: clone_expr(&b.f), arg: clone_expr(&b.arg) }),
        ),
    }
}

impl Clone for Expr {
    fn clone(&self) -> (r: Self)
        ensures
            r == *self,
    {
        clone_expr(self)
    }
}

/// Structural equality as a decision procedure for [`eq_spec`].
pub fn expr_eq(a: &Expr, b: &Expr) -> (r: bool)
    ensures
        r == eq_spec(*a, *b),
    decreases *a,
{
    match (a, b) {
        (Expr::Var { id: i1, .. }, Expr::Var { id: i2, .. }) => i1.0 == i2.0,
        (Expr::Fun { id: i1, .. }, Expr::Fun { id: i2, .. }) => i1.0 == i2.0,
        (Expr::RedApp(x), Expr::RedApp(y)) => expr_eq(&x.f, &y.f) && expr_eq(&x.arg, &y.arg),
        (Expr::App(x), Expr::App(y)) => expr_eq(&x.f, &y.f) && expr_eq(&x.arg, &y.arg),
        _ => false,
    }
}

impl Expr {
    /// The source position of the term's outermost node.
    pub fn loc(&self) -> (r: Loc)
        ensures
            r == self.spec_loc(),
    {
        match self {
            Expr::Var { loc, .. } => *loc,
            Expr::Fun { loc, .. } => *loc,
            Expr::App(b) => b.loc,
            Expr::RedApp(b) => b.loc,
        }
    }

    /// The source position of the term's outermost node.
    pub open spec fn spec_loc(&self) -> Loc {
        match self {
            Expr::Var { loc, .. } => *loc,
            Expr::Fun { loc, .. } => *loc,
            Expr::App(b) => b.loc,
            Expr::RedApp(b) => b.loc,
        }
    }
}

/// The application node behind a shared frozen handle, as a spec value.
pub open spec fn rc_app(c: &Rc<App>) -> App {
    **c
}

/// The stored head handle of a term, read without walking the spine.
pub fn get_id(e: &Expr) -> (r: Id)
    ensures
        r == cached_head(*e),
{
    match e {
        Expr::Var { id, .. } => *id,
        Expr::Fun { id, .. } => *id,
        Expr::App(b) => b.id,
        Expr::RedApp(b) => b.id,
    }
}

/// Wrap a rendering in parentheses when asked to.
pub open spec fn wrap(parens: bool, s: Seq<char>) -> Seq<char> {
    if parens {
        seq!['('] + s + seq![')']
    } else {
        s
    }
}

/// The canonical printed form of a term under an interner: space-separated
/// curried application, parenthesized exactly where omitting the
/// parentheses would change the parse; bare atoms and variables are never
/// parenthesized.
pub open spec fn render_spec(ids: Seq<Seq<char>>, e: Expr, parens: bool) -> Seq<char>
    decreases e,
{
    match e {
        Expr::Var { id, .. } => ids[id.0 as int],
        Expr::Fun { id, .. } => ids[id.0 as int],
        Expr::RedApp(b) => wrap(
            parens,
            render_spec(ids, b.f, false) + seq![' '] + render_spec(ids, b.arg, true),
        ),
        Expr::App(b) => wrap(
            parens,
            render_spec(ids, b.f, false) + seq![' '] + render_spec(ids, b.arg, true),
        ),
    }
}

/// Two terms that print alike: the same identifier at each leaf (whether
/// it stands as a variable or an atom), and the same application spine
/// (whether owned or frozen), positions and cached handles aside. Parsing
/// a printed term back reads bare argument identifiers as variables and
/// rebuilds every node owned, so the reparsed term agrees with the
/// original exactly up to this relation.
pub open spec fn same_display(a: Expr, b: Expr) -> bool
    decreases a,
{
    match a {
        Expr::Var { id: i1, .. } => match b {
            Expr::Var { id: i2, .. } => i1 == i2,
            Expr::Fun { id: i2, .. } => i1 == i2,
            _ => false,
        },
        Expr::Fun { id: i1, .. } => match b {
            Expr::Var { id: i2, .. } => i1 == i2,
            Expr::Fun { id: i2, .. } => i1 == i2,
            _ => false,
        },
        Expr::App(x) => match b {
            Expr::App(y) => same_display(x.f, y.f) && same_display(x.arg, y.arg),
            Expr::RedApp(y) => same_display(x.f, y.f) && same_display(x.arg, y.arg),
            _ => false,
        },
        Expr::RedApp(x) => match b {
            Expr::App(y) => same_display(x.f, y.f) && same_display(x.arg, y.arg),
            Expr::RedApp(y) => same_display(x.f, y.f) && same_display(x.arg, y.arg),
            _ => false,
        },
    }
}

/// Terms that print alike print alike: the canonical form depends on
/// nothing that [`same_display`] ignores. In particular a term that
/// reparsing has retagged and rebuilt prints exactly as it did before.
pub proof fn lemma_render_same_display(ids: Seq<Seq<char>>, a: &Expr, b: &Expr, parens: bool)
    requires
        same_display(*a, *b),
    ensures
        render_spec(ids, *a, parens) == render_spec(ids, *b, parens),
    decreases *a,
{
    match a {
        Expr::App(x) => {
            match b {
                Expr::App(y) => {
                    lemma_render_same_display(ids, &x.f, &y.f, false);
                    lemma_render_same_display(ids, &x.arg, &y.arg, true);
                },
                Expr::RedApp(y) => {
                    lemma_render_same_display(ids, &x.f, &y.f, false);
                    lemma_render_same_display(ids, &x.arg, &y.arg, true);
                },
                _ => {},
            }
        },
        Expr::RedApp(x) => {
            match b {
                Expr::App(y) => {
                    lemma_render_same_display(ids, &x.f, &y.f, false);
                    lemma_render_same_display(ids, &x.arg, &y.arg, true);
                },
                Expr::RedApp(y) => {
                    lemma_render_same_display(ids, &x.f, &y.f, false);
                    lemma_render_same_display(ids, &x.arg, &y.arg, true);
                },
                _ => {},
            }
        },
        _ => {},
    }
}

/// One pending step of the iterative printer.
enum PTask<'a> {
    /// Print a subterm, parenthesized if the flag asks for it.
    Term(&'a Expr, bool),
    /// Print the space between a function and its argument.
    Space,
    /// Print the closing parenthesis of an application.
    Close,
}

/// What one pending step will print.
spec fn task_chars(ids: Seq<Seq<char>>, t: PTask) -> Seq<char> {
    match t {
        PTask::Term(e, p) => render_spec(ids, *e, p),
        PTask::Space => seq![' '],
        PTask::Close => seq![')'],
    }
}

/// What a whole stack of pending steps will print, topmost step first.
spec fn tasks_chars(ids: Seq<Seq<char>>, ts: Seq<PTask>) -> Seq<char>
    decreases ts.len(),
{
    if ts.len() == 0 {
        Seq::empty()
    } else {
        task_chars(ids, ts.last()) + tasks_chars(ids, ts.drop_last())
    }
}

/// The printing work a pending step still holds.
spec fn task_weight(t: PTask) -> nat {
    match t {
        PTask::Term(e, _) => esize(*e),
        PTask::Space => 1,
        PTask::Close => 1,
    }
}

/// The printing work a whole stack still holds.
spec fn tasks_weight(ts: Seq<PTask>) -> nat
    decreases ts.len(),
{
    if ts.len() == 0 {
        0
    } else {
        task_weight(ts.last()) + tasks_weight(ts.drop_last())
    }
}

/// Every subterm awaiting printing is well-formed under the interner.
spec fn task_ok(n: int, t: PTask) -> bool {
    match t {
        PTask::Term(e, _) => wf_expr(*e, n),
        PTask::Space => true,
        PTask::Close => true,
    }
}

impl DisplayWithAlloc for Expr {
    open spec fn rendered(&self, al: Alloc) -> Seq<char> {
        render_spec(al@, *self, true)
    }

    open spec fn display_req(&self, al: Alloc) -> bool {
        wf_expr(*self, al@.len() as int)
    }

    /// Append the canonical printed form of the term, by an explicit,
    /// heap-allocated work stack, so that arbitrarily deep application
    /// chains print without exhausting the native call stack.
    fn display(&self, al: &Alloc, s: &mut String) {
        let mut st: Vec<PTask> = Vec::new();
        st.push(PTask::Term(self, true));
        proof {
            assert(st@.drop_last() =~= Seq::<PTask>::empty());
            assert(tasks_chars(al@, st@) == render_spec(al@, *self, true) + tasks_chars(
                al@,
                st@.drop_last(),
            ));
            assert(s@ + tasks_chars(al@, st@) =~= old(s)@ + render_spec(al@, *self, true));
        }
        while st.len() > 0
            invariant
                s@ + tasks_chars(al@, st@) == old(s)@ + render_spec(al@, *self, true),
                forall|i: int| 0 <= i < st@.len() ==> task_ok(al@.len() as int, #[trigger] st@[i]),
            decreases tasks_weight(st@),
        {
            let ghost prev = st@;
            let ghost prev_s = s@;
            let t = st.pop().unwrap();
            let ghost gt = t;
            proof {
                assert(prev.last() == gt);
                assert(prev.drop_last() == st@);
                assert(tasks_chars(al@, prev) == task_chars(al@, gt) + tasks_chars(al@, st@));
                assert(tasks_weight(prev) == task_weight(gt) + tasks_weight(st@));
            }
            match t {
                PTask::Space => {
                    s.append(" ");
                    proof {
                        reveal_strlit(" ");
                        assert(s@ + tasks_chars(al@, st@) =~= prev_s + tasks_chars(al@, prev));
                    }
                },
                PTask::Close => {
                    s.append(")");
                    proof {
                        reveal_strlit(")");
                        assert(s@ + tasks_chars(al@, st@) =~= prev_s + tasks_chars(al@, prev));
                    }
                },
                PTask::Term(e, parens) => {
                    match e {
                        Expr::Var { id, .. } => {
                            s.append(al.get_string(id));
                            proof {
                                assert(s@ + tasks_chars(al@, st@) =~= prev_s + tasks_chars(
                                    al@,
                                    prev,
                                ));
                            }
                        },
                        Expr::Fun { id, .. } => {
                            s.append(al.get_string(id));
                            proof {
                                assert(s@ + tasks_chars(al@, st@) =~= prev_s + tasks_chars(
                                    al@,
                                    prev,
                                ));
                            }
                        },
                        Expr::RedApp(b) => {
                            let ghost mid = st@;
                            let ghost mid_s = s@;
                            if parens {
                                proof {
                                    reveal_strlit("(");
                                }
                                s.append("(");
                                st.push(PTask::Close);
                                proof {
                                    assert(s@ =~= mid_s + seq!['(']);
                                }
                            }
                            let ghost open = st@;
                            let ghost open_s = s@;
                            st.push(PTask::Term(&b.arg, true));
                            st.push(PTask::Space);
                            st.push(PTask::Term(&b.f, false));
                            proof {
                                lemma_app_step(al@, mid, mid_s, open, open_s, st@, s@, &b.f, &b.arg, parens);
                                assert(s@ + tasks_chars(al@, st@) =~= mid_s + wrap(
                                    parens,
                                    render_spec(al@, b.f, false) + seq![' '] + render_spec(
                                        al@,
                                        b.arg,
                                        true,
                                    ),
                                ) + tasks_chars(al@, mid));
                            }
                        },
                        Expr::App(b) => {
                            let ghost mid = st@;
                            let ghost mid_s = s@;
                            if parens {
                                proof {
                                    reveal_strlit("(");
                                }
                                s.append("(");
                                st.push(PTask::Close);
                                proof {
                                    assert(s@ =~= mid_s + seq!['(']);
                                }
                            }
                            let ghost open = st@;
                            let ghost open_s = s@;
                            st.push(PTask::Term(&b.arg, true));
                            st.push(PTask::Space);
                            st.push(PTask::Term(&b.f, false));
                            proof {
                                lemma_app_step(al@, mid, mid_s, open, open_s, st@, s@, &b.f, &b.arg, parens);
                                assert(s@ + tasks_chars(al@, st@) =~= mid_s + wrap(
                                    parens,
                                    render_spec(al@, b.f, false) + seq![' '] + render_spec(
                                        al@,
                                        b.arg,
                                        true,
                                    ),
                                ) + tasks_chars(al@, mid));
                            }
                        },
                    }
                },
            }
        }
        proof {
            assert(s@ + tasks_chars(al@, st@) =~= s@);
        }
    }
}

/// After expanding one application node into its printing steps, the text
/// still owed by the stack is unchanged, and its weight went down.
proof fn lemma_app_step(
    ids: Seq<Seq<char>>,
    mid: Seq<PTask>,
    mid_s: Seq<char>,
    open: Seq<PTask>,
    open_s: Seq<char>,
    fin: Seq<PTask>,
    fin_s: Seq<char>,
    f: &Expr,
    arg: &Expr,
    parens: bool,
)
    requires
        parens ==> open == mid.push(PTask::Close) && open_s == mid_s + seq!['('],
        !parens ==> open == mid && open_s == mid_s,
        fin == open.push(PTask::Term(arg, true)).push(PTask::Space).push(
            PTask::Term(f, false),
        ),
        fin_s == open_s,
    ensures
        fin_s + tasks_chars(ids, fin) == mid_s + wrap(
            parens,
            render_spec(ids, *f, false) + seq![' '] + render_spec(ids, *arg, true),
        ) + tasks_chars(ids, mid),
        tasks_weight(fin) + 1 <= tasks_weight(mid) + esize(*f) + esize(*arg) + 3,
{
    let t_arg = PTask::Term(arg, true);
    let t_f = PTask::Term(f, false);
    let two = open.push(t_arg).push(PTask::Space);
    assert(fin.drop_last() =~= two);
    assert(two.drop_last() =~= open.push(t_arg));
    assert(open.push(t_arg).drop_last() =~= open);
    assert(tasks_chars(ids, fin) == render_spec(ids, *f, false) + tasks_chars(ids, two));
    assert(tasks_chars(ids, two) == seq![' '] + tasks_chars(ids, open.push(t_arg)));
    assert(tasks_chars(ids, open.push(t_arg)) == render_spec(ids, *arg, true) + tasks_chars(
        ids,
        open,
    ));
    assert(tasks_weight(fin) == esize(*f) + tasks_weight(two));
    assert(tasks_weight(two) == 1 + tasks_weight(open.push(t_arg)));
    assert(tasks_weight(open.push(t_arg)) == esize(*arg) + tasks_weight(open));
    if parens {
        assert(open.drop_last() =~= mid);
        assert(tasks_chars(ids, open) == seq![')'] + tasks_chars(ids, mid));
        assert(tasks_weight(open) == 1 + tasks_weight(mid));
        assert(fin_s + tasks_chars(ids, fin) =~= mid_s + wrap(
            parens,
            render_spec(ids, *f, false) + seq![' '] + render_spec(ids, *arg, true),
        ) + tasks_chars(ids, mid));
        assert(fin_s + tasks_chars(ids, fin) == mid_s + wrap(
            parens,
            render_spec(ids, *f, false) + seq![' '] + render_spec(ids, *arg, true),
        ) + tasks_chars(ids, mid));
    } else {
        assert(fin_s + tasks_chars(ids, fin) =~= mid_s + wrap(
            parens,
            render_spec(ids, *f, false) + seq![' '] + render_spec(ids, *arg, true),
        ) + tasks_chars(ids, mid));
        assert(fin_s + tasks_chars(ids, fin) == mid_s + wrap(
            parens,
            render_spec(ids, *f, false) + seq![' '] + render_spec(ids, *arg, true),
        ) + tasks_chars(ids, mid));
    }
}

/// The summed size of a stack of terms awaiting teardown.
pub open spec fn stack_size(ts: Seq<Expr>) -> nat
    decreases ts.len(),
{
    if ts.len() == 0 {
        0
    } else {
        esize(ts.last()) + stack_size(ts.drop_last())
    }
}

/// Structural teardown of a term by an explicit, heap-allocated work
/// stack, so that arbitrarily deep application chains are destroyed
/// without exhausting the native call stack. A frozen node still shared
/// from elsewhere is released, not dismantled.
pub fn dispose(e: Expr) {
    let mut st: Vec<Expr> = Vec::new();
    st.push(e);
    while st.len() > 0
        invariant
            true,
        decreases stack_size(st@),
    {
        let ghost prev = st@;
        let x = st.pop().unwrap();
        let ghost gx = x;
        match x {
            Expr::Fun { .. } => {
                proof {
                    assert(stack_size(st@) < stack_size(prev));
                }
            },
            Expr::Var { .. } => {
                proof {
                    assert(stack_size(st@) < stack_size(prev));
                }
            },
            Expr::App(b) => {
                let ghost mid = st@;
                let node = *b;
                let ghost gf = node.f;
                let ghost ga = node.arg;
                st.push(node.f);
                st.push(node.arg);
                proof {
                    assert(st@.drop_last() =~= mid.push(gf));
                    assert(mid.push(gf).drop_last() =~= mid);
                    assert(esize(gx) == esize(gf) + esize(ga) + 3);
                    assert(st@.last() == ga);
                    assert(stack_size(st@) == esize(ga) + stack_size(st@.drop_last()));
                    assert(stack_size(st@.drop_last()) == stack_size(mid.push(gf)));
                    assert(stack_size(mid.push(gf)) == esize(gf) + stack_size(mid));
                    assert(prev.last() == gx);
                    assert(prev.drop_last() == mid);
                    assert(stack_size(prev) == esize(gx) + stack_size(mid));
                    assert(stack_size(st@) < stack_size(prev));
                }
            },
            Expr::RedApp(rc) => {
                match Rc::try_unwrap(rc) {
                    Ok(node) => {
                        let ghost mid = st@;
                        let ghost gf = node.f;
                        let ghost ga = node.arg;
                        st.push(node.f);
                        st.push(node.arg);
                        proof {
                            assert(st@.drop_last() =~= mid.push(gf));
                            assert(mid.push(gf).drop_last() =~= mid);
                            assert(esize(gx) == esize(gf) + esize(ga) + 3);
                            assert(st@.last() == ga);
                            assert(stack_size(st@) == esize(ga) + stack_size(st@.drop_last()));
                            assert(stack_size(st@.drop_last()) == stack_size(mid.push(gf)));
                            assert(stack_size(mid.push(gf)) == esize(gf) + stack_size(mid));
                            assert(prev.last() == gx);
                            assert(prev.drop_last() == mid);
                            assert(stack_size(prev) == esize(gx) + stack_size(mid));
                            assert(stack_size(st@) < stack_size(prev));
                        }
                    },
                    Err(_) => {
                        proof {
                            assert(stack_size(st@) < stack_size(prev));
                        }
                    },
                }
            },
        }
    }
}

/// Well-formedness only ever asks that handles lie below the interner's
/// size, so it survives the interner growing.
pub proof fn lemma_wf_expr_mono(e: Expr, n: int, m: int)
    requires
        wf_expr(e, n),
        n <= m,
    ensures
        wf_expr(e, m),
    decreases e,
{
    match e {
        Expr::App(b) => {
            lemma_wf_expr_mono(b.f, n, m);
            lemma_wf_expr_mono(b.arg, n, m);
        },
        Expr::RedApp(b) => {
            lemma_wf_expr_mono(rc_app(&b).f, n, m);
            lemma_wf_expr_mono(rc_app(&b).arg, n, m);
        },
        _ => {},
    }
}


/// What the specification-level parser delivers: the parse failed with an
/// error of this kind, position and text; or it delivered a head handle,
/// a position, a term, the cursor past it and the grown interner; or its
/// step bound ran out (a sufficient bound never does, and the bounds the
/// executable parser is specified against are sufficient).
pub enum PRes {
    Fail(ErrorTy, Loc, Seq<char>),
    Done(Id, Loc, Expr, int, Seq<Seq<char>>),
    Short,
}

/// The specification-level parse of one expression at cursor `i`: a bare
/// identifier (an atom in head position, a variable elsewhere), or `(`,
/// one head-position expression, any number of argument expressions and
/// `)`, applied left-associatively.
pub open spec fn sp_expr(fuel: nat, ids: Seq<Seq<char>>, s: Seq<char>, i: int, is_func: bool) -> PRes
    decreases fuel,
{
    if fuel == 0 {
        PRes::Short
    } else {
        match raw_at(s, i) {
            RawTok::RLparen => match sp_expr((fuel - 1) as nat, ids, s, end_at(s, i), true) {
                PRes::Done(id, loc, head, k, ids2) => sp_args(
                    (fuel - 1) as nat,
                    ids2,
                    s,
                    k,
                    id,
                    loc,
                    head,
                ),
                other => other,
            },
            RawTok::RIdent(sp) => {
                let loc = tok_loc(s, i);
                let r = intern_one(ids, sp);
                PRes::Done(
                    r.1,
                    loc,
                    if is_func {
                        Expr::Fun { id: r.1, loc }
                    } else {
                        Expr::Var { id: r.1, loc }
                    },
                    end_at(s, i),
                    r.0,
                )
            },
            RawTok::RBad(c) => PRes::Fail(ErrorTy::SyntaxError, tok_loc(s, i), bad_char_text(c)),
            rt => PRes::Fail(
                ErrorTy::SyntaxError,
                tok_loc(s, i),
                "expected identifier, found "@ + raw_tok_text(rt),
            ),
        }
    }
}

/// The specification-level parse of an application's argument list: each
/// argument expression extends the left-nested application `acc` until the
/// closing parenthesis.
pub open spec fn sp_args(
    fuel: nat,
    ids: Seq<Seq<char>>,
    s: Seq<char>,
    i: int,
    id: Id,
    loc: Loc,
    acc: Expr,
) -> PRes
    decreases fuel,
{
    if fuel == 0 {
        PRes::Short
    } else {
        match raw_at(s, i) {
            RawTok::RRparen => PRes::Done(id, loc, acc, end_at(s, i), ids),
            RawTok::RBad(c) => PRes::Fail(ErrorTy::SyntaxError, tok_loc(s, i), bad_char_text(c)),
            _ => match sp_expr((fuel - 1) as nat, ids, s, i, false) {
                PRes::Done(_aid, _aloc, arg, k, ids2) => sp_args(
                    (fuel - 1) as nat,
                    ids2,
                    s,
                    k,
                    id,
                    loc,
                    Expr::App(Box::new(App { id, loc, f: acc, arg })),
                ),
                other => other,
            },
        }
    }
}

/// A delivered parse moved the cursor strictly forward, to at most the end.
pub proof fn lemma_sp_expr_progress(
    fuel: nat,
    ids: Seq<Seq<char>>,
    s: Seq<char>,
    i: int,
    is_func: bool,
)
    requires
        0 <= i <= s.len(),
    ensures
        sp_expr(fuel, ids, s, i, is_func) matches PRes::Done(_, _, _, j, _) ==> i < j <= s.len(),
    decreases fuel,
{
    lemma_end_at_bounds(s, i);
    if fuel > 0 {
        match raw_at(s, i) {
            RawTok::RLparen => {
                lemma_sp_expr_progress((fuel - 1) as nat, ids, s, end_at(s, i), true);
                match sp_expr((fuel - 1) as nat, ids, s, end_at(s, i), true) {
                    PRes::Done(id, loc, head, k, ids2) => {
                        lemma_sp_args_progress((fuel - 1) as nat, ids2, s, k, id, loc, head);
                    },
                    _ => {},
                }
            },
            _ => {},
        }
    }
}

/// A delivered argument list moved the cursor strictly forward, to at most
/// the end.
pub proof fn lemma_sp_args_progress(
    fuel: nat,
    ids: Seq<Seq<char>>,
    s: Seq<char>,
    i: int,
    id: Id,
    loc: Loc,
    acc: Expr,
)
    requires
        0 <= i <= s.len(),
    ensures
        sp_args(fuel, ids, s, i, id, loc, acc) matches PRes::Done(_, _, _, j, _) ==> i < j
            <= s.len(),
    decreases fuel,
{
    lemma_end_at_bounds(s, i);
    if fuel > 0 {
        match raw_at(s, i) {
            RawTok::RRparen => {},
            RawTok::RBad(_) => {},
            _ => {
                lemma_sp_expr_progress((fuel - 1) as nat, ids, s, i, false);
                match sp_expr((fuel - 1) as nat, ids, s, i, false) {
                    PRes::Done(_a, _al, arg, k, ids2) => {
                        lemma_sp_args_progress(
                            (fuel - 1) as nat,
                            ids2,
                            s,
                            k,
                            id,
                            loc,
                            Expr::App(Box::new(App { id, loc, f: acc, arg })),
                        );
                    },
                    _ => {},
                }
            },
        }
    }
}

/// With fuel beyond the remaining text, a parse never runs out of steps.
pub proof fn lemma_sp_expr_total(
    fuel: nat,
    ids: Seq<Seq<char>>,
    s: Seq<char>,
    i: int,
    is_func: bool,
)
    requires
        0 <= i <= s.len(),
        fuel >= s.len() - i + 2,
    ensures
        !(sp_expr(fuel, ids, s, i, is_func) is Short),
    decreases fuel,
{
    lemma_end_at_bounds(s, i);
    match raw_at(s, i) {
        RawTok::RLparen => {
            lemma_sp_expr_total((fuel - 1) as nat, ids, s, end_at(s, i), true);
            lemma_sp_expr_progress((fuel - 1) as nat, ids, s, end_at(s, i), true);
            match sp_expr((fuel - 1) as nat, ids, s, end_at(s, i), true) {
                PRes::Done(id, loc, head, k, ids2) => {
                    lemma_sp_args_total((fuel - 1) as nat, ids2, s, k, id, loc, head);
                },
                _ => {},
            }
        },
        _ => {},
    }
}

/// With fuel beyond the remaining text, an argument list never runs out of
/// steps.
pub proof fn lemma_sp_args_total(
    fuel: nat,
    ids: Seq<Seq<char>>,
    s: Seq<char>,
    i: int,
    id: Id,
    loc: Loc,
    acc: Expr,
)
    requires
        0 <= i <= s.len(),
        fuel >= s.len() - i + 3,
    ensures
        !(sp_args(fuel, ids, s, i, id, loc, acc) is Short),
    decreases fuel,
{
    match raw_at(s, i) {
        RawTok::RRparen => {},
        RawTok::RBad(_) => {},
        _ => {
            lemma_sp_expr_total((fuel - 1) as nat, ids, s, i, false);
            lemma_sp_expr_progress((fuel - 1) as nat, ids, s, i, false);
            match sp_expr((fuel - 1) as nat, ids, s, i, false) {
                PRes::Done(_a, _al, arg, k, ids2) => {
                    lemma_sp_args_total(
                        (fuel - 1) as nat,
                        ids2,
                        s,
                        k,
                        id,
                        loc,
                        Expr::App(Box::new(App { id, loc, f: acc, arg })),
                    );
                },
                _ => {},
            }
        },
    }
}

/// A parse that did not run out of steps is unchanged by allowing more.
pub proof fn lemma_sp_expr_mono(
    f1: nat,
    f2: nat,
    ids: Seq<Seq<char>>,
    s: Seq<char>,
    i: int,
    is_func: bool,
)
    requires
        f1 <= f2,
        !(sp_expr(f1, ids, s, i, is_func) is Short),
    ensures
        sp_expr(f2, ids, s, i, is_func) == sp_expr(f1, ids, s, i, is_func),
    decreases f1,
{
    if f1 > 0 {
        match raw_at(s, i) {
            RawTok::RLparen => {
                lemma_sp_expr_mono((f1 - 1) as nat, (f2 - 1) as nat, ids, s, end_at(s, i), true);
                match sp_expr((f1 - 1) as nat, ids, s, end_at(s, i), true) {
                    PRes::Done(id, loc, head, k, ids2) => {
                        lemma_sp_args_mono(
                            (f1 - 1) as nat,
                            (f2 - 1) as nat,
                            ids2,
                            s,
                            k,
                            id,
                            loc,
                            head,
                        );
                    },
                    _ => {},
                }
            },
            _ => {},
        }
    }
}

/// An argument list that did not run out of steps is unchanged by allowing
/// more.
pub proof fn lemma_sp_args_mono(
    f1: nat,
    f2: nat,
    ids: Seq<Seq<char>>,
    s: Seq<char>,
    i: int,
    id: Id,
    loc: Loc,
    acc: Expr,
)
    requires
        f1 <= f2,
        !(sp_args(f1, ids, s, i, id, loc, acc) is Short),
    ensures
        sp_args(f2, ids, s, i, id, loc, acc) == sp_args(f1, ids, s, i, id, loc, acc),
    decreases f1,
{
    if f1 > 0 {
        match raw_at(s, i) {
            RawTok::RRparen => {},
            RawTok::RBad(_) => {},
            _ => {
                lemma_sp_expr_mono((f1 - 1) as nat, (f2 - 1) as nat, ids, s, i, false);
                match sp_expr((f1 - 1) as nat, ids, s, i, false) {
                    PRes::Done(_a, _al, arg, k, ids2) => {
                        lemma_sp_args_mono(
                            (f1 - 1) as nat,
                            (f2 - 1) as nat,
                            ids2,
                            s,
                            k,
                            id,
                            loc,
                            Expr::App(Box::new(App { id, loc, f: acc, arg })),
                        );
                    },
                    _ => {},
                }
            },
        }
    }
}

/// Interning a spelling the interner already ends with changes nothing.
pub proof fn lemma_intern_one_idem(ids: Seq<Seq<char>>, sp: Seq<char>)
    ensures
        intern_one(intern_one(ids, sp).0, sp) == intern_one(ids, sp),
    decreases ids.len(),
{
    lemma_find_sp(ids, sp);
    let grown = intern_one(ids, sp).0;
    lemma_find_sp(grown, sp);
    match find_sp(ids, sp) {
        Option::Some(_) => {},
        Option::None => {
            match find_sp(grown, sp) {
                Option::Some(j) => {
                    if j < ids.len() {
                        assert(grown[j] == ids[j]);
                        assert(ids.contains(sp));
                        assert(false);
                    }
                },
                Option::None => {
                    assert(grown[ids.len() as int] == sp);
                    assert(false);
                },
            }
        },
    }
}

/// An interner that grew by the scanner's first-occurrence discipline grew
/// exactly as [`intern_one`] says.
pub proof fn lemma_intern_one_agrees(
    old_ids: Seq<Seq<char>>,
    new_ids: Seq<Seq<char>>,
    sp: Seq<char>,
    x: Id,
)
    requires
        x.0 < new_ids.len(),
        new_ids[x.0 as int] == sp,
        forall|k: int| 0 <= k < x.0 ==> new_ids[k] != sp,
        old_ids.contains(sp) ==> new_ids == old_ids,
        !old_ids.contains(sp) ==> new_ids == old_ids.push(sp),
    ensures
        intern_one(old_ids, sp) == (new_ids, x),
{
    lemma_find_sp(old_ids, sp);
    if old_ids.contains(sp) {
        match find_sp(old_ids, sp) {
            Option::Some(j) => {
                if x.0 < j {
                    assert(old_ids[x.0 as int] != sp);
                    assert(false);
                }
                if j < x.0 {
                    assert(new_ids[j] != sp);
                    assert(false);
                }
                assert(j == x.0 as int);
                assert(Id(j as usize) == x);
            },
            Option::None => {
                let w = choose|w: int| 0 <= w < old_ids.len() && old_ids[w] == sp;
                assert(old_ids[w] != sp);
                assert(false);
            },
        }
    } else {
        match find_sp(old_ids, sp) {
            Option::Some(j) => {
                assert(old_ids.contains(sp));
                assert(false);
            },
            Option::None => {
                assert(new_ids[old_ids.len() as int] == sp);
                if x.0 < old_ids.len() {
                    assert(new_ids[x.0 as int] == old_ids[x.0 as int]);
                    assert(old_ids.contains(sp));
                    assert(false);
                }
                assert(x.0 as int == old_ids.len() as int);
                assert(Id(old_ids.len() as usize) == x);
            },
        }
    }
}


/// What the specification-level definition parser delivers: nothing at end
/// of input, a definition with the cursor past its `;` and the grown
/// interner, a failure, or an exhausted step bound.
pub enum PDefRes {
    DNone,
    DSome(Def, int, Seq<Seq<char>>),
    DFail(ErrorTy, Loc, Seq<char>),
    DShort,
}

/// The specification-level parse of one rule definition at cursor `i`:
/// nothing at end of input, else `pattern = replacement ;`, the pattern no
/// bare variable.
pub open spec fn sp_def(fuel: nat, ids: Seq<Seq<char>>, s: Seq<char>, i: int) -> PDefRes
    decreases fuel,
{
    if fuel == 0 {
        PDefRes::DShort
    } else {
        match raw_at(s, i) {
            RawTok::REof => PDefRes::DNone,
            RawTok::RBad(c) => PDefRes::DFail(ErrorTy::SyntaxError, tok_loc(s, i), bad_char_text(c)),
            _ => match sp_expr((fuel - 1) as nat, ids, s, i, false) {
                PRes::Done(id, loc, pat, j, ids1) => {
                    if pat is Var {
                        PDefRes::DFail(ErrorTy::SyntaxError, loc, "bare variables are not allowed"@)
                    } else {
                        match raw_at(s, j) {
                            RawTok::RBad(c) => PDefRes::DFail(
                                ErrorTy::SyntaxError,
                                tok_loc(s, j),
                                bad_char_text(c),
                            ),
                            RawTok::REqual => match sp_expr(
                                (fuel - 1) as nat,
                                ids1,
                                s,
                                end_at(s, j),
                                false,
                            ) {
                                PRes::Done(_ri, _rl, rep, k, ids2) => match raw_at(s, k) {
                                    RawTok::RBad(c) => PDefRes::DFail(
                                        ErrorTy::SyntaxError,
                                        tok_loc(s, k),
                                        bad_char_text(c),
                                    ),
                                    RawTok::RSemi => PDefRes::DSome(
                                        Def { id, loc, pat, rep },
                                        end_at(s, k),
                                        ids2,
                                    ),
                                    rt => PDefRes::DFail(
                                        ErrorTy::SyntaxError,
                                        tok_loc(s, k),
                                        expected_text(ids2, TokenTy::Semi, rt),
                                    ),
                                },
                                PRes::Fail(t, l, d) => PDefRes::DFail(t, l, d),
                                PRes::Short => PDefRes::DShort,
                            },
                            rt => PDefRes::DFail(
                                ErrorTy::SyntaxError,
                                tok_loc(s, j),
                                expected_text(ids1, TokenTy::Equal, rt),
                            ),
                        }
                    }
                },
                PRes::Fail(t, l, d) => PDefRes::DFail(t, l, d),
                PRes::Short => PDefRes::DShort,
            },
        }
    }
}

/// A delivered definition moved the cursor strictly forward, to at most
/// the end.
pub proof fn lemma_sp_def_progress(fuel: nat, ids: Seq<Seq<char>>, s: Seq<char>, i: int)
    requires
        0 <= i <= s.len(),
    ensures
        sp_def(fuel, ids, s, i) matches PDefRes::DSome(_, j, _) ==> i < j <= s.len(),
    decreases fuel,
{
    lemma_end_at_bounds(s, i);
    if fuel > 0 {
        match raw_at(s, i) {
            RawTok::REof => {},
            RawTok::RBad(_) => {},
            _ => {
                lemma_sp_expr_progress((fuel - 1) as nat, ids, s, i, false);
                match sp_expr((fuel - 1) as nat, ids, s, i, false) {
                    PRes::Done(id, loc, pat, j, ids1) => {
                        lemma_end_at_bounds(s, j);
                        lemma_sp_expr_progress((fuel - 1) as nat, ids1, s, end_at(s, j), false);
                        match sp_expr((fuel - 1) as nat, ids1, s, end_at(s, j), false) {
                            PRes::Done(_ri, _rl, rep, k, ids2) => {
                                lemma_end_at_bounds(s, k);
                            },
                            _ => {},
                        }
                    },
                    _ => {},
                }
            },
        }
    }
}

/// With fuel beyond the remaining text, a definition parse never runs out
/// of steps.
pub proof fn lemma_sp_def_total(fuel: nat, ids: Seq<Seq<char>>, s: Seq<char>, i: int)
    requires
        0 <= i <= s.len(),
        fuel >= s.len() - i + 3,
    ensures
        !(sp_def(fuel, ids, s, i) is DShort),
{
    lemma_end_at_bounds(s, i);
    match raw_at(s, i) {
        RawTok::REof => {},
        RawTok::RBad(_) => {},
        _ => {
            lemma_sp_expr_total((fuel - 1) as nat, ids, s, i, false);
            lemma_sp_expr_progress((fuel - 1) as nat, ids, s, i, false);
            match sp_expr((fuel - 1) as nat, ids, s, i, false) {
                PRes::Done(id, loc, pat, j, ids1) => {
                    lemma_end_at_bounds(s, j);
                    lemma_sp_expr_total((fuel - 1) as nat, ids1, s, end_at(s, j), false);
                },
                _ => {},
            }
        },
    }
}

/// A definition parse that did not run out of steps is unchanged by
/// allowing more.
pub proof fn lemma_sp_def_mono(f1: nat, f2: nat, ids: Seq<Seq<char>>, s: Seq<char>, i: int)
    requires
        f1 <= f2,
        !(sp_def(f1, ids, s, i) is DShort),
    ensures
        sp_def(f2, ids, s, i) == sp_def(f1, ids, s, i),
{
    if f1 > 0 {
        match raw_at(s, i) {
            RawTok::REof => {},
            RawTok::RBad(_) => {},
            _ => {
                if !(sp_expr((f1 - 1) as nat, ids, s, i, false) is Short) {
                    lemma_sp_expr_mono((f1 - 1) as nat, (f2 - 1) as nat, ids, s, i, false);
                }
                match sp_expr((f1 - 1) as nat, ids, s, i, false) {
                    PRes::Done(id, loc, pat, j, ids1) => {
                        if !(sp_expr((f1 - 1) as nat, ids1, s, end_at(s, j), false) is Short) {
                            lemma_sp_expr_mono(
                                (f1 - 1) as nat,
                                (f2 - 1) as nat,
                                ids1,
                                s,
                                end_at(s, j),
                                false,
                            );
                        }
                    },
                    _ => {},
                }
            },
        }
    }
}

/// The recursive-descent parser: builds rule definitions and application
/// terms over a scanner, computing each application's head handle eagerly.
pub struct Parser {
    pub sc: Scanner,
}

impl Parser {
    /// A parser over the given scanner.
    pub fn new(sc: Scanner) -> (r: Self)
        ensures
            r.sc == sc,
    {
        Parser { sc }
    }

    /// Parse one expression: a bare identifier (a function head when
    /// `is_func`, else a variable occurrence), or a parenthesized
    /// left-associative application. Returns the head handle, the position,
    /// and the term.
    pub fn parse_expr(&mut self, alloc: &mut Alloc, is_func: bool) -> (r: Result<
        (Id, Loc, Expr),
        Error,
    >)
        requires
            old(self).sc.wf(old(alloc)@),
            old(alloc).wf(),
        ensures
            final(alloc).wf(),
            old(alloc)@.is_prefix_of(final(alloc)@),
            final(self).sc.wf(final(alloc)@),
            final(self).sc.src() == old(self).sc.src(),
            old(self).sc.cursor() <= final(self).sc.cursor(),
            ({
                let spr = sp_expr(
                    (old(self).sc.src().len() - old(self).sc.cursor() + 2) as nat,
                    old(alloc)@,
                    old(self).sc.src(),
                    old(self).sc.cursor(),
                    is_func,
                );
                match r {
                    Result::Ok(t) => spr == PRes::Done(
                        t.0,
                        t.1,
                        t.2,
                        final(self).sc.cursor(),
                        final(alloc)@,
                    ),
                    Result::Err(e) => spr == PRes::Fail(e.ty, e.loc, e.desc@),
                }
            }),
            r matches Result::Err(e) ==> e.ty == ErrorTy::SyntaxError,
            r matches Result::Ok(t) ==> {
                &&& wf_expr(t.2, final(alloc)@.len() as int)
                &&& no_red(t.2)
                &&& head_of(t.2) == t.0
                &&& t.0.0 < final(alloc)@.len()
                &&& old(self).sc.cursor() < final(self).sc.cursor()
                &&& (t.2 is Var ==> !is_func)
                &&& (is_func ==> t.2 is Fun || t.2 is App)
            },
        decreases self.sc.src().len() - self.sc.cursor(),
    {
        proof {
            self.sc.lemma_cursor_bounds(alloc@);
        }
        let ghost src = self.sc.src();
        let ghost c0 = self.sc.cursor();
        let ghost len = src.len() as int;
        let ghost ids0 = alloc@;
        let ghost f0 = (len - c0 + 2) as nat;
        let lp = self.sc.is_token(alloc, TokenTy::Lparen);
        match lp {
            Result::Err(e) => Result::Err(e),
            Result::Ok(false) => {
                let ghost ids_m = alloc@;
                let idr = self.sc.expect_identifier(alloc);
                proof {
                    lemma_end_at_bounds(src, c0);
                    match raw_at(src, c0) {
                        RawTok::RIdent(sp) => {
                            lemma_find_sp(ids0, sp);
                            if !ids0.contains(sp) {
                                assert(ids_m[ids0.len() as int] == sp);
                            }
                            assert(ids_m.contains(sp));
                        },
                        _ => {},
                    }
                }
                match idr {
                    Result::Err(e) => Result::Err(e),
                    Result::Ok((loc, id)) => {
                        proof {
                            match raw_at(src, c0) {
                                RawTok::RIdent(sp) => {
                                    lemma_intern_one_agrees(ids0, alloc@, sp, id);
                                },
                                _ => {
                                    assert(false);
                                },
                            }
                        }
                        if is_func {
                            Result::Ok((id, loc, Expr::Fun { id, loc }))
                        } else {
                            Result::Ok((id, loc, Expr::Var { id, loc }))
                        }
                    },
                }
            },
            Result::Ok(true) => {
                proof {
                    lemma_end_at_bounds(src, c0);
                    self.sc.lemma_cursor_bounds(alloc@);
                }
                let ghost c1 = self.sc.cursor();
                let head = self.parse_expr(alloc, true);
                proof {
                    lemma_sp_expr_total((len - c1 + 2) as nat, ids0, src, c1, true);
                    lemma_sp_expr_progress((len - c1 + 2) as nat, ids0, src, c1, true);
                    lemma_sp_expr_mono(
                        (len - c1 + 2) as nat,
                        (f0 - 1) as nat,
                        ids0,
                        src,
                        c1,
                        true,
                    );
                }
                match head {
                    Result::Err(e) => Result::Err(e),
                    Result::Ok((id, loc, first)) => {
                        proof {
                            let c2 = self.sc.cursor();
                            lemma_sp_args_total(
                                (len - c2 + 3) as nat,
                                alloc@,
                                src,
                                c2,
                                id,
                                loc,
                                first,
                            );
                            lemma_sp_args_mono(
                                (len - c2 + 3) as nat,
                                (f0 - 1) as nat,
                                alloc@,
                                src,
                                c2,
                                id,
                                loc,
                                first,
                            );
                        }
                        let mut res = first;
                        let mut finished = false;
                        while !finished
                            invariant
                                self.sc.wf(alloc@),
                                alloc.wf(),
                                old(alloc)@.is_prefix_of(alloc@),
                                self.sc.src() == src,
                                len == src.len() as int,
                                ids0 == old(alloc)@,
                                f0 == (len - c0 + 2) as nat,
                                c0 < self.sc.cursor() <= len,
                                src == old(self).sc.src(),
                                c0 == old(self).sc.cursor(),
                                wf_expr(res, alloc@.len() as int),
                                no_red(res),
                                head_of(res) == id,
                                id.0 < alloc@.len(),
                                res is Fun || res is App,
                                !finished ==> sp_expr(f0, ids0, src, c0, is_func) == sp_args(
                                    (len - self.sc.cursor() + 3) as nat,
                                    alloc@,
                                    src,
                                    self.sc.cursor(),
                                    id,
                                    loc,
                                    res,
                                ),
                                finished ==> sp_expr(f0, ids0, src, c0, is_func) == PRes::Done(
                                    id,
                                    loc,
                                    res,
                                    self.sc.cursor(),
                                    alloc@,
                                ),
                            decreases self.sc.src().len() - self.sc.cursor() + (if finished {
                                0int
                            } else {
                                1int
                            }),
                        {
                            proof {
                                self.sc.lemma_cursor_bounds(alloc@);
                            }
                            let ghost ci = self.sc.cursor();
                            let ghost ids_i = alloc@;
                            let ghost afi = (len - ci + 3) as nat;
                            let rp = self.sc.is_token(alloc, TokenTy::Rparen);
                            match rp {
                                Result::Err(e) => {
                                    dispose(res);
                                    return Result::Err(e);
                                },
                                Result::Ok(true) => {
                                    proof {
                                        lemma_end_at_bounds(src, ci);
                                        crate::intern::lemma_prefix_trans(
                                            old(alloc)@,
                                            ids_i,
                                            alloc@,
                                        );
                                        lemma_wf_expr_mono(
                                            res,
                                            ids_i.len() as int,
                                            alloc@.len() as int,
                                        );
                                        self.sc.lemma_cursor_bounds(alloc@);
                                    }
                                    finished = true;
                                },
                                Result::Ok(false) => {
                                    let ghost ids_m = alloc@;
                                    proof {
                                        match raw_at(src, ci) {
                                            RawTok::RIdent(sp) => {
                                                lemma_find_sp(ids_i, sp);
                                                if !ids_i.contains(sp) {
                                                    assert(ids_m[ids_i.len() as int] == sp);
                                                }
                                                assert(ids_m == intern_one(ids_i, sp).0);
                                                lemma_intern_one_idem(ids_i, sp);
                                            },
                                            _ => {
                                                assert(ids_m == ids_i);
                                            },
                                        }
                                    }
                                    let ghost cm = self.sc.cursor();
                                    let argr = self.parse_expr(alloc, false);
                                    proof {
                                        assert(cm == ci);
                                        assert(sp_expr(
                                            (len - ci + 2) as nat,
                                            ids_m,
                                            src,
                                            ci,
                                            false,
                                        ) == sp_expr((afi - 1) as nat, ids_i, src, ci, false));
                                    }
                                    match argr {
                                        Result::Err(e) => {
                                            dispose(res);
                                            return Result::Err(e);
                                        },
                                        Result::Ok((_aid, _aloc, arg)) => {
                                            proof {
                                                crate::intern::lemma_prefix_trans(
                                                    ids_i,
                                                    ids_m,
                                                    alloc@,
                                                );
                                                crate::intern::lemma_prefix_trans(
                                                    old(alloc)@,
                                                    ids_i,
                                                    alloc@,
                                                );
                                                lemma_wf_expr_mono(
                                                    res,
                                                    ids_i.len() as int,
                                                    alloc@.len() as int,
                                                );
                                                self.sc.lemma_cursor_bounds(alloc@);
                                                let ck = self.sc.cursor();
                                                let nres = Expr::App(
                                                    Box::new(App { id, loc, f: res, arg }),
                                                );
                                                lemma_sp_args_total(
                                                    (len - ck + 3) as nat,
                                                    alloc@,
                                                    src,
                                                    ck,
                                                    id,
                                                    loc,
                                                    nres,
                                                );
                                                lemma_sp_args_mono(
                                                    (len - ck + 3) as nat,
                                                    (afi - 1) as nat,
                                                    alloc@,
                                                    src,
                                                    ck,
                                                    id,
                                                    loc,
                                                    nres,
                                                );
                                            }
                                            res = Expr::App(
                                                Box::new(App { id, loc, f: res, arg }),
                                            );
                                        },
                                    }
                                },
                            }
                        }
                        Result::Ok((id, loc, res))
                    },
                }
            },
        }
    }

    /// Parse one rule definition, `pattern = replacement ;`, or nothing at
    /// end of input. A pattern that is a bare variable is rejected.
    pub fn parse_def(&mut self, alloc: &mut Alloc) -> (r: Result<Option<Def>, Error>)
        requires
            old(self).sc.wf(old(alloc)@),
            old(alloc).wf(),
        ensures
            final(alloc).wf(),
            old(alloc)@.is_prefix_of(final(alloc)@),
            final(self).sc.wf(final(alloc)@),
            final(self).sc.src() == old(self).sc.src(),
            ({
                let spd = sp_def(
                    (old(self).sc.src().len() - old(self).sc.cursor() + 3) as nat,
                    old(alloc)@,
                    old(self).sc.src(),
                    old(self).sc.cursor(),
                );
                match r {
                    Result::Ok(Option::None) => spd == PDefRes::DNone && final(alloc)@ == old(
                        alloc,
                    )@ && final(self).sc.cursor() == old(self).sc.cursor(),
                    Result::Ok(Option::Some(d)) => spd == PDefRes::DSome(
                        d,
                        final(self).sc.cursor(),
                        final(alloc)@,
                    ),
                    Result::Err(e) => spd == PDefRes::DFail(e.ty, e.loc, e.desc@),
                }
            }),
            r matches Result::Err(e) ==> e.ty == ErrorTy::SyntaxError,
            r matches Result::Ok(Some(d)) ==> {
                &&& wf_expr(d.pat, final(alloc)@.len() as int)
                &&& wf_expr(d.rep, final(alloc)@.len() as int)
                &&& no_red(d.pat)
                &&& no_red(d.rep)
                &&& !(d.pat is Var)
                &&& d.id == head_of(d.pat)
                &&& d.id.0 < final(alloc)@.len()
                &&& old(self).sc.cursor() < final(self).sc.cursor()
            },
            r matches Result::Ok(None) ==> raw_at(old(self).sc.src(), old(self).sc.cursor())
                is REof,
    {
        proof {
            self.sc.lemma_cursor_bounds(alloc@);
        }
        let ghost src = self.sc.src();
        let ghost c0 = self.sc.cursor();
        let ghost len = src.len() as int;
        let ghost ids0 = alloc@;
        let ghost fd = (len - c0 + 3) as nat;
        let p = self.sc.peek(alloc);
        match p {
            Result::Err(e) => {
                return Result::Err(e);
            },
            Result::Ok(t) => {
                match t.ty {
                    TokenTy::Eof => {
                        return Result::Ok(Option::None);
                    },
                    _ => {
                        proof {
                            match raw_at(src, c0) {
                                RawTok::REof => {
                                    assert(false);
                                },
                                _ => {},
                            }
                        }
                    },
                }
            },
        }
        let ghost ids_p = alloc@;
        proof {
            match raw_at(src, c0) {
                RawTok::RIdent(sp) => {
                    lemma_find_sp(ids0, sp);
                    if !ids0.contains(sp) {
                        assert(ids_p[ids0.len() as int] == sp);
                    }
                    assert(ids_p == intern_one(ids0, sp).0);
                    lemma_intern_one_idem(ids0, sp);
                },
                _ => {
                    assert(ids_p == ids0);
                },
            }
        }
        let patr = self.parse_expr(alloc, false);
        proof {
            assert(sp_expr((len - c0 + 2) as nat, ids_p, src, c0, false) == sp_expr(
                (fd - 1) as nat,
                ids0,
                src,
                c0,
                false,
            ));
        }
        match patr {
            Result::Err(e) => Result::Err(e),
            Result::Ok((id, loc, pat)) => {
                match &pat {
                    Expr::Var { .. } => {
                        return Result::Err(
                            Error {
                                loc,
                                ty: ErrorTy::SyntaxError,
                                desc: String::from_str("bare variables are not allowed"),
                            },
                        );
                    },
                    _ => {},
                }
                let ghost ids1 = alloc@;
                let ghost j = self.sc.cursor();
                proof {
                    self.sc.lemma_cursor_bounds(alloc@);
                }
                let eq = self.sc.expect_token(alloc, TokenTy::Equal);
                proof {
                    lemma_end_at_bounds(src, j);
                    match raw_at(src, j) {
                        RawTok::RBad(_) => {},
                        RawTok::REqual => {},
                        rt => {
                            assert(expected_text(alloc@, TokenTy::Equal, rt) == expected_text(
                                ids1,
                                TokenTy::Equal,
                                rt,
                            ));
                        },
                    }
                }
                match eq {
                    Result::Err(e) => {
                        dispose(pat);
                        return Result::Err(e);
                    },
                    Result::Ok(_) => {},
                }
                let ghost e2 = self.sc.cursor();
                proof {
                    self.sc.lemma_cursor_bounds(alloc@);
                    lemma_sp_expr_total((len - e2 + 2) as nat, ids1, src, e2, false);
                    lemma_sp_expr_mono(
                        (len - e2 + 2) as nat,
                        (fd - 1) as nat,
                        ids1,
                        src,
                        e2,
                        false,
                    );
                }
                let repr = self.parse_expr(alloc, false);
                match repr {
                    Result::Err(e) => {
                        dispose(pat);
                        Result::Err(e)
                    },
                    Result::Ok((_rid, _rloc, rep)) => {
                        let ghost ids2 = alloc@;
                        let ghost k = self.sc.cursor();
                        proof {
                            self.sc.lemma_cursor_bounds(alloc@);
                        }
                        let semi = self.sc.expect_token(alloc, TokenTy::Semi);
                        proof {
                            lemma_end_at_bounds(src, k);
                            match raw_at(src, k) {
                                RawTok::RBad(_) => {},
                                RawTok::RSemi => {},
                                rt => {
                                    assert(expected_text(alloc@, TokenTy::Semi, rt)
                                        == expected_text(ids2, TokenTy::Semi, rt));
                                },
                            }
                        }
                        match semi {
                            Result::Err(e) => {
                                dispose(pat);
                                dispose(rep);
                                Result::Err(e)
                            },
                            Result::Ok(_) => {
                                proof {
                                    crate::intern::lemma_prefix_trans(ids0, ids1, ids2);
                                    crate::intern::lemma_prefix_trans(ids0, ids2, alloc@);
                                    lemma_wf_expr_mono(pat, ids1.len() as int, alloc@.len() as int);
                                    lemma_wf_expr_mono(rep, ids2.len() as int, alloc@.len() as int);
                                }
                                Result::Ok(Option::Some(Def { id, loc, pat, rep }))
                            },
                        }
                    },
                }
            },
        }
    }
}


} // verus!
