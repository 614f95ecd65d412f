//! An interpreter for a minimal parenthesized-application term-rewriting
//! language: programs are ordered sets of pattern = replacement rules over
//! curried application terms, executed by repeated leftmost-innermost
//! rewriting until no rule applies, with two reserved identifiers hooking
//! into a byte-stream I/O protocol.
//!
//! The reduction engine is an explicit, heap-allocated work-stack machine,
//! so that arbitrarily deep application chains normalize without
//! exhausting the native call stack; one machine step at a time, it can be
//! driven either against in-memory byte streams ([`apply`]) or by a caller
//! that performs real blocking reads and writes between steps.
use vstd::prelude::*;
use std::rc::Rc;

pub mod error;
pub mod intern;
pub mod io;
pub mod parser;
pub mod token;
pub mod unify;

use crate::error::{Error, ErrorTy, Loc};
use crate::intern::{lemma_prefix_trans, Alloc, Id, EOF_N, INPUT_N, OUTPUT_N};
use crate::io::{decode, decode_spec, encode_byte, encode_spec, eof_term};
use crate::parser::{
    cached_head,
    get_id,
    head_of,
    lemma_sp_def_mono,
    lemma_sp_def_progress,
    lemma_sp_def_total,
    lemma_wf_expr_mono,
    rc_app,
    sp_def,
    sp_expr,
    vars_of,
    wf_expr,
    Def,
    Expr,
    PDefRes,
    PRes,
    Parser,
};
use crate::token::{bad_char_text, end_at, expected_text, raw_at, tok_loc, RawTok, Scanner, TokenTy};
use crate::unify::apply_def_spec;

verus! {

/// A loaded rule set: the definitions in source order. Dispatch scans for
/// the definitions whose head handle matches, preserving that order.
#[derive(Debug)]
pub struct Rules {
    defs: Vec<Def>,
}

impl View for Rules {
    type V = Seq<Def>;

    closed spec fn view(&self) -> Seq<Def> {
        self.defs@
    }
}

impl Rules {
    /// Every definition is well-formed against an interner of `n`
    /// spellings, closed, and headed by its dispatch handle.
    pub open spec fn wf(&self, n: int) -> bool {
        forall|i: int| 0 <= i < self@.len() ==> (#[trigger] self@[i]).wf(n)
    }
}

/// Well-formedness survives the interner growing.
pub proof fn lemma_def_wf_mono(d: Def, n: int, m: int)
    requires
        d.wf(n),
        n <= m,
    ensures
        d.wf(m),
{
    lemma_wf_expr_mono(d.pat, n, m);
    lemma_wf_expr_mono(d.rep, n, m);
}

/// What the first applicable definition with the given head handle, in
/// source order, rewrites a term to; nothing if no definition applies.
pub open spec fn engine_match(defs: Seq<Def>, id: Id, e: Expr) -> Option<Expr>
    decreases defs.len(),
{
    if defs.len() == 0 {
        Option::None
    } else if defs[0].id == id {
        match apply_def_spec(defs[0], e) {
            Option::Some(r) => Option::Some(r),
            Option::None => engine_match(defs.drop_first(), id, e),
        }
    } else {
        engine_match(defs.drop_first(), id, e)
    }
}

/// First-match semantics: when the earliest definition in the rule set
/// carries the dispatched head handle and applies to the term, the engine
/// rewrites by exactly that definition, whatever any later definition of
/// the same handle would have produced.
pub proof fn lemma_first_match(defs: Seq<Def>, id: Id, e: Expr)
    requires
        defs.len() > 0,
        defs[0].id == id,
        apply_def_spec(defs[0], e) is Some,
    ensures
        engine_match(defs, id, e) == apply_def_spec(defs[0], e),
{
}

/// Rewrite `e` by the first applicable definition with the given head
/// handle; false and `e` untouched if none applies.
fn try_rules(rules: &Rules, id: Id, e: &mut Expr) -> (r: bool)
    requires
        forall|i: int| 0 <= i < rules@.len() ==> (#[trigger] rules@[i]).closed_wf(),
    ensures
        r == (engine_match(rules@, id, *old(e)) is Some),
        r ==> *final(e) == engine_match(rules@, id, *old(e)).unwrap(),
        !r ==> *final(e) == *old(e),
{
    let n = rules.defs.len();
    let mut i: usize = 0;
    proof {
        assert(rules@.skip(0) =~= rules@);
    }
    while i < n
        invariant
            n == rules@.len(),
            i <= n,
            forall|k: int| 0 <= k < rules@.len() ==> (#[trigger] rules@[k]).closed_wf(),
            *e == *old(e),
            engine_match(rules@, id, *old(e)) == engine_match(rules@.skip(i as int), id, *old(e)),
        decreases n - i,
    {
        let ghost pre = rules@.skip(i as int);
        let d = &rules.defs[i];
        if d.id.0 == id.0 {
            if d.apply(e) {
                proof {
                    assert(pre[0] == rules@[i as int]);
                }
                return true;
            }
        }
        proof {
            assert(pre[0] == rules@[i as int]);
            assert(pre.drop_first() =~= rules@.skip(i as int + 1));
        }
        i = i + 1;
    }
    proof {
        assert(rules@.skip(n as int) =~= Seq::<Def>::empty());
    }
    false
}

/// Where the machine stands: walking down into a term to normalize it,
/// coming back up with a normalized subterm, or suspended waiting for one
/// input byte.
pub enum Mode {
    /// Normalize this term next.
    Down(Expr),
    /// This subterm is done; hand it back to the frame below.
    Up(Expr),
    /// The input hook fired here; the machine waits for one byte or
    /// end-of-stream.
    Input(Loc),
}

/// One suspended application node on the work stack.
pub enum Frame {
    /// The function side is being normalized; the argument still waits.
    FnPending { loc: Loc, arg: Expr },
    /// The function side is done; the argument is being normalized.
    ArgPending { loc: Loc, f: Expr },
}

/// The reduction machine: an explicit work stack in place of the native
/// call stack, the current mode, and whether any rewrite or hook has
/// fired.
pub struct EvalState {
    pub stack: Vec<Frame>,
    pub mode: Mode,
    pub changed: bool,
}

/// A machine state together with the interner contents, as one spec
/// value.
pub struct MachineView {
    pub stack: Seq<Frame>,
    pub mode: Mode,
    pub changed: bool,
    pub ids: Seq<Seq<char>>,
}

/// The spec-level reading of a machine state under an interner.
pub open spec fn machine_view(st: EvalState, ids: Seq<Seq<char>>) -> MachineView {
    MachineView { stack: st.stack@, mode: st.mode, changed: st.changed, ids }
}

/// Every term a frame holds is well-formed.
pub open spec fn frame_wf(f: Frame, n: int) -> bool {
    match f {
        Frame::FnPending { arg, .. } => wf_expr(arg, n),
        Frame::ArgPending { f, .. } => wf_expr(f, n),
    }
}

/// Every term the mode holds is well-formed.
pub open spec fn mode_wf(m: Mode, n: int) -> bool {
    match m {
        Mode::Down(e) => wf_expr(e, n),
        Mode::Up(e) => wf_expr(e, n),
        Mode::Input(_) => true,
    }
}

impl EvalState {
    /// Every term the machine holds is well-formed against an interner of
    /// `n` spellings.
    pub open spec fn wf(&self, n: int) -> bool {
        &&& mode_wf(self.mode, n)
        &&& forall|i: int| 0 <= i < self.stack@.len() ==> frame_wf(#[trigger] self.stack@[i], n)
    }

    /// The machine has delivered its normal form: nothing is suspended
    /// and nothing is left to walk.
    pub open spec fn spec_done(&self) -> bool {
        self.mode is Up && self.stack@.len() == 0
    }
}

/// A machine about to normalize the given term.
pub fn eval_new(e: Expr) -> (st: EvalState)
    ensures
        st.stack@ == Seq::<Frame>::empty(),
        st.mode == Mode::Down(e),
        !st.changed,
{
    EvalState { stack: Vec::new(), mode: Mode::Down(e), changed: false }
}

/// Whether the function side of an application is the output hook.
pub open spec fn is_io(f: Expr) -> bool {
    match f {
        Expr::Fun { id, .. } => id.0 == OUTPUT_N,
        _ => false,
    }
}

/// The frozen form of a fully normalized application node.
pub open spec fn freeze_spec(id: Id, loc: Loc, f: Expr, arg: Expr) -> Expr {
    Expr::RedApp(Rc::new(crate::parser::App { id, loc, f, arg }))
}

/// One transition of the machine: where it moves and what byte, if any,
/// it writes. A finished or suspended machine stays put.
pub open spec fn step_spec(defs: Seq<Def>, m: MachineView) -> (MachineView, Option<u8>) {
    match m.mode {
        Mode::Down(e) => match e {
            Expr::App(b) => (
                MachineView {
                    stack: m.stack.push(Frame::FnPending { loc: b.loc, arg: b.arg }),
                    mode: Mode::Down(b.f),
                    ..m
                },
                Option::None,
            ),
            Expr::Fun { id, loc } => {
                if id.0 == INPUT_N {
                    (MachineView { mode: Mode::Input(loc), ..m }, Option::None)
                } else {
                    match engine_match(defs, id, e) {
                        Option::Some(e2) => (
                            MachineView { mode: Mode::Down(e2), changed: true, ..m },
                            Option::None,
                        ),
                        Option::None => (MachineView { mode: Mode::Up(e), ..m }, Option::None),
                    }
                }
            },
            Expr::Var { .. } => (MachineView { mode: Mode::Up(e), ..m }, Option::None),
            Expr::RedApp(_) => (MachineView { mode: Mode::Up(e), ..m }, Option::None),
        },
        Mode::Up(v) => {
            if m.stack.len() == 0 {
                (m, Option::None)
            } else {
                match m.stack.last() {
                    Frame::FnPending { loc, arg } => (
                        MachineView {
                            stack: m.stack.drop_last().push(Frame::ArgPending { loc, f: v }),
                            mode: Mode::Down(arg),
                            ..m
                        },
                        Option::None,
                    ),
                    Frame::ArgPending { loc, f } => {
                        if is_io(f) {
                            (
                                MachineView {
                                    stack: m.stack.drop_last(),
                                    mode: Mode::Up(Expr::Fun { id: Id(OUTPUT_N), loc }),
                                    changed: true,
                                    ..m
                                },
                                Option::Some(decode_spec(m.ids, v)),
                            )
                        } else {
                            let id = cached_head(f);
                            let node = Expr::App(
                                Box::new(crate::parser::App { id, loc, f, arg: v }),
                            );
                            match engine_match(defs, id, node) {
                                Option::Some(e2) => (
                                    MachineView {
                                        stack: m.stack.drop_last(),
                                        mode: Mode::Down(e2),
                                        changed: true,
                                        ..m
                                    },
                                    Option::None,
                                ),
                                Option::None => (
                                    MachineView {
                                        stack: m.stack.drop_last(),
                                        mode: Mode::Up(freeze_spec(id, loc, f, v)),
                                        ..m
                                    },
                                    Option::None,
                                ),
                            }
                        }
                    },
                }
            }
        },
        Mode::Input(_) => (m, Option::None),
    }
}

/// What answering the input hook does: the machine resumes by normalizing
/// the encoded byte (or the end-of-stream atom), with the hex digit
/// spellings interned on demand.
pub open spec fn provide_spec(m: MachineView, b: Option<u8>) -> MachineView {
    match m.mode {
        Mode::Input(loc) => match b {
            Option::Some(by) => {
                let p = encode_spec(m.ids, by, loc);
                MachineView { mode: Mode::Down(p.1), changed: true, ids: p.0, ..m }
            },
            Option::None => MachineView { mode: Mode::Down(eof_term(loc)), changed: true, ..m },
        },
        _ => m,
    }
}

/// What one call of the machine reports.
#[derive(Clone, Copy, Debug, PartialEq, Eq, Structural)]
pub enum EvalEvent {
    /// The machine moved; call it again.
    Working,
    /// The machine waits for one input byte; answer it before stepping on.
    NeedInput,
    /// The machine wrote this byte; emit it, then call again.
    Output(u8),
    /// The term is in normal form; the flag says whether anything changed.
    Done(bool),
}

/// Whatever one rule rewrites a well-formed term to is well-formed.
pub proof fn lemma_apply_def_wf(d: Def, e: Expr, n: int)
    requires
        apply_def_spec(d, e) is Some,
        wf_expr(e, n),
        d.wf(n),
    ensures
        wf_expr(apply_def_spec(d, e).unwrap(), n),
{
    let m = crate::unify::unify_spec(Map::empty(), d.pat, e).unwrap();
    crate::unify::lemma_unify_dom(Map::<Id, Expr>::empty(), &d.pat, &e);
    crate::unify::lemma_unify_wf(Map::<Id, Expr>::empty(), &d.pat, &e, n);
    crate::unify::lemma_subst_wf(m, &d.rep, n);
}

/// Whatever the first applicable rule rewrites a well-formed term to is
/// well-formed.
pub proof fn lemma_engine_match_wf(defs: Seq<Def>, id: Id, e: Expr, n: int)
    requires
        engine_match(defs, id, e) is Some,
        wf_expr(e, n),
        forall|i: int| 0 <= i < defs.len() ==> (#[trigger] defs[i]).wf(n),
    ensures
        wf_expr(engine_match(defs, id, e).unwrap(), n),
    decreases defs.len(),
{
    if defs.len() > 0 {
        if defs[0].id == id && apply_def_spec(defs[0], e) is Some {
            lemma_apply_def_wf(defs[0], e, n);
        } else {
            assert(forall|i: int|
                0 <= i < defs.drop_first().len() ==> defs.drop_first()[i] == defs[i + 1]);
            lemma_engine_match_wf(defs.drop_first(), id, e, n);
        }
    }
}

/// Perform one machine transition against the rule set, reporting what
/// the caller must do before the next one.
pub fn eval_step(rules: &Rules, alloc: &Alloc, st: &mut EvalState) -> (ev: EvalEvent)
    requires
        rules.wf(alloc@.len() as int),
        old(st).wf(alloc@.len() as int),
    ensures
        final(st).wf(alloc@.len() as int),
        machine_view(*final(st), alloc@) == step_spec(rules@, machine_view(*old(st), alloc@)).0,
        ({
            let out = step_spec(rules@, machine_view(*old(st), alloc@)).1;
            match out {
                Option::Some(b) => ev == EvalEvent::Output(b),
                Option::None => {
                    if final(st).spec_done() {
                        ev == EvalEvent::Done(final(st).changed)
                    } else if final(st).mode is Input {
                        ev == EvalEvent::NeedInput
                    } else {
                        ev == EvalEvent::Working
                    }
                },
            }
        }),
{
    proof {
        assert forall|i: int| 0 <= i < rules@.len() implies (#[trigger] rules@[i]).closed_wf() by {
            assert(rules@[i].wf(alloc@.len() as int));
        }
    }
    let mut mode = Mode::Input(Loc { line: 1, col: 1 });
    core::mem::swap(&mut st.mode, &mut mode);
    match mode {
        Mode::Down(e) => {
            match e {
                Expr::App(b) => {
                    let node = *b;
                    st.stack.push(Frame::FnPending { loc: node.loc, arg: node.arg });
                    st.mode = Mode::Down(node.f);
                    EvalEvent::Working
                },
                Expr::Fun { id, loc } => {
                    if id.0 == INPUT_N {
                        st.mode = Mode::Input(loc);
                        EvalEvent::NeedInput
                    } else {
                        let mut node = Expr::Fun { id, loc };
                        if try_rules(rules, id, &mut node) {
                            proof {
                                lemma_engine_match_wf(
                                    rules@,
                                    id,
                                    Expr::Fun { id, loc },
                                    alloc@.len() as int,
                                );
                            }
                            st.mode = Mode::Down(node);
                            st.changed = true;
                            EvalEvent::Working
                        } else {
                            st.mode = Mode::Up(node);
                            if st.stack.len() == 0 {
                                EvalEvent::Done(st.changed)
                            } else {
                                EvalEvent::Working
                            }
                        }
                    }
                },
                Expr::Var { id, loc } => {
                    st.mode = Mode::Up(Expr::Var { id, loc });
                    if st.stack.len() == 0 {
                        EvalEvent::Done(st.changed)
                    } else {
                        EvalEvent::Working
                    }
                },
                Expr::RedApp(rc) => {
                    st.mode = Mode::Up(Expr::RedApp(rc));
                    if st.stack.len() == 0 {
                        EvalEvent::Done(st.changed)
                    } else {
                        EvalEvent::Working
                    }
                },
            }
        },
        Mode::Up(v) => {
            let ghost gv = v;
            if st.stack.len() == 0 {
                st.mode = Mode::Up(v);
                EvalEvent::Done(st.changed)
            } else {
                let ghost prev = st.stack@;
                let frame = st.stack.pop().unwrap();
                match frame {
                    Frame::FnPending { loc, arg } => {
                        st.stack.push(Frame::ArgPending { loc, f: v });
                        st.mode = Mode::Down(arg);
                        proof {
                            assert(st.stack@ =~= prev.drop_last().push(
                                Frame::ArgPending { loc, f: gv },
                            ));
                        }
                        EvalEvent::Working
                    },
                    Frame::ArgPending { loc, f } => {
                        let ghost gf = f;
                        let f_is_output: bool = match &f {
                            Expr::Fun { id, .. } => id.0 == OUTPUT_N,
                            _ => false,
                        };
                        if f_is_output {
                            let byte = decode(alloc, &v);
                            st.mode = Mode::Up(Expr::Fun { id: Id(OUTPUT_N), loc });
                            st.changed = true;
                            EvalEvent::Output(byte)
                        } else {
                            let id = get_id(&f);
                            let mut node = Expr::App(
                                Box::new(crate::parser::App { id, loc, f, arg: v }),
                            );
                            let ghost gnode = node;
                            if try_rules(rules, id, &mut node) {
                                proof {
                                    lemma_engine_match_wf(rules@, id, gnode, alloc@.len() as int);
                                }
                                st.mode = Mode::Down(node);
                                st.changed = true;
                                EvalEvent::Working
                            } else {
                                match node {
                                    Expr::App(bx) => {
                                        st.mode = Mode::Up(Expr::RedApp(Rc::new(*bx)));
                                    },
                                    _ => {
                                        proof {
                                            assert(false);
                                        }
                                    },
                                }
                                if st.stack.len() == 0 {
                                    EvalEvent::Done(st.changed)
                                } else {
                                    EvalEvent::Working
                                }
                            }
                        }
                    },
                }
            }
        },
        Mode::Input(loc) => {
            st.mode = Mode::Input(loc);
            EvalEvent::NeedInput
        },
    }
}

/// Answer the input hook with one byte, or with end-of-stream.
pub fn eval_provide(alloc: &mut Alloc, st: &mut EvalState, b: Option<u8>)
    requires
        old(alloc).wf(),
        old(st).wf(old(alloc)@.len() as int),
        old(st).mode is Input,
    ensures
        final(alloc).wf(),
        old(alloc)@.is_prefix_of(final(alloc)@),
        final(st).wf(final(alloc)@.len() as int),
        machine_view(*final(st), final(alloc)@) == provide_spec(
            machine_view(*old(st), old(alloc)@),
            b,
        ),
{
    let loc = match &st.mode {
        Mode::Input(l) => *l,
        _ => {
            proof {
                assert(false);
            }
            Loc { line: 1, col: 1 }
        },
    };
    let ghost n0 = alloc@.len() as int;
    match b {
        Option::Some(by) => {
            let t = encode_byte(alloc, by, loc);
            st.mode = Mode::Down(t);
            st.changed = true;
        },
        Option::None => {
            st.mode = Mode::Down(Expr::Fun { id: Id(EOF_N), loc });
            st.changed = true;
        },
    }
    proof {
        assert forall|i: int|
            0 <= i < st.stack@.len() implies frame_wf(
            #[trigger] st.stack@[i],
            alloc@.len() as int,
        ) by {
            match st.stack@[i] {
                Frame::FnPending { arg, .. } => {
                    lemma_wf_expr_mono(arg, n0, alloc@.len() as int);
                },
                Frame::ArgPending { f, .. } => {
                    lemma_wf_expr_mono(f, n0, alloc@.len() as int);
                },
            }
        }
    }
}

/// The term a mode stands for: the one being walked or handed up, or the
/// input hook atom while the machine waits for a byte.
pub open spec fn mode_term(m: Mode) -> Expr {
    match m {
        Mode::Down(e) => e,
        Mode::Up(e) => e,
        Mode::Input(loc) => Expr::Fun { id: Id(INPUT_N), loc },
    }
}

/// The whole term a part-way machine stands for: the current subterm
/// folded back under its suspended application nodes.
pub open spec fn rebuild_spec(stack: Seq<Frame>, cur: Expr) -> Expr
    decreases stack.len(),
{
    if stack.len() == 0 {
        cur
    } else {
        let node = match stack.last() {
            Frame::FnPending { loc, arg } => Expr::App(
                Box::new(crate::parser::App { id: cached_head(cur), loc, f: cur, arg }),
            ),
            Frame::ArgPending { loc, f } => Expr::App(
                Box::new(crate::parser::App { id: cached_head(f), loc, f, arg: cur }),
            ),
        };
        rebuild_spec(stack.drop_last(), node)
    }
}

/// On a well-formed term the cached head handle is the true spine head.
pub proof fn lemma_cached_is_head(e: Expr, n: int)
    requires
        wf_expr(e, n),
    ensures
        cached_head(e) == head_of(e),
{
}

/// Folding a machine back into one term preserves well-formedness.
pub proof fn lemma_rebuild_wf(stack: Seq<Frame>, cur: Expr, n: int)
    requires
        wf_expr(cur, n),
        forall|i: int| 0 <= i < stack.len() ==> frame_wf(#[trigger] stack[i], n),
    ensures
        wf_expr(rebuild_spec(stack, cur), n),
    decreases stack.len(),
{
    if stack.len() > 0 {
        match stack.last() {
            Frame::FnPending { loc, arg } => {
                lemma_cached_is_head(cur, n);
                let node = Expr::App(
                    Box::new(crate::parser::App { id: cached_head(cur), loc, f: cur, arg }),
                );
                assert(wf_expr(node, n));
                lemma_rebuild_wf(stack.drop_last(), node, n);
            },
            Frame::ArgPending { loc, f } => {
                lemma_cached_is_head(f, n);
                let node = Expr::App(
                    Box::new(crate::parser::App { id: cached_head(f), loc, f, arg: cur }),
                );
                assert(wf_expr(node, n));
                lemma_rebuild_wf(stack.drop_last(), node, n);
            },
        }
    }
}

/// Dismantle a machine into the term it stands for and its changed flag.
pub fn eval_take(st: EvalState) -> (r: (Expr, bool))
    ensures
        r.0 == rebuild_spec(st.stack@, mode_term(st.mode)),
        r.1 == st.changed,
{
    let ghost gstack = st.stack@;
    let ghost gmode = st.mode;
    let EvalState { mut stack, mode, changed } = st;
    let mut cur: Expr = match mode {
        Mode::Down(e) => e,
        Mode::Up(e) => e,
        Mode::Input(loc) => Expr::Fun { id: Id(INPUT_N), loc },
    };
    while stack.len() > 0
        invariant
            rebuild_spec(stack@, cur) == rebuild_spec(gstack, mode_term(gmode)),
        decreases stack@.len(),
    {
        let fr = stack.pop().unwrap();
        match fr {
            Frame::FnPending { loc, arg } => {
                let id = get_id(&cur);
                cur = Expr::App(Box::new(crate::parser::App { id, loc, f: cur, arg }));
            },
            Frame::ArgPending { loc, f } => {
                let id = get_id(&f);
                cur = Expr::App(Box::new(crate::parser::App { id, loc, f, arg: cur }));
            },
        }
    }
    (cur, changed)
}

/// The byte the machine would read next, if any is left.
pub open spec fn io_at(input: Seq<u8>, pos: int) -> Option<u8> {
    if 0 <= pos < input.len() {
        Option::Some(input[pos])
    } else {
        Option::None
    }
}

/// Driving the machine for at most `fuel` transitions against in-memory
/// byte streams: the machine it reaches, the input position, the bytes
/// written so far, and the changed flag if it reached normal form in time.
pub open spec fn run_spec(
    defs: Seq<Def>,
    m: MachineView,
    input: Seq<u8>,
    pos: int,
    out: Seq<u8>,
    fuel: nat,
) -> (MachineView, int, Seq<u8>, Option<bool>)
    decreases fuel,
{
    if m.mode is Up && m.stack.len() == 0 {
        (m, pos, out, Option::Some(m.changed))
    } else if fuel == 0 {
        (m, pos, out, Option::None)
    } else if m.mode is Input {
        let b = io_at(input, pos);
        let pos2 = if b is Some {
            pos + 1
        } else {
            pos
        };
        run_spec(defs, provide_spec(m, b), input, pos2, out, (fuel - 1) as nat)
    } else {
        let s = step_spec(defs, m);
        let out2 = match s.1 {
            Option::Some(x) => out.push(x),
            Option::None => out,
        };
        run_spec(defs, s.0, input, pos, out2, (fuel - 1) as nat)
    }
}

/// Determinism: from fixed rules, one starting machine and fixed input
/// bytes, the outcome is a function of those alone; in particular a run
/// that has delivered its result is not changed by allowing more steps, so
/// any two runs that finish agree on their output bytes, final term and
/// changed flag.
pub proof fn lemma_run_deterministic(
    defs: Seq<Def>,
    m: MachineView,
    input: Seq<u8>,
    pos: int,
    out: Seq<u8>,
    k1: nat,
    k2: nat,
)
    requires
        k1 <= k2,
        run_spec(defs, m, input, pos, out, k1).3 is Some,
    ensures
        run_spec(defs, m, input, pos, out, k2) == run_spec(defs, m, input, pos, out, k1),
    decreases k1,
{
    if m.mode is Up && m.stack.len() == 0 {
    } else if m.mode is Input {
        let b = io_at(input, pos);
        let pos2 = if b is Some {
            pos + 1
        } else {
            pos
        };
        lemma_run_deterministic(
            defs,
            provide_spec(m, b),
            input,
            pos2,
            out,
            (k1 - 1) as nat,
            (k2 - 1) as nat,
        );
    } else {
        let s = step_spec(defs, m);
        let out2 = match s.1 {
            Option::Some(x) => out.push(x),
            Option::None => out,
        };
        lemma_run_deterministic(defs, s.0, input, pos, out2, (k1 - 1) as nat, (k2 - 1) as nat);
    }
}

/// A run that delivers a changed flag has reached normal form, and the
/// flag it delivers is that machine's.
pub proof fn lemma_run_final(
    defs: Seq<Def>,
    m: MachineView,
    input: Seq<u8>,
    pos: int,
    out: Seq<u8>,
    fuel: nat,
)
    ensures
        ({
            let res = run_spec(defs, m, input, pos, out, fuel);
            res.3 is Some ==> res.3 == Option::Some(res.0.changed) && res.0.mode is Up
                && res.0.stack.len() == 0
        }),
    decreases fuel,
{
    if m.mode is Up && m.stack.len() == 0 {
    } else if fuel == 0 {
    } else if m.mode is Input {
        let b = io_at(input, pos);
        let pos2 = if b is Some {
            pos + 1
        } else {
            pos
        };
        lemma_run_final(defs, provide_spec(m, b), input, pos2, out, (fuel - 1) as nat);
    } else {
        let s = step_spec(defs, m);
        let out2 = match s.1 {
            Option::Some(x) => out.push(x),
            Option::None => out,
        };
        lemma_run_final(defs, s.0, input, pos, out2, (fuel - 1) as nat);
    }
}

/// In-memory byte streams standing in for the process's input and output:
/// the bytes to read with a cursor over them, and the bytes written.
pub struct IoBuffer {
    pub input: Vec<u8>,
    pub pos: usize,
    pub output: Vec<u8>,
}

/// Normalize `e` in place by at most `fuel` machine transitions, reading
/// input bytes from and writing output bytes to the given buffers. Returns
/// whether anything changed, or nothing if the budget ran out first, the
/// partially rewritten term then standing in `e`.
pub fn apply(defs: &Rules, e: &mut Expr, alloc: &mut Alloc, io: &mut IoBuffer, fuel: u64) -> (r:
    Option<bool>)
    requires
        old(alloc).wf(),
        defs.wf(old(alloc)@.len() as int),
        wf_expr(*old(e), old(alloc)@.len() as int),
        old(io).pos <= old(io).input@.len(),
    ensures
        final(alloc).wf(),
        old(alloc)@.is_prefix_of(final(alloc)@),
        final(io).input@ == old(io).input@,
        wf_expr(*final(e), final(alloc)@.len() as int),
        ({
            let res = run_spec(
                defs@,
                MachineView {
                    stack: Seq::empty(),
                    mode: Mode::Down(*old(e)),
                    changed: false,
                    ids: old(alloc)@,
                },
                old(io).input@,
                old(io).pos as int,
                old(io).output@,
                fuel as nat,
            );
            &&& final(alloc)@ == res.0.ids
            &&& final(io).pos as int == res.1
            &&& final(io).output@ == res.2
            &&& r == res.3
            &&& *final(e) == rebuild_spec(res.0.stack, mode_term(res.0.mode))
            &&& (r matches Some(ch) ==> ch == res.0.changed)
        }),
        r is Some && crate::parser::no_red(*old(e)) ==> normalized(defs@, *final(e)),
{
    let ghost target = run_spec(
        defs@,
        MachineView {
            stack: Seq::empty(),
            mode: Mode::Down(*old(e)),
            changed: false,
            ids: old(alloc)@,
        },
        old(io).input@,
        old(io).pos as int,
        old(io).output@,
        fuel as nat,
    );
    let mut tmp = Expr::Var { id: Id(0), loc: Loc { line: 1, col: 1 } };
    core::mem::swap(e, &mut tmp);
    let mut st = eval_new(tmp);
    proof {
        assert(machine_view(st, alloc@) == MachineView {
            stack: Seq::<Frame>::empty(),
            mode: Mode::Down(*old(e)),
            changed: false,
            ids: old(alloc)@,
        });
    }
    let mut remaining: u64 = fuel;
    let mut outcome: Option<bool> = Option::None;
    let mut finished = false;
    while !finished
        invariant
            alloc.wf(),
            old(alloc)@.is_prefix_of(alloc@),
            defs.wf(alloc@.len() as int),
            st.wf(alloc@.len() as int),
            io.input@ == old(io).input@,
            io.pos <= io.input@.len(),
            !finished ==> outcome is None && target == run_spec(
                defs@,
                machine_view(st, alloc@),
                io.input@,
                io.pos as int,
                io.output@,
                remaining as nat,
            ),
            finished ==> target == (
                machine_view(st, alloc@),
                io.pos as int,
                io.output@,
                outcome,
            ),
        decreases 2 * (remaining as int) + (if finished {
            0int
        } else {
            1int
        }),
    {
        let up_mode = match &st.mode {
            Mode::Up(_) => true,
            _ => false,
        };
        if up_mode && st.stack.len() == 0 {
            outcome = Option::Some(st.changed);
            finished = true;
        } else if remaining == 0 {
            finished = true;
        } else {
            let need_input = match &st.mode {
                Mode::Input(_) => true,
                _ => false,
            };
            if need_input {
                let b: Option<u8> = if io.pos < io.input.len() {
                    let x = io.input[io.pos];
                    io.pos = io.pos + 1;
                    Option::Some(x)
                } else {
                    Option::None
                };
                let ghost ids_i = alloc@;
                eval_provide(alloc, &mut st, b);
                proof {
                    lemma_prefix_trans(old(alloc)@, ids_i, alloc@);
                    assert forall|i: int|
                        0 <= i < defs@.len() implies (#[trigger] defs@[i]).wf(
                        alloc@.len() as int,
                    ) by {
                        lemma_def_wf_mono(defs@[i], ids_i.len() as int, alloc@.len() as int);
                    }
                }
                remaining = remaining - 1;
            } else {
                let ev = eval_step(defs, alloc, &mut st);
                match ev {
                    EvalEvent::Output(byte) => {
                        io.output.push(byte);
                    },
                    _ => {},
                }
                remaining = remaining - 1;
            }
        }
    }
    let ghost gm = machine_view(st, alloc@);
    let (t, _ch) = eval_take(st);
    *e = t;
    proof {
        lemma_rebuild_wf(gm.stack, mode_term(gm.mode), alloc@.len() as int);
        let init = MachineView {
            stack: Seq::empty(),
            mode: Mode::Down(*old(e)),
            changed: false,
            ids: old(alloc)@,
        };
        lemma_run_final(
            defs@,
            init,
            old(io).input@,
            old(io).pos as int,
            old(io).output@,
            fuel as nat,
        );
        if outcome is Some && crate::parser::no_red(*old(e)) {
            lemma_no_red_frozen(defs@, &*old(e));
            assert forall|i: int|
                0 <= i < defs@.len() implies (#[trigger] defs@[i]).closed_wf() by {
                assert(defs@[i].wf(old(alloc)@.len() as int));
            }
            lemma_run_normal_form(
                defs@,
                init,
                old(io).input@,
                old(io).pos as int,
                old(io).output@,
                fuel as nat,
            );
        }
    }
    outcome
}


/// The variable handles a vector holds, as a set.
pub open spec fn ids_set(v: Seq<Id>) -> Set<Id> {
    Set::new(|x: Id| v.contains(x))
}

/// Collect into `v` every variable handle occurring in the term, leftmost
/// first.
pub fn vars(v: &mut Vec<Id>, e: &Expr)
    ensures
        final(v)@ == old(v)@ + crate::parser::vars_seq(*e),
        ids_set(final(v)@) == ids_set(old(v)@).union(vars_of(*e)),
    decreases *e,
{
    match e {
        Expr::Var { id, .. } => {
            let ghost prev = v@;
            v.push(*id);
            proof {
                assert forall|x: Id|
                    ids_set(v@).contains(x) <==> ids_set(prev).union(vars_of(*e)).contains(x) by {
                    if v@.contains(x) {
                        let i = choose|i: int| 0 <= i < v@.len() && v@[i] == x;
                        if i < prev.len() {
                            assert(prev[i] == x);
                        }
                    }
                    if prev.contains(x) {
                        let i = choose|i: int| 0 <= i < prev.len() && prev[i] == x;
                        assert(v@[i] == x);
                    }
                    if x == *id {
                        assert(v@[v@.len() - 1] == x);
                    }
                }
                assert(ids_set(v@) =~= ids_set(prev).union(vars_of(*e)));
            }
        },
        Expr::Fun { .. } => {
            proof {
                assert(ids_set(v@) =~= ids_set(v@).union(vars_of(*e)));
            }
        },
        Expr::App(b) => {
            let ghost prev = v@;
            vars(v, &b.f);
            vars(v, &b.arg);
            proof {
                assert(ids_set(v@) =~= ids_set(prev).union(vars_of(*e)));
                assert(v@ =~= prev + crate::parser::vars_seq(*e));
            }
        },
        Expr::RedApp(b) => {
            let ghost prev = v@;
            vars(v, &b.f);
            vars(v, &b.arg);
            proof {
                assert(ids_set(v@) =~= ids_set(prev).union(vars_of(*e)));
                assert(v@ =~= prev + crate::parser::vars_seq(*e));
            }
        },
    }
}

/// Every handle occurring in a well-formed term was assigned by the
/// interner.
pub proof fn lemma_vars_bounded(e: Expr, n: int)
    requires
        wf_expr(e, n),
    ensures
        forall|x: Id| vars_of(e).contains(x) ==> x.0 < n,
    decreases e,
{
    match e {
        Expr::App(b) => {
            lemma_vars_bounded(b.f, n);
            lemma_vars_bounded(b.arg, n);
            assert forall|x: Id| vars_of(e).contains(x) implies x.0 < n by {
                assert(vars_of(b.f).contains(x) || vars_of(b.arg).contains(x));
            }
        },
        Expr::RedApp(b) => {
            lemma_vars_bounded(crate::parser::rc_app(&b).f, n);
            lemma_vars_bounded(crate::parser::rc_app(&b).arg, n);
            assert forall|x: Id| vars_of(e).contains(x) implies x.0 < n by {
                assert(vars_of(crate::parser::rc_app(&b).f).contains(x) || vars_of(
                    crate::parser::rc_app(&b).arg,
                ).contains(x));
            }
        },
        _ => {},
    }
}

/// Whether a handle occurs in the vector.
fn contains_id(v: &Vec<Id>, id: Id) -> (r: bool)
    ensures
        r == v@.contains(id),
{
    let n = v.len();
    let mut i: usize = 0;
    while i < n
        invariant
            n == v@.len(),
            i <= n,
            forall|j: int| 0 <= j < i ==> v@[j] != id,
        decreases n - i,
    {
        if v[i].0 == id.0 {
            assert(v@[i as int] == id);
            return true;
        }
        i = i + 1;
    }
    false
}

/// The text of several names strung together in natural-language list
/// form.
pub open spec fn joined(items: Seq<Seq<char>>) -> Seq<char>
    decreases items.len(),
{
    if items.len() == 0 {
        Seq::empty()
    } else if items.len() == 1 {
        items[0]
    } else {
        joined(items.drop_last()) + ", "@ + items.last()
    }
}

/// The "a, b, and c" rendering of one or more names.
pub open spec fn list_text(items: Seq<Seq<char>>) -> Seq<char> {
    if items.len() == 1 {
        items[0]
    } else {
        joined(items.drop_last()) + ", and "@ + items.last()
    }
}

/// String one or more names together in natural-language list form.
pub fn list(it: &Vec<String>) -> (r: String)
    requires
        it@.len() >= 1,
    ensures
        r@ == list_text(it@.map_values(|s: String| s@)),
{
    let ghost m = it@.map_values(|s: String| s@);
    let n = it.len();
    if n == 1 {
        let r = it[0].clone();
        proof {
            assert(r@ == m[0]);
        }
        return r;
    }
    let mut s = String::new();
    let mut i: usize = 0;
    while i < n - 1
        invariant
            n == it@.len(),
            n >= 2,
            i <= n - 1,
            m == it@.map_values(|q: String| q@),
            i == 0 ==> s@ == Seq::<char>::empty(),
            i >= 1 ==> s@ == joined(m.take(i as int)),
        decreases n - i,
    {
        if i > 0 {
            s.append(", ");
        }
        let ghost before = s@;
        s.append(it[i].as_str());
        proof {
            assert(m.take(i as int + 1).drop_last() =~= m.take(i as int));
            assert(m.take(i as int + 1).last() == m[i as int]);
            if i == 0 {
                assert(s@ =~= joined(m.take(1)));
            } else {
                assert(s@ =~= joined(m.take(i as int)) + ", "@ + m[i as int]);
            }
        }
        i = i + 1;
    }
    s.append(", and ");
    s.append(it[n - 1].as_str());
    proof {
        assert(m.take(n as int - 1) =~= m.drop_last());
        assert(s@ =~= list_text(m));
    }
    s
}

/// The replacement's variables that the pattern does not bind, first
/// occurrence first, each once.
pub open spec fn offenders(rep_vars: Seq<Id>, pat: Set<Id>) -> Seq<Id>
    decreases rep_vars.len(),
{
    if rep_vars.len() == 0 {
        Seq::empty()
    } else {
        let pre = offenders(rep_vars.drop_last(), pat);
        let x = rep_vars.last();
        if !pat.contains(x) && !pre.contains(x) {
            pre.push(x)
        } else {
            pre
        }
    }
}

/// The closedness diagnostic: the offending replacement-only variable
/// names, in first-occurrence order, in natural-language list form.
pub open spec fn closed_msg(ids: Seq<Seq<char>>, d: Def) -> Seq<char> {
    "undefined variables: "@ + list_text(
        offenders(crate::parser::vars_seq(d.rep), vars_of(d.pat)).map_values(
            |x: Id| ids[x.0 as int],
        ),
    )
}

/// Check a definition's closedness: every variable of the replacement must
/// occur in the pattern, else a closedness error placed at the replacement
/// names the offending variables.
pub fn check_closed(alloc: &Alloc, def: &Def) -> (r: Result<(), Error>)
    requires
        wf_expr(def.pat, alloc@.len() as int),
        wf_expr(def.rep, alloc@.len() as int),
    ensures
        r is Ok <==> vars_of(def.rep).subset_of(vars_of(def.pat)),
        r matches Err(e) ==> e.ty == ErrorTy::CExprError && e.loc == def.rep.spec_loc() && e.desc@
            == closed_msg(alloc@, *def),
{
    let mut pat_vars: Vec<Id> = Vec::new();
    vars(&mut pat_vars, &def.pat);
    proof {
        assert(ids_set(pat_vars@) =~= vars_of(def.pat));
    }
    let mut rep_vars: Vec<Id> = Vec::new();
    vars(&mut rep_vars, &def.rep);
    proof {
        assert(ids_set(rep_vars@) =~= vars_of(def.rep));
        assert(rep_vars@ =~= crate::parser::vars_seq(def.rep));
        lemma_vars_bounded(def.rep, alloc@.len() as int);
    }
    let mut undefined: Vec<String> = Vec::new();
    let mut undef_ids: Vec<Id> = Vec::new();
    let n = rep_vars.len();
    let mut i: usize = 0;
    while i < n
        invariant
            n == rep_vars@.len(),
            i <= n,
            ids_set(pat_vars@) == vars_of(def.pat),
            ids_set(rep_vars@) == vars_of(def.rep),
            rep_vars@ == crate::parser::vars_seq(def.rep),
            forall|x: Id| vars_of(def.rep).contains(x) ==> x.0 < alloc@.len(),
            undefined@.len() == undef_ids@.len(),
            undef_ids@ == offenders(rep_vars@.take(i as int), vars_of(def.pat)),
            undefined@.map_values(|q: String| q@) == undef_ids@.map_values(
                |x: Id| alloc@[x.0 as int],
            ),
            forall|k: int|
                0 <= k < undef_ids@.len() ==> vars_of(def.rep).contains(#[trigger] undef_ids@[k])
                    && !vars_of(def.pat).contains(undef_ids@[k]),
            (undef_ids@.len() == 0) <==> (forall|j: int|
                0 <= j < i ==> vars_of(def.pat).contains(#[trigger] rep_vars@[j])),
        decreases n - i,
    {
        let x = rep_vars[i];
        proof {
            assert(rep_vars@.contains(x));
            assert(vars_of(def.rep).contains(x));
            assert(rep_vars@.take(i as int + 1).drop_last() =~= rep_vars@.take(i as int));
            assert(rep_vars@.take(i as int + 1).last() == x);
        }
        let ghost prev_ids = undef_ids@;
        let ghost prev_names = undefined@.map_values(|q: String| q@);
        if !contains_id(&pat_vars, x) {
            proof {
                assert(!vars_of(def.pat).contains(x));
            }
            if !contains_id(&undef_ids, x) {
                undef_ids.push(x);
                undefined.push(alloc.get_string(&x).to_owned());
                proof {
                    assert(undefined@.map_values(|q: String| q@) =~= prev_names.push(
                        alloc@[x.0 as int],
                    ));
                    assert(undef_ids@.map_values(|y: Id| alloc@[y.0 as int]) =~= prev_ids
                        .map_values(|y: Id| alloc@[y.0 as int]).push(alloc@[x.0 as int]));
                }
            }
            proof {
                assert(undef_ids@.len() > 0);
            }
        } else {
            proof {
                assert(vars_of(def.pat).contains(x));
            }
        }
        i = i + 1;
    }
    if undefined.len() == 0 {
        proof {
            assert forall|x: Id| vars_of(def.rep).contains(x) implies vars_of(def.pat).contains(
                x,
            ) by {
                assert(rep_vars@.contains(x));
                let j = choose|j: int| 0 <= j < rep_vars@.len() && rep_vars@[j] == x;
                assert(vars_of(def.pat).contains(rep_vars@[j]));
            }
        }
        Result::Ok(())
    } else {
        proof {
            let w = undef_ids@[0];
            assert(vars_of(def.rep).contains(w) && !vars_of(def.pat).contains(w));
            assert(!vars_of(def.rep).subset_of(vars_of(def.pat)));
        }
        let mut desc = String::new();
        desc.append("undefined variables: ");
        let names = list(&undefined);
        desc.append(names.as_str());
        proof {
            assert(rep_vars@.take(n as int) =~= rep_vars@);
            assert(desc@ =~= closed_msg(alloc@, *def));
        }
        Result::Err(Error { loc: def.rep.loc(), ty: ErrorTy::CExprError, desc })
    }
}


/// What the specification-level program parser delivers: the loaded
/// definitions in source order with the grown interner, the first failure
/// (grammatical or closedness), or an exhausted step bound.
pub enum PProgRes {
    GDone(Seq<Def>, Seq<Seq<char>>),
    GFail(ErrorTy, Loc, Seq<char>),
    GShort,
}

/// The specification-level parse of a whole rule set: definition after
/// definition, each checked for closedness as soon as it is read, until
/// end of input; the first failure aborts the load.
pub open spec fn sp_program(
    fuel: nat,
    ids: Seq<Seq<char>>,
    s: Seq<char>,
    i: int,
    acc: Seq<Def>,
) -> PProgRes
    decreases fuel,
{
    if fuel == 0 {
        PProgRes::GShort
    } else {
        match sp_def((fuel - 1) as nat, ids, s, i) {
            PDefRes::DNone => PProgRes::GDone(acc, ids),
            PDefRes::DSome(d, j, ids2) => {
                if vars_of(d.rep).subset_of(vars_of(d.pat)) {
                    sp_program((fuel - 1) as nat, ids2, s, j, acc.push(d))
                } else {
                    PProgRes::GFail(ErrorTy::CExprError, d.rep.spec_loc(), closed_msg(ids2, d))
                }
            },
            PDefRes::DFail(t, l, d) => PProgRes::GFail(t, l, d),
            PDefRes::DShort => PProgRes::GShort,
        }
    }
}

/// With fuel beyond the remaining text, a program parse never runs out of
/// steps.
pub proof fn lemma_sp_program_total(
    fuel: nat,
    ids: Seq<Seq<char>>,
    s: Seq<char>,
    i: int,
    acc: Seq<Def>,
)
    requires
        0 <= i <= s.len(),
        fuel >= s.len() - i + 4,
    ensures
        !(sp_program(fuel, ids, s, i, acc) is GShort),
    decreases fuel,
{
    lemma_sp_def_total((fuel - 1) as nat, ids, s, i);
    lemma_sp_def_progress((fuel - 1) as nat, ids, s, i);
    match sp_def((fuel - 1) as nat, ids, s, i) {
        PDefRes::DSome(d, j, ids2) => {
            if vars_of(d.rep).subset_of(vars_of(d.pat)) {
                lemma_sp_program_total((fuel - 1) as nat, ids2, s, j, acc.push(d));
            }
        },
        _ => {},
    }
}

/// A program parse that did not run out of steps is unchanged by allowing
/// more.
pub proof fn lemma_sp_program_mono(
    f1: nat,
    f2: nat,
    ids: Seq<Seq<char>>,
    s: Seq<char>,
    i: int,
    acc: Seq<Def>,
)
    requires
        f1 <= f2,
        !(sp_program(f1, ids, s, i, acc) is GShort),
    ensures
        sp_program(f2, ids, s, i, acc) == sp_program(f1, ids, s, i, acc),
    decreases f1,
{
    if f1 > 0 {
        if !(sp_def((f1 - 1) as nat, ids, s, i) is DShort) {
            lemma_sp_def_mono((f1 - 1) as nat, (f2 - 1) as nat, ids, s, i);
        }
        match sp_def((f1 - 1) as nat, ids, s, i) {
            PDefRes::DSome(d, j, ids2) => {
                if vars_of(d.rep).subset_of(vars_of(d.pat)) {
                    lemma_sp_program_mono((f1 - 1) as nat, (f2 - 1) as nat, ids2, s, j, acc.push(d));
                }
            },
            _ => {},
        }
    }
}

/// Load a rule set: parse definition after definition, checking each for
/// closedness; the first failure of either kind aborts the whole load.
pub fn parse(alloc: &mut Alloc, src: String) -> (r: Result<Rules, Error>)
    requires
        old(alloc).wf(),
    ensures
        final(alloc).wf(),
        old(alloc)@.is_prefix_of(final(alloc)@),
        ({
            let spp = sp_program((src@.len() + 4) as nat, old(alloc)@, src@, 0, Seq::empty());
            match r {
                Result::Ok(rules) => spp == PProgRes::GDone(rules@, final(alloc)@),
                Result::Err(e) => spp == PProgRes::GFail(e.ty, e.loc, e.desc@),
            }
        }),
        r matches Ok(rules) ==> rules.wf(final(alloc)@.len() as int),
{
    let scanner = Scanner::new(src.as_str());
    let mut parser = Parser::new(scanner);
    let mut rules = Rules { defs: Vec::new() };
    let ghost gsrc = parser.sc.src();
    let ghost len = gsrc.len() as int;
    let ghost ids0 = alloc@;
    proof {
        assert(gsrc == src@);
    }
    loop
        invariant
            alloc.wf(),
            old(alloc)@.is_prefix_of(alloc@),
            parser.sc.wf(alloc@),
            parser.sc.src() == gsrc,
            gsrc == src@,
            len == gsrc.len() as int,
            ids0 == old(alloc)@,
            0 <= parser.sc.cursor() <= len,
            rules.wf(alloc@.len() as int),
            sp_program((len + 4) as nat, ids0, gsrc, 0, Seq::empty()) == sp_program(
                (len - parser.sc.cursor() + 4) as nat,
                alloc@,
                gsrc,
                parser.sc.cursor(),
                rules@,
            ),
        decreases gsrc.len() - parser.sc.cursor(),
    {
        proof {
            parser.sc.lemma_cursor_bounds(alloc@);
        }
        let ghost ids_i = alloc@;
        let ghost c_i = parser.sc.cursor();
        let ghost acc_i = rules@;
        let d = parser.parse_def(alloc);
        proof {
            lemma_prefix_trans(old(alloc)@, ids_i, alloc@);
            assert forall|k: int|
                0 <= k < rules@.len() implies (#[trigger] rules@[k]).wf(alloc@.len() as int) by {
                lemma_def_wf_mono(rules@[k], ids_i.len() as int, alloc@.len() as int);
            }
            lemma_sp_def_progress((len - c_i + 3) as nat, ids_i, gsrc, c_i);
        }
        match d {
            Result::Err(e) => {
                return Result::Err(e);
            },
            Result::Ok(Option::None) => {
                return Result::Ok(rules);
            },
            Result::Ok(Option::Some(def)) => {
                match check_closed(alloc, &def) {
                    Result::Err(e) => {
                        return Result::Err(e);
                    },
                    Result::Ok(()) => {},
                }
                rules.defs.push(def);
                proof {
                    parser.sc.lemma_cursor_bounds(alloc@);
                    let cj = parser.sc.cursor();
                    lemma_sp_program_total((len - cj + 4) as nat, alloc@, gsrc, cj, rules@);
                    lemma_sp_program_mono(
                        (len - cj + 4) as nat,
                        (len - c_i + 3) as nat,
                        alloc@,
                        gsrc,
                        cj,
                        rules@,
                    );
                }
            },
        }
    }
}

/// What parsing a seed expression delivers: the one expression of the text
/// followed by end of input, or the first failure.
pub open spec fn sp_top(fuel: nat, ids: Seq<Seq<char>>, s: Seq<char>) -> PRes {
    match sp_expr(fuel, ids, s, 0, false) {
        PRes::Done(id, loc, e, j, ids2) => match raw_at(s, j) {
            RawTok::REof => PRes::Done(id, loc, e, end_at(s, j), ids2),
            RawTok::RBad(c) => PRes::Fail(ErrorTy::SyntaxError, tok_loc(s, j), bad_char_text(c)),
            rt => PRes::Fail(
                ErrorTy::SyntaxError,
                tok_loc(s, j),
                expected_text(ids2, TokenTy::Eof, rt),
            ),
        },
        other => other,
    }
}

/// Parse one expression followed by end of input: the seed-term entry
/// point for evaluation.
pub fn parse_expr(alloc: &mut Alloc, src: String) -> (r: Result<Expr, Error>)
    requires
        old(alloc).wf(),
    ensures
        final(alloc).wf(),
        old(alloc)@.is_prefix_of(final(alloc)@),
        ({
            let spt = sp_top((src@.len() + 2) as nat, old(alloc)@, src@);
            match r {
                Result::Ok(e) => spt matches PRes::Done(hid, hloc, t, j2, ids2) && t == e && ids2
                    == final(alloc)@,
                Result::Err(er) => spt == PRes::Fail(er.ty, er.loc, er.desc@),
            }
        }),
        r matches Ok(e) ==> wf_expr(e, final(alloc)@.len() as int) && crate::parser::no_red(e),
{
    let scanner = Scanner::new(src.as_str());
    let mut parser = Parser::new(scanner);
    let ghost ids0 = alloc@;
    let res = parser.parse_expr(alloc, false);
    match res {
        Result::Err(e) => Result::Err(e),
        Result::Ok((_id, _loc, expr)) => {
            let ghost ids1 = alloc@;
            let ghost j = parser.sc.cursor();
            let t = parser.sc.expect_token(alloc, TokenTy::Eof);
            proof {
                lemma_prefix_trans(ids0, ids1, alloc@);
                lemma_wf_expr_mono(expr, ids1.len() as int, alloc@.len() as int);
                match raw_at(src@, j) {
                    RawTok::RBad(_) => {},
                    RawTok::REof => {},
                    rt => {
                        assert(expected_text(alloc@, TokenTy::Eof, rt) == expected_text(
                            ids1,
                            TokenTy::Eof,
                            rt,
                        ));
                    },
                }
            }
            match t {
                Result::Err(e) => Result::Err(e),
                Result::Ok(_) => Result::Ok(expr),
            }
        },
    }
}


/// A term the machine passes through unchanged: no rule applies to it nor
/// to any of its subterms, every application in it is frozen, no input
/// atom is left pending, and no frozen application hangs on the output
/// hook.
pub open spec fn normalized(defs: Seq<Def>, e: Expr) -> bool
    decreases e,
{
    match e {
        Expr::Var { .. } => true,
        Expr::Fun { id, .. } => id.0 != INPUT_N && engine_match(defs, id, e) is None,
        Expr::App(_) => false,
        Expr::RedApp(b) => normalized(defs, b.f) && normalized(defs, b.arg) && !is_io(b.f)
            && engine_match(
            defs,
            b.id,
            Expr::App(Box::new(crate::parser::App { id: b.id, loc: b.loc, f: b.f, arg: b.arg })),
        ) is None,
    }
}

/// Every frozen node of the term is already normalized; owned structure
/// above them may still hold work.
pub open spec fn frozen_norm(defs: Seq<Def>, e: Expr) -> bool
    decreases e,
{
    match e {
        Expr::Var { .. } => true,
        Expr::Fun { .. } => true,
        Expr::App(b) => frozen_norm(defs, b.f) && frozen_norm(defs, b.arg),
        Expr::RedApp(_) => normalized(defs, e),
    }
}

/// Whether a bare atom matches some rule does not depend on where the atom
/// stands: matching an atom compares handles alone.
pub proof fn lemma_fun_match_loc(defs: Seq<Def>, x: Id, l1: Loc, l2: Loc)
    requires
        forall|i: int| 0 <= i < defs.len() ==> (#[trigger] defs[i]).closed_wf(),
    ensures
        (engine_match(defs, x, Expr::Fun { id: x, loc: l1 }) is None) == (engine_match(
            defs,
            x,
            Expr::Fun { id: x, loc: l2 },
        ) is None),
    decreases defs.len(),
{
    if defs.len() > 0 {
        assert(forall|i: int|
            0 <= i < defs.drop_first().len() ==> defs.drop_first()[i] == defs[i + 1]);
        lemma_fun_match_loc(defs.drop_first(), x, l1, l2);
    }
}

/// A normalized term has normalized frozen parts.
pub proof fn lemma_norm_frozen(defs: Seq<Def>, e: Expr)
    requires
        normalized(defs, e),
    ensures
        frozen_norm(defs, e),
{
}

/// One frame whose terms respect the normalization discipline.
pub open spec fn frame_norm(defs: Seq<Def>, fr: Frame) -> bool {
    match fr {
        Frame::FnPending { arg, .. } => frozen_norm(defs, arg),
        Frame::ArgPending { f, .. } => normalized(defs, f),
    }
}

/// The machine's normalization discipline: what it walks down into has
/// normalized frozen parts, what it hands up is normalized, and so is
/// every finished function side waiting on the stack.
pub open spec fn norm_inv(defs: Seq<Def>, m: MachineView) -> bool {
    &&& match m.mode {
        Mode::Down(e) => frozen_norm(defs, e),
        Mode::Up(v) => normalized(defs, v),
        Mode::Input(_) => true,
    }
    &&& forall|i: int| 0 <= i < m.stack.len() ==> frame_norm(defs, #[trigger] m.stack[i])
}

/// A term with no frozen node at all has normalized frozen parts.
pub proof fn lemma_no_red_frozen(defs: Seq<Def>, e: &Expr)
    requires
        crate::parser::no_red(*e),
    ensures
        frozen_norm(defs, *e),
    decreases *e,
{
    match e {
        Expr::App(b) => {
            lemma_no_red_frozen(defs, &b.f);
            lemma_no_red_frozen(defs, &b.arg);
        },
        _ => {},
    }
}

/// Everything a successful match binds has normalized frozen parts,
/// provided the candidate and the prior bindings had.
pub proof fn lemma_unify_frozen_norm(defs: Seq<Def>, b: Map<Id, Expr>, pat: &Expr, e: &Expr)
    requires
        crate::unify::unify_spec(b, *pat, *e) is Some,
        frozen_norm(defs, *e),
        forall|k: Id| b.dom().contains(k) ==> frozen_norm(defs, #[trigger] b[k]),
    ensures
        forall|k: Id|
            crate::unify::unify_spec(b, *pat, *e).unwrap().dom().contains(k) ==> frozen_norm(
                defs,
                #[trigger] crate::unify::unify_spec(b, *pat, *e).unwrap()[k],
            ),
    decreases *pat,
{
    match pat {
        Expr::App(p) => {
            match e {
                Expr::App(c) => {
                    lemma_unify_frozen_norm(defs, b, &p.f, &c.f);
                    let ghost b2 = crate::unify::unify_spec(b, p.f, e->App_0.f).unwrap();
                    lemma_unify_frozen_norm(defs, b2, &p.arg, &c.arg);
                },
                Expr::RedApp(c) => {
                    lemma_norm_frozen(defs, rc_app(c).f);
                    lemma_norm_frozen(defs, rc_app(c).arg);
                    lemma_unify_frozen_norm(defs, b, &p.f, &c.f);
                    let ghost b2 = crate::unify::unify_spec(b, p.f, rc_app(c).f).unwrap();
                    lemma_unify_frozen_norm(defs, b2, &p.arg, &c.arg);
                },
                _ => {},
            }
        },
        _ => {},
    }
}


/// An instantiated replacement has normalized frozen parts whenever the
/// bindings it draws from do.
pub proof fn lemma_subst_frozen_norm(defs: Seq<Def>, b: Map<Id, Expr>, rep: &Expr)
    requires
        crate::parser::no_red(*rep),
        vars_of(*rep).subset_of(b.dom()),
        forall|k: Id| b.dom().contains(k) ==> frozen_norm(defs, #[trigger] b[k]),
    ensures
        frozen_norm(defs, crate::unify::subst_spec(b, *rep)),
    decreases *rep,
{
    match rep {
        Expr::Var { id, .. } => {
            assert(vars_of(*rep).contains(*id));
        },
        Expr::Fun { .. } => {},
        Expr::App(p) => {
            assert(vars_of(p.f).subset_of(vars_of(*rep)));
            assert(vars_of(p.arg).subset_of(vars_of(*rep)));
            lemma_subst_frozen_norm(defs, b, &p.f);
            lemma_subst_frozen_norm(defs, b, &p.arg);
        },
        Expr::RedApp(_) => {},
    }
}

/// Whatever one rule rewrites a term with normalized frozen parts to has
/// normalized frozen parts again.
pub proof fn lemma_apply_def_frozen_norm(defs: Seq<Def>, d: Def, e: Expr)
    requires
        apply_def_spec(d, e) is Some,
        frozen_norm(defs, e),
        d.closed_wf(),
    ensures
        frozen_norm(defs, apply_def_spec(d, e).unwrap()),
{
    let m = crate::unify::unify_spec(Map::empty(), d.pat, e).unwrap();
    crate::unify::lemma_unify_dom(Map::<Id, Expr>::empty(), &d.pat, &e);
    lemma_unify_frozen_norm(defs, Map::<Id, Expr>::empty(), &d.pat, &e);
    lemma_subst_frozen_norm(defs, m, &d.rep);
}

/// Whatever the first applicable rule rewrites a term with normalized
/// frozen parts to has normalized frozen parts again.
pub proof fn lemma_engine_match_frozen_norm(defs: Seq<Def>, sub: Seq<Def>, id: Id, e: Expr)
    requires
        engine_match(sub, id, e) is Some,
        frozen_norm(defs, e),
        forall|i: int| 0 <= i < sub.len() ==> (#[trigger] sub[i]).closed_wf(),
    ensures
        frozen_norm(defs, engine_match(sub, id, e).unwrap()),
    decreases sub.len(),
{
    if sub.len() > 0 {
        if sub[0].id == id && apply_def_spec(sub[0], e) is Some {
            lemma_apply_def_frozen_norm(defs, sub[0], e);
        } else {
            assert(forall|i: int|
                0 <= i < sub.drop_first().len() ==> sub.drop_first()[i] == sub[i + 1]);
            lemma_engine_match_frozen_norm(defs, sub.drop_first(), id, e);
        }
    }
}

/// One machine transition preserves the normalization discipline.
pub proof fn lemma_step_norm(defs: Seq<Def>, m: MachineView)
    requires
        norm_inv(defs, m),
        forall|i: int| 0 <= i < defs.len() ==> (#[trigger] defs[i]).closed_wf(),
    ensures
        norm_inv(defs, step_spec(defs, m).0),
{
    let m2 = step_spec(defs, m).0;
    match m.mode {
        Mode::Down(e) => match e {
            Expr::App(b) => {
                assert forall|i: int| 0 <= i < m2.stack.len() implies frame_norm(
                    defs,
                    #[trigger] m2.stack[i],
                ) by {
                    if i < m.stack.len() {
                        assert(m2.stack[i] == m.stack[i]);
                    }
                }
            },
            Expr::Fun { id, loc } => {
                if id.0 != INPUT_N && engine_match(defs, id, e) is Some {
                    lemma_engine_match_frozen_norm(defs, defs, id, e);
                }
            },
            _ => {},
        },
        Mode::Up(v) => {
            if m.stack.len() > 0 {
                match m.stack.last() {
                    Frame::FnPending { loc, arg } => {
                        assert forall|i: int| 0 <= i < m2.stack.len() implies frame_norm(
                            defs,
                            #[trigger] m2.stack[i],
                        ) by {
                            if i < m.stack.len() - 1 {
                                assert(m2.stack[i] == m.stack[i]);
                            } else {
                                assert(m2.stack[i] == Frame::ArgPending { loc, f: v });
                            }
                        }
                    },
                    Frame::ArgPending { loc, f } => {
                        assert forall|i: int| 0 <= i < m2.stack.len() implies frame_norm(
                            defs,
                            #[trigger] m2.stack[i],
                        ) by {
                            assert(m2.stack[i] == m.stack[i]);
                        }
                        if is_io(f) {
                            match f {
                                Expr::Fun { id: fid, loc: floc } => {
                                    lemma_fun_match_loc(defs, fid, floc, loc);
                                },
                                _ => {},
                            }
                        } else {
                            let id = cached_head(f);
                            let node = Expr::App(
                                Box::new(crate::parser::App { id, loc, f, arg: v }),
                            );
                            lemma_norm_frozen(defs, f);
                            lemma_norm_frozen(defs, v);
                            if engine_match(defs, id, node) is Some {
                                lemma_engine_match_frozen_norm(defs, defs, id, node);
                            }
                        }
                    },
                }
            }
        },
        Mode::Input(_) => {},
    }
}

/// Answering the input hook preserves the normalization discipline: the
/// encoded byte and the end-of-stream atom hold no frozen node at all.
pub proof fn lemma_provide_norm(defs: Seq<Def>, m: MachineView, b: Option<u8>)
    requires
        norm_inv(defs, m),
    ensures
        norm_inv(defs, provide_spec(m, b)),
{
    match m.mode {
        Mode::Input(loc) => match b {
            Option::Some(by) => {
                let p = encode_spec(m.ids, by, loc);
                reveal_with_fuel(frozen_norm, 4);
                assert(frozen_norm(defs, p.1));
            },
            Option::None => {},
        },
        _ => {},
    }
}

/// Local normal form: whenever the fuel-indexed run delivers a result,
/// the term it delivers is normalized: no rule applies to it or to any of
/// its subterms, and every application node in it is frozen.
pub proof fn lemma_run_normal_form(
    defs: Seq<Def>,
    m: MachineView,
    input: Seq<u8>,
    pos: int,
    out: Seq<u8>,
    fuel: nat,
)
    requires
        norm_inv(defs, m),
        forall|i: int| 0 <= i < defs.len() ==> (#[trigger] defs[i]).closed_wf(),
    ensures
        ({
            let res = run_spec(defs, m, input, pos, out, fuel);
            res.3 is Some ==> normalized(defs, mode_term(res.0.mode))
        }),
    decreases fuel,
{
    if m.mode is Up && m.stack.len() == 0 {
    } else if fuel == 0 {
    } else if m.mode is Input {
        let b = io_at(input, pos);
        let pos2 = if b is Some {
            pos + 1
        } else {
            pos
        };
        lemma_provide_norm(defs, m, b);
        lemma_run_normal_form(defs, provide_spec(m, b), input, pos2, out, (fuel - 1) as nat);
    } else {
        let s = step_spec(defs, m);
        let out2 = match s.1 {
            Option::Some(x) => out.push(x),
            Option::None => out,
        };
        lemma_step_norm(defs, m);
        lemma_run_normal_form(defs, s.0, input, pos, out2, (fuel - 1) as nat);
    }
}


} // verus!
