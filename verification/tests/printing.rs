use rhokell::intern::{Alloc, DisplayWithAlloc};
use rhokell::parser::dispose;
use rhokell::token::{Scanner, TokenTy};
use rhokell::{apply, eval_new, eval_provide, eval_step, eval_take, parse, parse_expr, EvalEvent,
    IoBuffer};

fn round_trip(src: &str) -> (String, String) {
    let mut alloc = Alloc::new();
    let t = parse_expr(&mut alloc, src.to_string()).expect("must parse");
    let first = t.to_string(&alloc);
    let t2 = parse_expr(&mut alloc, first.clone()).expect("printed form must reparse");
    let second = t2.to_string(&alloc);
    dispose(t);
    dispose(t2);
    (first, second)
}

#[test]
fn atoms_print_bare() {
    let (first, second) = round_trip("(f)");
    assert_eq!(first, "f");
    assert_eq!(second, "f");
}

#[test]
fn applications_print_flat_with_parens_only_where_needed() {
    let (first, second) = round_trip("((f a) (g b))");
    assert_eq!(first, "(f a (g b))");
    assert_eq!(second, first);
}

#[test]
fn nested_arguments_keep_their_parens() {
    let (first, second) = round_trip("(f (g (h x)) y)");
    assert_eq!(first, "(f (g (h x)) y)");
    assert_eq!(second, first);
}

#[test]
fn interner_reuses_handles() {
    let mut alloc = Alloc::new();
    let a = alloc.alloc_or_get("foo");
    let b = alloc.alloc_or_get("bar");
    let c = alloc.alloc_or_get("foo");
    assert_eq!(a.0, c.0);
    assert_ne!(a.0, b.0);
    assert_eq!(alloc.get_string(&a), "foo");
    assert_eq!(alloc.get_string(&b), "bar");
}

#[test]
fn reserved_identifiers_are_preregistered() {
    let mut alloc = Alloc::new();
    assert_eq!(alloc.alloc_or_get("EOF").0, rhokell::intern::EOF_N);
    assert_eq!(alloc.alloc_or_get("byte").0, rhokell::intern::BYTE_N);
    assert_eq!(alloc.alloc_or_get("input").0, rhokell::intern::INPUT_N);
    assert_eq!(alloc.alloc_or_get("output").0, rhokell::intern::OUTPUT_N);
}

#[test]
fn evaluation_results_round_trip_through_printing() {
    // Render a term produced by evaluation, reparse it, render again: the
    // two printed forms agree.
    let mut alloc = Alloc::new();
    let rules = parse(
        &mut alloc,
        "(rev (nil) Acc) = Acc; (rev ((cons H) T) Acc) = (rev T ((cons H) Acc));".to_string(),
    )
    .expect("rules must load");
    let mut t = parse_expr(
        &mut alloc,
        "(rev (cons (a) (cons (b) (nil))) (nil))".to_string(),
    )
    .expect("seed must parse");
    let mut io = IoBuffer { input: Vec::new(), pos: 0, output: Vec::new() };
    let changed = apply(&rules, &mut t, &mut alloc, &mut io, 1_000_000);
    assert_eq!(changed, Some(true));
    let first = t.to_string(&alloc);
    let t2 = parse_expr(&mut alloc, first.clone()).expect("printed form must reparse");
    let second = t2.to_string(&alloc);
    assert_eq!(second, first);
    dispose(t);
    dispose(t2);
}

#[test]
fn frozen_and_owned_nodes_print_alike() {
    // The same program text prints identically before evaluation (owned
    // nodes) and after freezing to normal form under a rule set with
    // nothing to rewrite.
    let mut alloc = Alloc::new();
    let rules = parse(&mut alloc, "(unused) = (unused2);".to_string()).expect("must load");
    let mut t = parse_expr(&mut alloc, "(f (g x) y)".to_string()).expect("must parse");
    let before = t.to_string(&alloc);
    let mut io = IoBuffer { input: Vec::new(), pos: 0, output: Vec::new() };
    let changed = apply(&rules, &mut t, &mut alloc, &mut io, 1_000_000);
    assert_eq!(changed, Some(false));
    assert_eq!(t.to_string(&alloc), before);
    dispose(t);
}

#[test]
fn step_machine_mirrors_the_buffered_driver() {
    // Drive the machine one step at a time, answering its hooks by hand,
    // exactly as a blocking front end would.
    let mut alloc = Alloc::new();
    let rules = parse(
        &mut alloc,
        "(id X) = X; (main) = (output (id (input)));".to_string(),
    )
    .expect("rules must load");
    let seed = parse_expr(&mut alloc, "(main)".to_string()).expect("seed must parse");
    let mut st = eval_new(seed);
    let mut written: Vec<u8> = Vec::new();
    let mut reads: usize = 0;
    let changed = loop {
        match eval_step(&rules, &alloc, &mut st) {
            EvalEvent::Working => {}
            EvalEvent::Output(b) => written.push(b),
            EvalEvent::NeedInput => {
                reads += 1;
                eval_provide(&mut alloc, &mut st, Some(0x41));
            }
            EvalEvent::Done(c) => break c,
        }
    };
    assert!(changed);
    assert_eq!(reads, 1);
    assert_eq!(written, vec![0x41]);
    let (term, _) = eval_take(st);
    assert_eq!(term.to_string(&alloc), "output");
    dispose(term);
}

#[test]
fn scanner_hands_out_interned_tokens() {
    let mut alloc = Alloc::new();
    let mut sc = Scanner::new("(abc)");
    let t1 = sc.next_token(&mut alloc).expect("token");
    assert_eq!(t1.ty(), TokenTy::Lparen);
    let (loc, id) = sc.expect_identifier(&mut alloc).expect("identifier");
    assert_eq!(alloc.get_string(&id), "abc");
    assert_eq!(loc.line, 1);
    assert_eq!(loc.col, 2);
    let peeked = sc.peek(&mut alloc).expect("token").ty();
    assert_eq!(peeked, TokenTy::Rparen);
    assert!(sc.is_token(&mut alloc, TokenTy::Rparen).expect("token"));
    let t4 = sc.next_token(&mut alloc).expect("token");
    assert_eq!(t4.ty(), TokenTy::Eof);
}

#[test]
fn expected_token_diagnostics_name_both_sides() {
    let mut alloc = Alloc::new();
    let err = parse(&mut alloc, "(f) (a);".to_string()).expect_err("must be rejected");
    assert_eq!(err.desc, "expected token `=`, found token `(`");
}

#[test]
fn three_offending_names_read_naturally() {
    let mut alloc = Alloc::new();
    let err = parse(&mut alloc, "(f) = (((g A) B) C);".to_string()).expect_err("rejected");
    assert_eq!(err.desc, "undefined variables: A, B, and C");
}

#[test]
fn a_specific_identifier_can_be_expected() {
    let mut alloc = Alloc::new();
    let foo = alloc.alloc_or_get("foo");
    let bar = alloc.alloc_or_get("bar");
    let mut sc = Scanner::new("foo");
    assert!(!sc.is_token(&mut alloc, TokenTy::Ident(bar)).expect("token"));
    assert!(sc.is_token(&mut alloc, TokenTy::Ident(foo)).expect("token"));
    let err = Scanner::new("foo").expect_token(&mut alloc, TokenTy::Ident(bar))
        .expect_err("wrong identifier");
    assert_eq!(err.desc, "expected identifier `bar`, found identifier `foo`");
}
