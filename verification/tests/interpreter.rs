use rhokell::intern::{Alloc, DisplayWithAlloc};
use rhokell::parser::dispose;
use rhokell::{apply, parse, parse_expr, IoBuffer};

const FUEL: u64 = 100_000_000;

fn empty_io() -> IoBuffer {
    IoBuffer { input: Vec::new(), pos: 0, output: Vec::new() }
}

fn io_with(bytes: &[u8]) -> IoBuffer {
    IoBuffer { input: bytes.to_vec(), pos: 0, output: Vec::new() }
}

fn eval_to_string(rules_src: &str, seed: &str, io: &mut IoBuffer) -> String {
    let mut alloc = Alloc::new();
    let rules = parse(&mut alloc, rules_src.to_string()).expect("rules must load");
    let mut expr = parse_expr(&mut alloc, seed.to_string()).expect("seed must parse");
    let changed = apply(&rules, &mut expr, &mut alloc, io, FUEL);
    assert!(changed.is_some(), "evaluation must settle within the step budget");
    let rendered = expr.to_string(&alloc);
    dispose(expr);
    rendered
}

#[test]
fn first_match_wins() {
    let mut io = empty_io();
    let out = eval_to_string("(f a) = (one); (f X) = (two);", "(f a)", &mut io);
    assert_eq!(out, "one");
}

#[test]
fn later_rule_fires_when_first_fails() {
    // The first rule demands two equal arguments; unequal ones fall through.
    let mut io = empty_io();
    let out = eval_to_string("(g X X) = (same); (g X Y) = (diff);", "(g (a) (b))", &mut io);
    assert_eq!(out, "diff");
}

#[test]
fn nonlinear_pattern_matches_equal_arguments() {
    let mut io = empty_io();
    let out = eval_to_string("(f X X) = (yes);", "(f (a) (a))", &mut io);
    assert_eq!(out, "yes");
}

#[test]
fn nonlinear_pattern_rejects_unequal_arguments() {
    let mut io = empty_io();
    let out = eval_to_string("(f X X) = (yes);", "(f (a) (b))", &mut io);
    assert_eq!(out, "(f a b)");
}

#[test]
fn end_to_end_byte_echo() {
    let mut io = io_with(&[0x41]);
    let out = eval_to_string("(id X) = X; (main) = (output (id (input)));", "(main)", &mut io);
    assert_eq!(io.output, vec![0x41], "stdin byte A must come back out");
    assert_eq!(out, "output", "the spent hook collapses to the output atom");
}

#[test]
fn end_of_stream_encodes_eof_atom() {
    let mut io = empty_io();
    let out = eval_to_string("(main) = (input);", "(main)", &mut io);
    assert_eq!(out, "EOF");
    assert_eq!(io.output, Vec::<u8>::new());
}

#[test]
fn two_inputs_read_in_order() {
    let mut io = io_with(&[0x30, 0x31]);
    let out = eval_to_string(
        "(main) = ((pair (output (input))) (output (input)));",
        "(main)",
        &mut io,
    );
    assert_eq!(io.output, vec![0x30, 0x31]);
    assert_eq!(out, "(pair output output)");
}

#[test]
fn deterministic_replay() {
    // Fixed rules and fixed input bytes give identical output bytes and
    // identical results, run after run.
    let rules = "(id X) = X; (main) = (output (id (input)));";
    let mut io1 = io_with(&[0x7f]);
    let out1 = eval_to_string(rules, "(main)", &mut io1);
    let mut io2 = io_with(&[0x7f]);
    let out2 = eval_to_string(rules, "(main)", &mut io2);
    assert_eq!(io1.output, io2.output);
    assert_eq!(out1, out2);
}

#[test]
fn substitution_shadows_global_atom() {
    // A replacement atom spelled like a bound variable means the binding.
    let mut io = empty_io();
    let out = eval_to_string("(f X) = (X (a));", "(f (g))", &mut io);
    assert_eq!(out, "(g a)");
}

#[test]
fn fuel_exhaustion_reports_nothing() {
    let mut alloc = Alloc::new();
    let rules = parse(&mut alloc, "(w) = (w);".to_string()).expect("rules must load");
    let mut expr = parse_expr(&mut alloc, "(w)".to_string()).expect("seed must parse");
    let mut io = empty_io();
    let changed = apply(&rules, &mut expr, &mut alloc, &mut io, 1000);
    assert_eq!(changed, None, "a diverging rule set never settles");
    dispose(expr);
}

#[test]
fn irreducible_term_is_unchanged() {
    let mut alloc = Alloc::new();
    let rules = parse(&mut alloc, "(f (a)) = (b);".to_string()).expect("rules must load");
    let mut expr = parse_expr(&mut alloc, "(g (c))".to_string()).expect("seed must parse");
    let mut io = empty_io();
    let changed = apply(&rules, &mut expr, &mut alloc, &mut io, FUEL);
    assert_eq!(changed, Some(false));
    assert_eq!(expr.to_string(&alloc), "(g c)");
    dispose(expr);
}

#[test]
fn deep_application_chain_normalizes_without_stack_overflow() {
    // exp(20) builds an application chain of 2^20 (over a million) nodes
    // before reaching normal form; evaluation, and tearing the result
    // down, must survive without exhausting the native call stack.
    let rules_src = "(dbl (z)) = (z);\
                     (dbl (s N)) = (s (s (dbl N)));\
                     (exp (z)) = (s (z));\
                     (exp (s N)) = (dbl (exp N));";
    let mut seed = String::new();
    seed.push_str("(exp ");
    for _ in 0..20 {
        seed.push_str("(s ");
    }
    seed.push_str("(z)");
    for _ in 0..20 {
        seed.push(')');
    }
    seed.push(')');

    let mut alloc = Alloc::new();
    let rules = parse(&mut alloc, rules_src.to_string()).expect("rules must load");
    let mut expr = parse_expr(&mut alloc, seed).expect("seed must parse");
    let mut io = empty_io();
    let changed = apply(&rules, &mut expr, &mut alloc, &mut io, 400_000_000);
    assert_eq!(changed, Some(true));
    let head = rhokell::parser::get_id(&expr);
    let s_id = alloc.alloc_or_get("s");
    assert_eq!(head.0, s_id.0, "the normal form is a chain of s applications");
    dispose(expr);
}

#[test]
fn output_hook_takes_precedence_over_rules() {
    // A rule set may define rules headed by `output`, but an application
    // whose function is the bare output atom is claimed by the hook first.
    let mut io = empty_io();
    let out = eval_to_string("(output X) = (nope);", "(output (byte (4) (1)))", &mut io);
    assert_eq!(io.output, vec![0x41]);
    assert_eq!(out, "output");
}

#[test]
fn input_hook_takes_precedence_over_rules() {
    let mut io = io_with(&[0x41]);
    let out = eval_to_string("(input) = (nope);", "(input)", &mut io);
    assert_eq!(out, "(byte 4 1)");
}

#[test]
fn rule_for_bare_output_atom_preempts_the_hook() {
    // The function side of an application normalizes before the hook
    // check, so a rule for the bare output atom rewrites it away and the
    // hook never sees the node.
    let mut io = empty_io();
    let out = eval_to_string("(output) = (gone);", "(output (byte (4) (2)))", &mut io);
    assert_eq!(io.output, Vec::<u8>::new());
    assert_eq!(out, "(gone (byte 4 2))");
}

#[test]
fn discarding_a_deep_chain_tears_it_down_iteratively() {
    // A rule that drops its binding makes the engine tear down a chain of
    // 2^20 nodes mid-evaluation; that teardown must not exhaust the
    // native call stack either.
    let rules_src = "(dbl (z)) = (z);\
                     (dbl (s N)) = (s (s (dbl N)));\
                     (exp (z)) = (s (z));\
                     (exp (s N)) = (dbl (exp N));\
                     (discard X) = (done);";
    let mut seed = String::new();
    seed.push_str("(discard (exp ");
    for _ in 0..20 {
        seed.push_str("(s ");
    }
    seed.push_str("(z)");
    for _ in 0..20 {
        seed.push(')');
    }
    seed.push_str("))");
    let mut io = empty_io();
    let out = eval_to_string(rules_src, &seed, &mut io);
    assert_eq!(out, "done");
}
