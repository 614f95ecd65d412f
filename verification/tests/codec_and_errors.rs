use rhokell::error::{ErrorTy, Loc};
use rhokell::intern::{Alloc, DisplayWithAlloc};
use rhokell::io::{decode, decode_hex, encode_byte};
use rhokell::parser::dispose;
use rhokell::{parse, parse_expr};

#[test]
fn every_byte_survives_encode_then_decode() {
    let mut alloc = Alloc::new();
    for b in 0..=255u8 {
        let t = encode_byte(&mut alloc, b, Loc::new());
        assert_eq!(decode(&alloc, &t), b);
        dispose(t);
    }
}

#[test]
fn byte_encoding_has_the_nibble_pair_shape() {
    let mut alloc = Alloc::new();
    let t = encode_byte(&mut alloc, 0x41, Loc::new());
    assert_eq!(t.to_string(&alloc), "(byte 4 1)");
    dispose(t);
}

#[test]
fn decoding_the_eof_atom_gives_the_default_zero() {
    let mut alloc = Alloc::new();
    let t = parse_expr(&mut alloc, "(EOF)".to_string()).expect("must parse");
    assert_eq!(decode(&alloc, &t), 0);
    dispose(t);
}

#[test]
fn malformed_output_terms_decode_to_zero() {
    let mut alloc = Alloc::new();
    for src in ["(a)", "(byte)", "(byte 4)", "(byte fish 1)", "(byte 4 fish)"] {
        let t = parse_expr(&mut alloc, src.to_string()).expect("must parse");
        assert_eq!(decode(&alloc, &t), 0, "{src} must decode to the default");
        dispose(t);
    }
}

#[test]
fn hex_digits_decode_in_either_case() {
    let mut alloc = Alloc::new();
    let upper = parse_expr(&mut alloc, "(F)".to_string()).expect("must parse");
    let lower = parse_expr(&mut alloc, "(f)".to_string()).expect("must parse");
    assert_eq!(decode_hex(&alloc, &upper), Some(15));
    assert_eq!(decode_hex(&alloc, &lower), Some(15));
    dispose(upper);
    dispose(lower);
}

#[test]
fn open_replacement_fails_to_load() {
    let mut alloc = Alloc::new();
    let err = parse(&mut alloc, "(f X) = Y;".to_string()).expect_err("must be rejected");
    assert_eq!(err.ty, ErrorTy::CExprError);
    assert_eq!(err.desc, "undefined variables: Y");
}

#[test]
fn open_replacement_lists_all_offenders() {
    let mut alloc = Alloc::new();
    let err = parse(&mut alloc, "(f) = ((g Y) Z);".to_string()).expect_err("must be rejected");
    assert_eq!(err.ty, ErrorTy::CExprError);
    assert_eq!(err.desc, "undefined variables: Y, and Z");
}

#[test]
fn one_open_definition_aborts_the_whole_load() {
    let mut alloc = Alloc::new();
    let err = parse(&mut alloc, "(ok X) = X; (bad) = Y;".to_string())
        .expect_err("must be rejected");
    assert_eq!(err.ty, ErrorTy::CExprError);
}

#[test]
fn bare_variable_pattern_is_rejected() {
    let mut alloc = Alloc::new();
    let err = parse(&mut alloc, "X = (a);".to_string()).expect_err("must be rejected");
    assert_eq!(err.ty, ErrorTy::SyntaxError);
    assert_eq!(err.desc, "bare variables are not allowed");
}

#[test]
fn unrecognized_character_is_a_syntax_error() {
    let mut alloc = Alloc::new();
    let err = parse(&mut alloc, "(f) = (a) @".to_string()).expect_err("must be rejected");
    assert_eq!(err.ty, ErrorTy::SyntaxError);
    assert_eq!(err.desc, "unrecognized character @");
    assert_eq!(err.loc.line, 1);
    assert_eq!(err.loc.col, 11);
}

#[test]
fn missing_semicolon_is_a_syntax_error() {
    let mut alloc = Alloc::new();
    let err = parse(&mut alloc, "(f) = (a)".to_string()).expect_err("must be rejected");
    assert_eq!(err.ty, ErrorTy::SyntaxError);
    assert_eq!(err.desc, "expected token `;`, found EOF");
}

#[test]
fn premature_end_of_input_is_a_syntax_error() {
    let mut alloc = Alloc::new();
    let err = parse(&mut alloc, "(f X) =".to_string()).expect_err("must be rejected");
    assert_eq!(err.ty, ErrorTy::SyntaxError);
    assert_eq!(err.desc, "expected identifier, found EOF");
}

#[test]
fn locations_track_lines_and_columns() {
    let mut alloc = Alloc::new();
    let err = parse(&mut alloc, "(f X) =\n  !".to_string()).expect_err("must be rejected");
    assert_eq!(err.ty, ErrorTy::SyntaxError);
    assert_eq!(err.loc.line, 2);
    assert_eq!(err.loc.col, 3);
}

#[test]
fn comments_and_whitespace_are_skipped() {
    let mut alloc = Alloc::new();
    let src = "# a comment to end of line\n(f) = (a); # trailing\n\t (g) = (b);";
    assert!(parse(&mut alloc, src.to_string()).is_ok());
}

#[test]
fn identifiers_may_hold_letters_beyond_ascii() {
    let mut alloc = Alloc::new();
    assert!(parse(&mut alloc, "(répondre) = (réponse);".to_string()).is_ok());
}

#[test]
fn symbols_beyond_ascii_are_unrecognized_characters() {
    let mut alloc = Alloc::new();
    let err = parse(&mut alloc, "(f) = (a) \u{20ac}".to_string()).expect_err("must be rejected");
    assert_eq!(err.ty, ErrorTy::SyntaxError);
    assert_eq!(err.desc, "unrecognized character \u{20ac}");
}

#[test]
fn whitespace_beyond_ascii_separates_tokens() {
    let mut alloc = Alloc::new();
    assert!(parse(&mut alloc, "(f)\u{a0}=\u{2003}(a);".to_string()).is_ok());
}
