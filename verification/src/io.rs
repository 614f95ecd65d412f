//! The byte codec of the I/O protocol: a single input byte is encoded as
//! the term `(byte high low)` over single-hex-digit atoms (end-of-stream
//! as the bare `EOF` atom), and an output term of that shape is decoded
//! back to a byte, any mismatch decoding to the default 0.
use vstd::prelude::*;

use crate::error::Loc;
use crate::intern::{Alloc, Id, BYTE_N, EOF_N};
use crate::parser::{head_of, no_red, wf_expr, App, Expr};
use crate::token::char_to_string;

verus! {

/// The upper-case hex digit of a nibble.
pub open spec fn hex_char(n: int) -> char {
    if n == 0 {
        '0'
    } else if n == 1 {
        '1'
    } else if n == 2 {
        '2'
    } else if n == 3 {
        '3'
    } else if n == 4 {
        '4'
    } else if n == 5 {
        '5'
    } else if n == 6 {
        '6'
    } else if n == 7 {
        '7'
    } else if n == 8 {
        '8'
    } else if n == 9 {
        '9'
    } else if n == 10 {
        'A'
    } else if n == 11 {
        'B'
    } else if n == 12 {
        'C'
    } else if n == 13 {
        'D'
    } else if n == 14 {
        'E'
    } else {
        'F'
    }
}

/// The value of a single hex digit character, either case.
pub open spec fn hex_val(c: char) -> Option<u8> {
    if '0' <= c && c <= '9' {
        Option::Some((c as int - '0' as int) as u8)
    } else if 'a' <= c && c <= 'f' {
        Option::Some((c as int - 'a' as int + 10) as u8)
    } else if 'A' <= c && c <= 'F' {
        Option::Some((c as int - 'A' as int + 10) as u8)
    } else {
        Option::None
    }
}

/// The encoded form of a byte: `(byte high low)`, all three nodes carrying
/// the head handle of `byte` and the same position.
pub open spec fn byte_term(hi: Id, lo: Id, loc: Loc) -> Expr {
    Expr::App(
        Box::new(
            App {
                id: Id(BYTE_N),
                loc,
                f: Expr::App(
                    Box::new(
                        App {
                            id: Id(BYTE_N),
                            loc,
                            f: Expr::Fun { id: Id(BYTE_N), loc },
                            arg: Expr::Fun { id: hi, loc },
                        },
                    ),
                ),
                arg: Expr::Fun { id: lo, loc },
            },
        ),
    )
}

/// The encoded form of end-of-stream: the bare `EOF` atom.
pub open spec fn eof_term(loc: Loc) -> Expr {
    Expr::Fun { id: Id(EOF_N), loc }
}

/// The handle of the first interned occurrence of a spelling.
pub open spec fn find_sp(ids: Seq<Seq<char>>, sp: Seq<char>) -> Option<int>
    decreases ids.len(),
{
    if ids.len() == 0 {
        Option::None
    } else if ids[0] == sp {
        Option::Some(0)
    } else {
        match find_sp(ids.drop_first(), sp) {
            Option::Some(k) => Option::Some(k + 1),
            Option::None => Option::None,
        }
    }
}

/// What interning one spelling does: an already-known spelling resolves to
/// its first occurrence, a new one is appended.
pub open spec fn intern_one(ids: Seq<Seq<char>>, sp: Seq<char>) -> (Seq<Seq<char>>, Id) {
    match find_sp(ids, sp) {
        Option::Some(j) => (ids, Id(j as usize)),
        Option::None => (ids.push(sp), Id(ids.len() as usize)),
    }
}

/// `find_sp` finds exactly the first occurrence, if there is one.
pub proof fn lemma_find_sp(ids: Seq<Seq<char>>, sp: Seq<char>)
    ensures
        match find_sp(ids, sp) {
            Option::Some(j) => 0 <= j < ids.len() && ids[j] == sp && (forall|k: int|
                0 <= k < j ==> ids[k] != sp),
            Option::None => forall|k: int| 0 <= k < ids.len() ==> ids[k] != sp,
        },
    decreases ids.len(),
{
    if ids.len() > 0 && ids[0] != sp {
        lemma_find_sp(ids.drop_first(), sp);
        match find_sp(ids.drop_first(), sp) {
            Option::Some(k) => {
                assert(ids[k + 1] == ids.drop_first()[k]);
                assert forall|m: int| 0 <= m < k + 1 implies ids[m] != sp by {
                    if m >= 1 {
                        assert(ids[m] == ids.drop_first()[m - 1]);
                    }
                }
            },
            Option::None => {
                assert forall|m: int| 0 <= m < ids.len() implies ids[m] != sp by {
                    if m >= 1 {
                        assert(ids[m] == ids.drop_first()[m - 1]);
                    }
                }
            },
        }
    }
}

/// Encoding a byte: intern its two hex-digit spellings, then build
/// `(byte high low)`.
pub open spec fn encode_spec(ids: Seq<Seq<char>>, b: u8, loc: Loc) -> (Seq<Seq<char>>, Expr) {
    let (ids1, hi) = intern_one(ids, seq![hex_char(b as int / 16)]);
    let (ids2, lo) = intern_one(ids1, seq![hex_char(b as int % 16)]);
    (ids2, byte_term(hi, lo, loc))
}

/// An application node's function and argument, whichever flavour it is.
pub open spec fn app_parts(e: Expr) -> Option<(Expr, Expr)> {
    match e {
        Expr::App(b) => Option::Some((b.f, b.arg)),
        Expr::RedApp(b) => Option::Some((b.f, b.arg)),
        _ => Option::None,
    }
}

/// The nibble a leaf decodes to: its identifier parsed as one hex digit.
pub open spec fn digit_of(ids: Seq<Seq<char>>, e: Expr) -> Option<u8> {
    match e {
        Expr::Fun { id, .. } => {
            if id.0 < ids.len() && ids[id.0 as int].len() == 1 {
                hex_val(ids[id.0 as int][0])
            } else {
                Option::None
            }
        },
        _ => Option::None,
    }
}

/// Decoding an output argument: a two-level application headed by `byte`
/// whose two arguments are single hex digits gives the byte they spell;
/// any other shape gives the default 0.
pub open spec fn decode_spec(ids: Seq<Seq<char>>, e: Expr) -> u8 {
    match app_parts(e) {
        Option::Some((f1, lo_leaf)) => {
            if head_of(e).0 == BYTE_N {
                match app_parts(f1) {
                    Option::Some((_f2, hi_leaf)) => {
                        match (digit_of(ids, hi_leaf), digit_of(ids, lo_leaf)) {
                            (Option::Some(h), Option::Some(l)) => (h as int * 16 + l as int) as u8,
                            _ => 0,
                        }
                    },
                    Option::None => 0,
                }
            } else {
                0
            }
        },
        Option::None => 0,
    }
}

/// The hex digit character of a nibble.
fn hex_digit(n: u8) -> (r: char)
    requires
        n < 16,
    ensures
        r == hex_char(n as int),
{
    if n == 0 {
        '0'
    } else if n == 1 {
        '1'
    } else if n == 2 {
        '2'
    } else if n == 3 {
        '3'
    } else if n == 4 {
        '4'
    } else if n == 5 {
        '5'
    } else if n == 6 {
        '6'
    } else if n == 7 {
        '7'
    } else if n == 8 {
        '8'
    } else if n == 9 {
        '9'
    } else if n == 10 {
        'A'
    } else if n == 11 {
        'B'
    } else if n == 12 {
        'C'
    } else if n == 13 {
        'D'
    } else if n == 14 {
        'E'
    } else {
        'F'
    }
}

/// Build the wire-level term of one input byte, interning the hex digit
/// spellings on demand.
pub fn encode_byte(alloc: &mut Alloc, b: u8, loc: Loc) -> (r: Expr)
    requires
        old(alloc).wf(),
    ensures
        final(alloc).wf(),
        old(alloc)@.is_prefix_of(final(alloc)@),
        (final(alloc)@, r) == encode_spec(old(alloc)@, b, loc),
        wf_expr(r, final(alloc)@.len() as int),
        no_red(r),
{
    let hi_c = hex_digit(b / 16);
    let lo_c = hex_digit(b % 16);
    let hi_s = char_to_string(hi_c);
    let ghost ids0 = alloc@;
    let hi = alloc.alloc_or_get(hi_s.as_str());
    proof {
        lemma_find_sp(ids0, seq![hex_char(b as int / 16)]);
        assert(hi_s@ =~= seq![hex_char(b as int / 16)]);
    }
    let lo_s = char_to_string(lo_c);
    let ghost ids1 = alloc@;
    let lo = alloc.alloc_or_get(lo_s.as_str());
    proof {
        lemma_find_sp(ids1, seq![hex_char(b as int % 16)]);
        assert(lo_s@ =~= seq![hex_char(b as int % 16)]);
    }
    let inner = Expr::App(
        Box::new(
            App {
                id: Id(BYTE_N),
                loc,
                f: Expr::Fun { id: Id(BYTE_N), loc },
                arg: Expr::Fun { id: hi, loc },
            },
        ),
    );
    let outer = Expr::App(
        Box::new(App { id: Id(BYTE_N), loc, f: inner, arg: Expr::Fun { id: lo, loc } }),
    );
    proof {
        reveal_with_fuel(head_of, 4);
        reveal_with_fuel(wf_expr, 4);
        reveal_with_fuel(no_red, 4);
        assert(head_of(inner) == Id(BYTE_N));
        assert(hi.0 < alloc@.len() && lo.0 < alloc@.len());
        assert(wf_expr(inner, alloc@.len() as int));
        assert(no_red(inner));
        assert(wf_expr(outer, alloc@.len() as int));
        assert(no_red(outer));
    }
    outer
}

/// The nibble a leaf decodes to, executed against the interner.
pub fn decode_hex(alloc: &Alloc, e: &Expr) -> (r: Option<u8>)
    requires
        wf_expr(*e, alloc@.len() as int),
    ensures
        r == digit_of(alloc@, *e),
{
    match e {
        Expr::Fun { id, .. } => {
            let s = alloc.get_string(id);
            if s.unicode_len() != 1 {
                return Option::None;
            }
            let c = s.get_char(0);
            let v = c as u32;
            if 48 <= v && v <= 57 {
                Option::Some((v - 48) as u8)
            } else if 97 <= v && v <= 102 {
                Option::Some((v - 97 + 10) as u8)
            } else if 65 <= v && v <= 70 {
                Option::Some((v - 65 + 10) as u8)
            } else {
                Option::None
            }
        },
        _ => Option::None,
    }
}

/// Decode an output argument to the byte it spells, the default 0 on any
/// shape or digit mismatch.
pub fn decode(alloc: &Alloc, e: &Expr) -> (r: u8)
    requires
        wf_expr(*e, alloc@.len() as int),
    ensures
        r == decode_spec(alloc@, *e),
{
    let (f1, lo_leaf): (&Expr, &Expr) = match e {
        Expr::App(b) => (&b.f, &b.arg),
        Expr::RedApp(b) => (&b.f, &b.arg),
        _ => {
            return 0;
        },
    };
    let hid = crate::parser::get_id(e);
    if hid.0 != BYTE_N {
        return 0;
    }
    proof {
        assert(wf_expr(*f1, alloc@.len() as int));
        assert(wf_expr(*lo_leaf, alloc@.len() as int));
    }
    let hi_leaf: &Expr = match f1 {
        Expr::App(b) => &b.arg,
        Expr::RedApp(b) => &b.arg,
        _ => {
            return 0;
        },
    };
    proof {
        assert(wf_expr(*hi_leaf, alloc@.len() as int));
    }
    let h = decode_hex(alloc, hi_leaf);
    let l = decode_hex(alloc, lo_leaf);
    match (h, l) {
        (Option::Some(hv), Option::Some(lv)) => {
            proof {
                assert(hv < 16 && lv < 16);
            }
            hv * 16 + lv
        },
        _ => 0,
    }
}

/// Byte fidelity: encoding any byte and then decoding the encoded term
/// yields that exact byte, whatever the interner already held; and
/// decoding the end-of-stream atom yields the documented default 0.
pub proof fn lemma_byte_round_trip(ids: Seq<Seq<char>>, b: u8, loc: Loc)
    requires
        ids.len() + 2 <= usize::MAX,
    ensures
        decode_spec(encode_spec(ids, b, loc).0, encode_spec(ids, b, loc).1) == b,
        decode_spec(ids, eof_term(loc)) == 0,
{
    let hi_sp = seq![hex_char(b as int / 16)];
    let lo_sp = seq![hex_char(b as int % 16)];
    lemma_find_sp(ids, hi_sp);
    let ids1 = intern_one(ids, hi_sp).0;
    let hi = intern_one(ids, hi_sp).1;
    lemma_find_sp(ids1, lo_sp);
    let ids2 = intern_one(ids1, lo_sp).0;
    let lo = intern_one(ids1, lo_sp).1;
    assert(ids2[hi.0 as int] == hi_sp);
    assert(ids2[lo.0 as int] == lo_sp);
    assert(hex_val(hex_char(b as int / 16)) == Option::Some((b / 16) as u8));
    assert(hex_val(hex_char(b as int % 16)) == Option::Some((b % 16) as u8));
    let t = byte_term(hi, lo, loc);
    let hi_leaf = Expr::Fun { id: hi, loc };
    let lo_leaf = Expr::Fun { id: lo, loc };
    let inner = Expr::App(
        Box::new(App { id: Id(BYTE_N), loc, f: Expr::Fun { id: Id(BYTE_N), loc }, arg: hi_leaf }),
    );
    reveal_with_fuel(head_of, 4);
    assert(head_of(t).0 == BYTE_N);
    assert(app_parts(t) == Option::Some((inner, lo_leaf)));
    assert(app_parts(inner) == Option::Some((Expr::Fun { id: Id(BYTE_N), loc }, hi_leaf)));
    assert(digit_of(ids2, hi_leaf) == Option::Some((b / 16) as u8));
    assert(digit_of(ids2, lo_leaf) == Option::Some((b % 16) as u8));
    assert(decode_spec(ids2, t) == ((b / 16) as int * 16 + (b % 16) as int) as u8);
    assert(b / 16 * 16 + b % 16 == b) by (nonlinear_arith);
}

} // verus!
