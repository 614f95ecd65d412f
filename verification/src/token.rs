//! The tokenizer: turns source text into a token stream with location
//! tracking, comment and whitespace skipping, and one-token lookahead.
use vstd::prelude::*;
use vstd::string::*;
use vstd::std_specs::iter::IteratorSpec;

use crate::error::{Error, ErrorTy, Loc};
use crate::intern::{Alloc, DisplayWithAlloc, Id};

verus! {

/// Whether a character counts as alphanumeric, exactly as the standard
/// library classifies it.
pub uninterp spec fn unicode_alnum(c: char) -> bool;

/// Whether a character counts as whitespace, exactly as the standard
/// library classifies it.
pub uninterp spec fn unicode_white(c: char) -> bool;

/// Relies on char::is_alphanumeric: the result depends on the character
/// alone.
#[verifier::external_body]
pub(crate) fn char_is_alphanumeric(c: char) -> (r: bool)
    ensures
        r == unicode_alnum(c),
{
    c.is_alphanumeric()
}

/// Relies on char::is_whitespace: the result depends on the character
/// alone.
#[verifier::external_body]
pub(crate) fn char_is_whitespace(c: char) -> (r: bool)
    ensures
        r == unicode_white(c),
{
    c.is_whitespace()
}

/// Identifier characters: alphanumerics and the underscore.
pub open spec fn is_ident_char(c: char) -> bool {
    unicode_alnum(c) || c == '_'
}

/// Whitespace that separates tokens.
pub open spec fn is_space_char(c: char) -> bool {
    unicode_white(c)
}

/// Whether a character ends an identifier run.
pub fn is_break(c: char) -> (r: bool)
    ensures
        r == !is_ident_char(c),
{
    !(char_is_alphanumeric(c) || c == '_')
}

/// How one consumed character moves a 1-based source position: a newline
/// starts the next line, anything else moves one column right. Positions
/// saturate rather than overflow.
pub open spec fn adv_loc(l: Loc, c: char) -> Loc {
    if c == '\n' {
        Loc { line: if l.line < u64::MAX { (l.line + 1) as u64 } else { l.line }, col: 1 }
    } else {
        Loc { line: l.line, col: if l.col < u64::MAX { (l.col + 1) as u64 } else { l.col } }
    }
}

/// The position reached after consuming the first `i` characters.
pub open spec fn loc_after(s: Seq<char>, i: int) -> Loc
    decreases i,
{
    if i <= 0 {
        Loc { line: 1, col: 1 }
    } else {
        adv_loc(loc_after(s, i - 1), s[i - 1])
    }
}

/// Index of the first character of the next token, skipping whitespace and
/// `#`-to-newline comments; `com` says whether index `i` stands inside a
/// comment.
pub open spec fn spec_skip(s: Seq<char>, i: int, com: bool) -> int
    recommends
        0 <= i <= s.len(),
    decreases s.len() - i,
{
    if i < 0 || i >= s.len() {
        s.len() as int
    } else if com {
        spec_skip(s, i + 1, s[i] != '\n')
    } else if is_space_char(s[i]) {
        spec_skip(s, i + 1, false)
    } else if s[i] == '#' {
        spec_skip(s, i + 1, true)
    } else {
        i
    }
}

/// Index of the first character of the next token, from outside a comment.
pub open spec fn skip_to(s: Seq<char>, i: int) -> int {
    spec_skip(s, i, false)
}

/// Index just past the maximal identifier run starting at `i`.
pub open spec fn ident_end(s: Seq<char>, i: int) -> int
    recommends
        0 <= i <= s.len(),
    decreases s.len() - i,
{
    if i < 0 || i >= s.len() {
        s.len() as int
    } else if is_ident_char(s[i]) {
        ident_end(s, i + 1)
    } else {
        i
    }
}

/// The shape of the next token in the source, before interning.
pub enum RawTok {
    /// A maximal identifier run, as its spelling.
    RIdent(Seq<char>),
    RLparen,
    RRparen,
    REqual,
    RSemi,
    REof,
    /// A character no token may start with.
    RBad(char),
}

/// The raw token that starts at the next token position after `i`.
pub open spec fn raw_at(s: Seq<char>, i: int) -> RawTok {
    let j = skip_to(s, i);
    if j >= s.len() {
        RawTok::REof
    } else if s[j] == '(' {
        RawTok::RLparen
    } else if s[j] == ')' {
        RawTok::RRparen
    } else if s[j] == '=' {
        RawTok::REqual
    } else if s[j] == ';' {
        RawTok::RSemi
    } else if is_ident_char(s[j]) {
        RawTok::RIdent(s.subrange(j, ident_end(s, j)))
    } else {
        RawTok::RBad(s[j])
    }
}

/// The cursor position after consuming the token that starts after `i`.
/// An unrecognized character is not consumed.
pub open spec fn end_at(s: Seq<char>, i: int) -> int {
    let j = skip_to(s, i);
    if j >= s.len() {
        j
    } else if s[j] == '(' || s[j] == ')' || s[j] == '=' || s[j] == ';' {
        j + 1
    } else if is_ident_char(s[j]) {
        ident_end(s, j)
    } else {
        j
    }
}

/// The source position attached to the token that starts after `i`.
pub open spec fn tok_loc(s: Seq<char>, i: int) -> Loc {
    loc_after(s, skip_to(s, i))
}

/// How interning a spelling relates the interner's old and new contents to
/// the returned handle.
pub open spec fn interned(
    old_ids: Seq<Seq<char>>,
    new_ids: Seq<Seq<char>>,
    sp: Seq<char>,
    id: Id,
) -> bool {
    &&& id.0 < new_ids.len()
    &&& new_ids[id.0 as int] == sp
    &&& forall|k: int| 0 <= k < id.0 ==> new_ids[k] != sp
    &&& (old_ids.contains(sp) ==> new_ids == old_ids)
    &&& (!old_ids.contains(sp) ==> new_ids == old_ids.push(sp) && id.0 == old_ids.len())
}

/// Skipping never moves the cursor backwards nor past the end.
pub proof fn lemma_skip_bounds(s: Seq<char>, i: int, com: bool)
    requires
        0 <= i <= s.len(),
    ensures
        i <= spec_skip(s, i, com) <= s.len(),
    decreases s.len() - i,
{
    if i < s.len() {
        if com {
            lemma_skip_bounds(s, i + 1, s[i] != '\n');
        } else if is_space_char(s[i]) {
            lemma_skip_bounds(s, i + 1, false);
        } else if s[i] == '#' {
            lemma_skip_bounds(s, i + 1, true);
        }
    }
}

/// An identifier run never moves the cursor backwards nor past the end.
pub proof fn lemma_ident_end_bounds(s: Seq<char>, i: int)
    requires
        0 <= i <= s.len(),
    ensures
        i <= ident_end(s, i) <= s.len(),
    decreases s.len() - i,
{
    if i < s.len() && is_ident_char(s[i]) {
        lemma_ident_end_bounds(s, i + 1);
    }
}

/// Consuming a token never moves the cursor backwards nor past the end,
/// and moves it strictly forward except at end of input or on an
/// unrecognized character.
pub proof fn lemma_end_at_bounds(s: Seq<char>, i: int)
    requires
        0 <= i <= s.len(),
    ensures
        i <= end_at(s, i) <= s.len(),
        raw_at(s, i) is REof || raw_at(s, i) is RBad || i < end_at(s, i),
    decreases s.len() - i,
{
    lemma_skip_bounds(s, i, false);
    let j = skip_to(s, i);
    if j < s.len() {
        lemma_ident_end_bounds(s, j);
        if is_ident_char(s[j]) {
            assert(ident_end(s, j) == ident_end(s, j + 1));
            lemma_ident_end_bounds(s, j + 1);
        }
    }
}

/// Token kinds, identifiers already interned.
#[derive(Clone, Copy, Debug, PartialEq, Eq, Structural)]
pub enum TokenTy {
    Ident(Id),
    Lparen,
    Rparen,
    Equal,
    Semi,
    Eof,
}

/// A token together with where it begins.
#[derive(Clone, Copy, Debug)]
pub struct Token {
    pub ty: TokenTy,
    pub loc: Loc,
}

impl Token {
    /// The token's kind.
    pub fn ty(self) -> (r: TokenTy)
        ensures
            r == self.ty,
    {
        self.ty
    }
}

/// Whether a token kind is the interned form of a raw token.
pub open spec fn raw_ty_matches(rt: RawTok, ty: TokenTy, ids: Seq<Seq<char>>) -> bool {
    match rt {
        RawTok::RIdent(sp) => match ty {
            TokenTy::Ident(id) => id.0 < ids.len() && ids[id.0 as int] == sp && (forall|k: int|
                0 <= k < id.0 ==> ids[k] != sp),
            _ => false,
        },
        RawTok::RLparen => ty == TokenTy::Lparen,
        RawTok::RRparen => ty == TokenTy::Rparen,
        RawTok::REqual => ty == TokenTy::Equal,
        RawTok::RSemi => ty == TokenTy::Semi,
        RawTok::REof => ty == TokenTy::Eof,
        RawTok::RBad(_) => false,
    }
}

/// The text of the "unrecognized character" diagnostic.
pub open spec fn bad_char_text(c: char) -> Seq<char> {
    "unrecognized character "@ + seq![c]
}

/// What reading one token returns: the interned token for a recognized
/// raw token, the positioned syntax error for an unrecognized character.
pub open spec fn token_matches(
    s: Seq<char>,
    i: int,
    ids: Seq<Seq<char>>,
    r: Result<Token, Error>,
) -> bool {
    match raw_at(s, i) {
        RawTok::RBad(c) => match r {
            Result::Err(e) => e.ty == ErrorTy::SyntaxError && e.loc == tok_loc(s, i) && e.desc@
                == bad_char_text(c),
            Result::Ok(_) => false,
        },
        rt => match r {
            Result::Ok(t) => t.loc == tok_loc(s, i) && raw_ty_matches(rt, t.ty, ids),
            Result::Err(_) => false,
        },
    }
}

/// The printed form of a token kind in diagnostics.
pub open spec fn tokty_text(ids: Seq<Seq<char>>, t: TokenTy) -> Seq<char> {
    match t {
        TokenTy::Ident(id) => "identifier `"@ + ids[id.0 as int] + "`"@,
        TokenTy::Lparen => "token `(`"@,
        TokenTy::Rparen => "token `)`"@,
        TokenTy::Equal => "token `=`"@,
        TokenTy::Semi => "token `;`"@,
        TokenTy::Eof => "EOF"@,
    }
}

impl DisplayWithAlloc for TokenTy {
    open spec fn rendered(&self, al: Alloc) -> Seq<char> {
        tokty_text(al@, *self)
    }

    open spec fn display_req(&self, al: Alloc) -> bool {
        match *self {
            TokenTy::Ident(id) => id.0 < al@.len(),
            _ => true,
        }
    }

    fn display(&self, al: &Alloc, s: &mut String) {
        match self {
            TokenTy::Ident(id) => {
                proof {
                    reveal_strlit("identifier `");
                    reveal_strlit("`");
                }
                s.append("identifier `");
                s.append(al.get_string(id));
                s.append("`");
                proof {
                    assert(s@ =~= old(s)@ + self.rendered(*al));
                }
            },
            TokenTy::Lparen => {
                proof {
                    reveal_strlit("token `(`");
                }
                s.append("token `(`");
            },
            TokenTy::Rparen => {
                proof {
                    reveal_strlit("token `)`");
                }
                s.append("token `)`");
            },
            TokenTy::Equal => {
                proof {
                    reveal_strlit("token `=`");
                }
                s.append("token `=`");
            },
            TokenTy::Semi => {
                proof {
                    reveal_strlit("token `;`");
                }
                s.append("token `;`");
            },
            TokenTy::Eof => {
                proof {
                    reveal_strlit("EOF");
                }
                s.append("EOF");
            },
        }
    }
}

/// The scanner: a cursor over the source characters, the position it has
/// reached, and at most one token of lookahead.
pub struct Scanner {
    src: String,
    chars: Vec<char>,
    pos: usize,
    loc: Loc,
    peeked: Option<Result<Token, Error>>,
    start: Ghost<int>,
}

/// Relies on char::to_string: the one-character string holding exactly `c`.
#[verifier::external_body]
pub(crate) fn char_to_string(c: char) -> (r: String)
    ensures
        r@ == seq![c],
{
    c.to_string()
}

/// A field-for-field copy of a token-or-error result, so a lookahead can
/// be both stored and returned.
fn clone_tok_res(r: &Result<Token, Error>) -> (c: Result<Token, Error>)
    ensures
        match (r, &c) {
            (Result::Ok(a), Result::Ok(b)) => a == b,
            (Result::Err(x), Result::Err(y)) => x.loc == y.loc && x.ty == y.ty && x.desc@
                == y.desc@,
            _ => false,
        },
{
    match r {
        Result::Ok(t) => Result::Ok(*t),
        Result::Err(e) => Result::Err(Error { loc: e.loc, ty: e.ty, desc: e.desc.clone() }),
    }
}

impl Scanner {
    /// The source text being scanned.
    pub closed spec fn src(&self) -> Seq<char> {
        self.chars@
    }

    /// The logical reading position: the start of the lookahead token when
    /// one is held, the raw position otherwise.
    pub closed spec fn cursor(&self) -> int {
        match self.peeked {
            Option::Some(_) => self.start@,
            Option::None => self.pos as int,
        }
    }

    /// Whether a lookahead token is held.
    pub closed spec fn has_peek(&self) -> bool {
        self.peeked is Some
    }

    /// Position, location and lookahead bookkeeping, against an interner.
    pub closed spec fn wf(&self, ids: Seq<Seq<char>>) -> bool {
        &&& self.pos <= self.chars@.len()
        &&& self.src@ == self.chars@
        &&& self.loc == loc_after(self.chars@, self.pos as int)
        &&& match self.peeked {
            Option::None => true,
            Option::Some(r) => {
                &&& 0 <= self.start@ <= self.chars@.len()
                &&& token_matches(self.chars@, self.start@, ids, r)
                &&& self.pos as int == end_at(self.chars@, self.start@)
            },
        }
    }

    /// A scanner at the start of the given source text.
    pub fn new(s: &str) -> (r: Self)
        ensures
            forall|ids: Seq<Seq<char>>| r.wf(ids),
            r.src() == s@,
            r.cursor() == 0,
    {
        broadcast use vstd::string::next_postcondition;
        broadcast use vstd::string::axiom_spec_iter;

        let src = s.to_owned();
        let mut chars: Vec<char> = Vec::new();
        let mut it = s.chars();
        let mut done = false;
        while !done
            invariant
                done ==> chars@ == s@,
                !done ==> chars@ + it.remaining() == s@,
                !done ==> it.obeys_prophetic_iter_laws(),
            decreases 2 * (s@.len() - chars@.len()) + (if done {
                0int
            } else {
                1int
            }),
        {
            match it.next() {
                Option::Some(c) => {
                    chars.push(c);
                    proof {
                        assert(chars@ + it.remaining() =~= s@);
                    }
                },
                Option::None => {
                    done = true;
                    proof {
                        assert(chars@ + it.remaining() =~= chars@);
                    }
                },
            }
        }
        Scanner {
            src,
            chars,
            pos: 0,
            loc: Loc { line: 1, col: 1 },
            peeked: Option::None,
            start: Ghost(0),
        }
    }

    /// The position the scanner has reached, after any lookahead.
    pub closed spec fn spec_loc(&self) -> Loc {
        self.loc
    }

    /// The position the scanner has reached, after any lookahead.
    pub fn loc(&self) -> (r: Loc)
        ensures
            r == self.spec_loc(),
    {
        self.loc
    }

    /// Consume one character, keeping the location in step.
    fn advance_char(&mut self)
        requires
            old(self).pos < old(self).chars@.len(),
            old(self).loc == loc_after(old(self).chars@, old(self).pos as int),
        ensures
            final(self).pos == old(self).pos + 1,
            final(self).loc == loc_after(final(self).chars@, final(self).pos as int),
            final(self).chars == old(self).chars,
            final(self).src == old(self).src,
            final(self).peeked == old(self).peeked,
            final(self).start == old(self).start,
    {
        let n = self.chars.len();
        let c = self.chars[self.pos];
        if c == '\n' {
            if self.loc.line < u64::MAX {
                self.loc.line = self.loc.line + 1;
            }
            self.loc.col = 1;
        } else {
            if self.loc.col < u64::MAX {
                self.loc.col = self.loc.col + 1;
            }
        }
        self.pos = self.pos + 1;
    }

    /// Skip whitespace and `#`-to-newline comments.
    fn skip_whitespace(&mut self)
        requires
            old(self).pos <= old(self).chars@.len(),
            old(self).loc == loc_after(old(self).chars@, old(self).pos as int),
        ensures
            final(self).pos <= final(self).chars@.len(),
            final(self).pos as int == skip_to(old(self).chars@, old(self).pos as int),
            final(self).loc == loc_after(final(self).chars@, final(self).pos as int),
            final(self).chars == old(self).chars,
            final(self).src == old(self).src,
            final(self).peeked == old(self).peeked,
            final(self).start == old(self).start,
    {
        let n = self.chars.len();
        let mut com = false;
        let mut run = true;
        while run && self.pos < n
            invariant
                n == self.chars@.len(),
                self.pos <= n,
                self.chars == old(self).chars,
                self.src == old(self).src,
                self.peeked == old(self).peeked,
                self.start == old(self).start,
                self.loc == loc_after(self.chars@, self.pos as int),
                run ==> skip_to(old(self).chars@, old(self).pos as int) == spec_skip(
                    self.chars@,
                    self.pos as int,
                    com,
                ),
                !run ==> self.pos as int == skip_to(old(self).chars@, old(self).pos as int),
            decreases 2 * (n - self.pos) + (if run {
                1int
            } else {
                0int
            }),
        {
            let c = self.chars[self.pos];
            if com {
                self.advance_char();
                com = c != '\n';
            } else if char_is_whitespace(c) {
                self.advance_char();
            } else if c == '#' {
                self.advance_char();
                com = true;
            } else {
                run = false;
            }
        }
    }

    /// Read and consume the next token, interning its spelling if it is an
    /// identifier.
    fn next_token_internal(&mut self, alloc: &mut Alloc) -> (r: Result<Token, Error>)
        requires
            old(self).peeked is None,
            old(self).wf(old(alloc)@),
            old(alloc).wf(),
        ensures
            final(alloc).wf(),
            old(alloc)@.is_prefix_of(final(alloc)@),
            final(self).wf(final(alloc)@),
            final(self).peeked is None,
            final(self).src() == old(self).src(),
            token_matches(old(self).src(), old(self).cursor(), final(alloc)@, r),
            final(self).cursor() == end_at(old(self).src(), old(self).cursor()),
            match raw_at(old(self).src(), old(self).cursor()) {
                RawTok::RIdent(sp) => (old(alloc)@.contains(sp) ==> final(alloc)@ == old(alloc)@)
                    && (!old(alloc)@.contains(sp) ==> final(alloc)@ == old(alloc)@.push(sp)),
                _ => final(alloc)@ == old(alloc)@,
            },
    {
        self.skip_whitespace();
        let n = self.chars.len();
        let loc0 = self.loc;
        if self.pos == n {
            return Result::Ok(Token { ty: TokenTy::Eof, loc: loc0 });
        }
        let c = self.chars[self.pos];
        if c == '(' {
            self.advance_char();
            Result::Ok(Token { ty: TokenTy::Lparen, loc: loc0 })
        } else if c == ')' {
            self.advance_char();
            Result::Ok(Token { ty: TokenTy::Rparen, loc: loc0 })
        } else if c == '=' {
            self.advance_char();
            Result::Ok(Token { ty: TokenTy::Equal, loc: loc0 })
        } else if c == ';' {
            self.advance_char();
            Result::Ok(Token { ty: TokenTy::Semi, loc: loc0 })
        } else if !is_break(c) {
            let start = self.pos;
            while self.pos < n && !is_break(self.chars[self.pos])
                invariant
                    n == self.chars@.len(),
                    start <= self.pos <= n,
                    self.chars == old(self).chars,
                    self.src == old(self).src,
                    self.peeked == old(self).peeked,
                    self.start == old(self).start,
                    self.loc == loc_after(self.chars@, self.pos as int),
                    ident_end(self.chars@, start as int) == ident_end(self.chars@, self.pos as int),
                decreases n - self.pos,
            {
                self.advance_char();
            }
            assert(ident_end(self.chars@, start as int) == self.pos as int);
            let spelling = self.src.as_str().substring_char(start, self.pos);
            let id = alloc.alloc_or_get(spelling);
            Result::Ok(Token { ty: TokenTy::Ident(id), loc: loc0 })
        } else {
            let mut desc = String::new();
            proof {
                reveal_strlit("unrecognized character ");
            }
            desc.append("unrecognized character ");
            let cs = char_to_string(c);
            desc.append(cs.as_str());
            proof {
                assert(desc@ =~= bad_char_text(c));
            }
            Result::Err(Error { loc: loc0, ty: ErrorTy::SyntaxError, desc })
        }
    }

    /// Consume and return the next token: the lookahead if one is held,
    /// else freshly read.
    pub fn next_token(&mut self, alloc: &mut Alloc) -> (r: Result<Token, Error>)
        requires
            old(self).wf(old(alloc)@),
            old(alloc).wf(),
        ensures
            final(alloc).wf(),
            old(alloc)@.is_prefix_of(final(alloc)@),
            final(self).wf(final(alloc)@),
            final(self).src() == old(self).src(),
            !final(self).has_peek(),
            token_matches(old(self).src(), old(self).cursor(), final(alloc)@, r),
            final(self).cursor() == end_at(old(self).src(), old(self).cursor()),
            match raw_at(old(self).src(), old(self).cursor()) {
                RawTok::RIdent(sp) => (old(alloc)@.contains(sp) ==> final(alloc)@ == old(alloc)@)
                    && (!old(alloc)@.contains(sp) ==> final(alloc)@ == old(alloc)@.push(sp)),
                _ => final(alloc)@ == old(alloc)@,
            },
    {
        let ghost c0 = self.cursor();
        proof {
            match &self.peeked {
                Option::Some(res) => {
                    match raw_at(self.chars@, self.start@) {
                        RawTok::RIdent(sp) => {
                            match res {
                                Result::Ok(t) => {
                                    match t.ty {
                                        TokenTy::Ident(x) => {
                                            assert(alloc@[x.0 as int] == sp);
                                            assert(alloc@.contains(sp));
                                        },
                                        _ => {},
                                    }
                                },
                                Result::Err(_) => {},
                            }
                        },
                        _ => {},
                    }
                },
                Option::None => {},
            }
        }
        let out: Option<Result<Token, Error>> = match &self.peeked {
            Option::Some(p) => Option::Some(clone_tok_res(p)),
            Option::None => Option::None,
        };
        match out {
            Option::Some(r) => {
                self.peeked = Option::None;
                r
            },
            Option::None => self.next_token_internal(alloc),
        }
    }

    /// Return the next token without consuming it.
    pub fn peek(&mut self, alloc: &mut Alloc) -> (r: Result<Token, Error>)
        requires
            old(self).wf(old(alloc)@),
            old(alloc).wf(),
        ensures
            final(alloc).wf(),
            old(alloc)@.is_prefix_of(final(alloc)@),
            final(self).wf(final(alloc)@),
            final(self).src() == old(self).src(),
            token_matches(old(self).src(), old(self).cursor(), final(alloc)@, r),
            final(self).cursor() == old(self).cursor(),
            match raw_at(old(self).src(), old(self).cursor()) {
                RawTok::RIdent(sp) => (old(alloc)@.contains(sp) ==> final(alloc)@ == old(alloc)@)
                    && (!old(alloc)@.contains(sp) ==> final(alloc)@ == old(alloc)@.push(sp)),
                _ => final(alloc)@ == old(alloc)@,
            },
    {
        let ghost c0 = self.cursor();
        let r = self.next_token(alloc);
        let stored = clone_tok_res(&r);
        self.peeked = Option::Some(stored);
        self.start = Ghost(c0);
        r
    }

    /// The cursor sits inside the source.
    pub proof fn lemma_cursor_bounds(&self, ids: Seq<Seq<char>>)
        requires
            self.wf(ids),
        ensures
            0 <= self.cursor() <= self.src().len(),
    {
    }

    /// Consume the next token and require it to be an identifier; fail
    /// with a positioned syntax error otherwise.
    pub fn expect_identifier(&mut self, alloc: &mut Alloc) -> (r: Result<(Loc, Id), Error>)
        requires
            old(self).wf(old(alloc)@),
            old(alloc).wf(),
        ensures
            final(alloc).wf(),
            old(alloc)@.is_prefix_of(final(alloc)@),
            final(self).wf(final(alloc)@),
            final(self).src() == old(self).src(),
            final(self).cursor() == end_at(old(self).src(), old(self).cursor()),
            match raw_at(old(self).src(), old(self).cursor()) {
                RawTok::RIdent(sp) => (old(alloc)@.contains(sp) ==> final(alloc)@ == old(alloc)@)
                    && (!old(alloc)@.contains(sp) ==> final(alloc)@ == old(alloc)@.push(sp)),
                _ => final(alloc)@ == old(alloc)@,
            },
            match raw_at(old(self).src(), old(self).cursor()) {
                RawTok::RIdent(sp) => match r {
                    Result::Ok((l, id)) => l == tok_loc(old(self).src(), old(self).cursor())
                        && id.0 < final(alloc)@.len() && final(alloc)@[id.0 as int] == sp && (
                    forall|k: int| 0 <= k < id.0 ==> final(alloc)@[k] != sp),
                    Result::Err(_) => false,
                },
                RawTok::RBad(c) => match r {
                    Result::Err(e) => e.ty == ErrorTy::SyntaxError && e.loc == tok_loc(
                        old(self).src(),
                        old(self).cursor(),
                    ) && e.desc@ == bad_char_text(c),
                    Result::Ok(_) => false,
                },
                rt => match r {
                    Result::Err(e) => e.ty == ErrorTy::SyntaxError && e.loc == tok_loc(
                        old(self).src(),
                        old(self).cursor(),
                    ) && e.desc@ == "expected identifier, found "@ + raw_tok_text(rt),
                    Result::Ok(_) => false,
                },
            },
    {
        let res = self.next_token(alloc);
        match res {
            Result::Err(e) => Result::Err(e),
            Result::Ok(t) => {
                match t.ty {
                    TokenTy::Ident(x) => Result::Ok((t.loc, x)),
                    _ => {
                        let mut desc = String::new();
                        desc.append("expected identifier, found ");
                        let shown = t.ty.to_string(alloc);
                        desc.append(shown.as_str());
                        proof {
                            assert(desc@ =~= "expected identifier, found "@ + tokty_text(
                                alloc@,
                                t.ty,
                            ));
                        }
                        Result::Err(Error { loc: t.loc, ty: ErrorTy::SyntaxError, desc })
                    },
                }
            },
        }
    }

    /// Consume the next token and require it to be exactly `token`; fail
    /// with a positioned syntax error otherwise.
    pub fn expect_token(&mut self, alloc: &mut Alloc, token: TokenTy) -> (r: Result<Token, Error>)
        requires
            old(self).wf(old(alloc)@),
            old(alloc).wf(),
            token matches TokenTy::Ident(x) ==> x.0 < old(alloc)@.len(),
        ensures
            final(alloc).wf(),
            old(alloc)@.is_prefix_of(final(alloc)@),
            final(self).wf(final(alloc)@),
            final(self).src() == old(self).src(),
            final(self).cursor() == end_at(old(self).src(), old(self).cursor()),
            match raw_at(old(self).src(), old(self).cursor()) {
                RawTok::RIdent(sp) => (old(alloc)@.contains(sp) ==> final(alloc)@ == old(alloc)@)
                    && (!old(alloc)@.contains(sp) ==> final(alloc)@ == old(alloc)@.push(sp)),
                _ => final(alloc)@ == old(alloc)@,
            },
            match raw_at(old(self).src(), old(self).cursor()) {
                RawTok::RBad(c) => match r {
                    Result::Err(e) => e.ty == ErrorTy::SyntaxError && e.loc == tok_loc(
                        old(self).src(),
                        old(self).cursor(),
                    ) && e.desc@ == bad_char_text(c),
                    Result::Ok(_) => false,
                },
                rt => {
                    if raw_ty_matches(rt, token, final(alloc)@) {
                        r matches Result::Ok(t) && t.ty == token && t.loc == tok_loc(
                            old(self).src(),
                            old(self).cursor(),
                        )
                    } else {
                        r matches Result::Err(e) && e.ty == ErrorTy::SyntaxError && e.loc
                            == tok_loc(old(self).src(), old(self).cursor()) && e.desc@
                            == expected_text(final(alloc)@, token, rt)
                    }
                },
            },
    {
        let res = self.next_token(alloc);
        match res {
            Result::Err(e) => Result::Err(e),
            Result::Ok(t) => {
                proof {
                    let rt = raw_at(old(self).src(), old(self).cursor());
                    match rt {
                        RawTok::RIdent(sp) => {
                            match t.ty {
                                TokenTy::Ident(actual) => {
                                    match token {
                                        TokenTy::Ident(want) => {
                                            if want.0 < alloc@.len() && alloc@[want.0 as int] == sp
                                                && (forall|k: int|
                                                0 <= k < want.0 ==> alloc@[k] != sp) {
                                                if want.0 < actual.0 {
                                                    assert(alloc@[want.0 as int] != sp);
                                                }
                                                if actual.0 < want.0 {
                                                    assert(alloc@[actual.0 as int] != sp);
                                                }
                                                assert(want == actual);
                                            }
                                        },
                                        _ => {},
                                    }
                                },
                                _ => {
                                    assert(false);
                                },
                            }
                        },
                        _ => {},
                    }
                    assert(raw_ty_matches(rt, token, alloc@) <==> t.ty == token);
                }
                if tokty_same(&t.ty, &token) {
                    Result::Ok(t)
                } else {
                    let mut desc = String::new();
                    desc.append("expected ");
                    let want = token.to_string(alloc);
                    desc.append(want.as_str());
                    desc.append(", found ");
                    let got = t.ty.to_string(alloc);
                    desc.append(got.as_str());
                    proof {
                        assert(desc@ =~= "expected "@ + tokty_text(alloc@, token) + ", found "@
                            + tokty_text(alloc@, t.ty));
                    }
                    Result::Err(Error { loc: t.loc, ty: ErrorTy::SyntaxError, desc })
                }
            },
        }
    }

    /// If the next token is exactly `tok`, consume it and return true;
    /// otherwise leave it as lookahead and return false.
    pub fn is_token(&mut self, alloc: &mut Alloc, tok: TokenTy) -> (r: Result<bool, Error>)
        requires
            old(self).wf(old(alloc)@),
            old(alloc).wf(),
            tok matches TokenTy::Ident(x) ==> x.0 < old(alloc)@.len(),
        ensures
            final(alloc).wf(),
            old(alloc)@.is_prefix_of(final(alloc)@),
            final(self).wf(final(alloc)@),
            final(self).src() == old(self).src(),
            match raw_at(old(self).src(), old(self).cursor()) {
                RawTok::RIdent(sp) => (old(alloc)@.contains(sp) ==> final(alloc)@ == old(alloc)@)
                    && (!old(alloc)@.contains(sp) ==> final(alloc)@ == old(alloc)@.push(sp)),
                _ => final(alloc)@ == old(alloc)@,
            },
            match raw_at(old(self).src(), old(self).cursor()) {
                RawTok::RBad(c) => match r {
                    Result::Err(e) => e.ty == ErrorTy::SyntaxError && e.loc == tok_loc(
                        old(self).src(),
                        old(self).cursor(),
                    ) && e.desc@ == bad_char_text(c) && final(self).cursor() == old(self).cursor(),
                    Result::Ok(_) => false,
                },
                rt => {
                    if raw_ty_matches(rt, tok, final(alloc)@) {
                        r == Result::<bool, Error>::Ok(true) && final(self).cursor() == end_at(
                            old(self).src(),
                            old(self).cursor(),
                        )
                    } else {
                        r == Result::<bool, Error>::Ok(false) && final(self).cursor() == old(
                            self,
                        ).cursor()
                    }
                },
            },
    {
        let peeked = self.peek(alloc);
        match peeked {
            Result::Err(e) => Result::Err(e),
            Result::Ok(t) => {
                proof {
                    let rt = raw_at(old(self).src(), old(self).cursor());
                    match rt {
                        RawTok::RIdent(sp) => {
                            match t.ty {
                                TokenTy::Ident(actual) => {
                                    match tok {
                                        TokenTy::Ident(want) => {
                                            if want.0 < alloc@.len() && alloc@[want.0 as int] == sp
                                                && (forall|k: int|
                                                0 <= k < want.0 ==> alloc@[k] != sp) {
                                                if want.0 < actual.0 {
                                                    assert(alloc@[want.0 as int] != sp);
                                                }
                                                if actual.0 < want.0 {
                                                    assert(alloc@[actual.0 as int] != sp);
                                                }
                                                assert(want == actual);
                                            }
                                        },
                                        _ => {},
                                    }
                                },
                                _ => {
                                    assert(false);
                                },
                            }
                        },
                        _ => {},
                    }
                    assert(raw_ty_matches(rt, tok, alloc@) <==> t.ty == tok);
                }
                if tokty_same(&t.ty, &tok) {
                    proof {
                        match raw_at(self.src(), self.cursor()) {
                            RawTok::RIdent(sp) => {
                                if !old(alloc)@.contains(sp) {
                                    assert(alloc@[old(alloc)@.len() as int] == sp);
                                }
                                assert(alloc@.contains(sp));
                            },
                            _ => {},
                        }
                    }
                    let consumed = self.expect_token(alloc, tok);
                    match consumed {
                        Result::Ok(_) => Result::Ok(true),
                        Result::Err(e) => Result::Err(e),
                    }
                } else {
                    Result::Ok(false)
                }
            },
        }
    }
}

/// The printed form of a raw token in diagnostics.
pub open spec fn raw_tok_text(rt: RawTok) -> Seq<char> {
    match rt {
        RawTok::RIdent(sp) => "identifier `"@ + sp + "`"@,
        RawTok::RLparen => "token `(`"@,
        RawTok::RRparen => "token `)`"@,
        RawTok::REqual => "token `=`"@,
        RawTok::RSemi => "token `;`"@,
        RawTok::REof => "EOF"@,
        RawTok::RBad(_) => Seq::empty(),
    }
}

/// The text of the "expected ..., found ..." diagnostic.
pub open spec fn expected_text(ids: Seq<Seq<char>>, want: TokenTy, got: RawTok) -> Seq<char> {
    "expected "@ + tokty_text(ids, want) + ", found "@ + raw_tok_text(got)
}

/// Whether two token kinds are the same, comparing identifiers by handle.
fn tokty_same(a: &TokenTy, b: &TokenTy) -> (r: bool)
    ensures
        r == (a == b),
{
    match (a, b) {
        (TokenTy::Ident(x), TokenTy::Ident(y)) => x.0 == y.0,
        (TokenTy::Lparen, TokenTy::Lparen) => true,
        (TokenTy::Rparen, TokenTy::Rparen) => true,
        (TokenTy::Equal, TokenTy::Equal) => true,
        (TokenTy::Semi, TokenTy::Semi) => true,
        (TokenTy::Eof, TokenTy::Eof) => true,
        _ => false,
    }
}

} // verus!
