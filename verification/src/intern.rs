//! The identifier interner: maps identifier spellings to small stable
//! integer handles, assigned in first-seen order and never reused or
//! removed. Four handles are pre-registered for the reserved identifiers
//! of the byte-stream I/O protocol.
use vstd::prelude::*;
use vstd::string::*;

verus! {

/// Handle of the reserved end-of-stream atom `EOF`.
pub const EOF_N: usize = 0;

/// Handle of the reserved byte-encoding head `byte`.
pub const BYTE_N: usize = 1;

/// Handle of the reserved input hook atom `input`.
pub const INPUT_N: usize = 2;

/// Handle of the reserved output hook head `output`.
pub const OUTPUT_N: usize = 3;

/// An opaque small integer standing for one distinct identifier spelling.
#[derive(Clone, Copy, Debug, Hash, PartialEq, Eq, Structural)]
pub struct Id(pub usize);

/// The interner: a monotonic spelling-to-handle map with no eviction,
/// pre-seeded with the language's four reserved identifiers.
pub struct Alloc {
    ids: Vec<String>,
}

impl View for Alloc {
    type V = Seq<Seq<char>>;

    closed spec fn view(&self) -> Seq<Seq<char>> {
        self.ids@.map_values(|s: String| s@)
    }
}

/// The interned spellings an interner starts from, in handle order.
pub open spec fn reserved_spellings() -> Seq<Seq<char>> {
    seq!["EOF"@, "byte"@, "input"@, "output"@]
}

impl Alloc {
    /// No spelling is interned twice, and the four reserved identifiers
    /// sit at their fixed handles.
    pub open spec fn wf(&self) -> bool {
        &&& forall|i: int, j: int|
            0 <= i < j < self@.len() ==> self@[i] != self@[j]
        &&& self@.len() >= 4
        &&& self@[EOF_N as int] == "EOF"@
        &&& self@[BYTE_N as int] == "byte"@
        &&& self@[INPUT_N as int] == "input"@
        &&& self@[OUTPUT_N as int] == "output"@
    }

    /// A fresh interner holding exactly the reserved identifiers.
    pub fn new() -> (r: Self)
        ensures
            r@ == reserved_spellings(),
            r.wf(),
    {
        let mut ids: Vec<String> = Vec::new();
        ids.push(String::from_str("EOF"));
        ids.push(String::from_str("byte"));
        ids.push(String::from_str("input"));
        ids.push(String::from_str("output"));
        proof {
            reveal_strlit("EOF");
            reveal_strlit("byte");
            reveal_strlit("input");
            reveal_strlit("output");
            assert("EOF"@.len() == 3 && "byte"@.len() == 4 && "input"@.len() == 5
                && "output"@.len() == 6);
            assert(ids@.map_values(|s: String| s@) =~= reserved_spellings());
        }
        Alloc { ids }
    }

    /// Returns the existing handle if the spelling was seen before, else
    /// appends the spelling and returns its fresh handle.
    pub fn alloc_or_get(&mut self, s: &str) -> (r: Id)
        requires
            old(self).wf(),
        ensures
            final(self).wf(),
            r.0 < final(self)@.len(),
            final(self)@[r.0 as int] == s@,
            forall|j: int| 0 <= j < r.0 ==> final(self)@[j] != s@,
            old(self)@.contains(s@) ==> final(self)@ == old(self)@,
            !old(self)@.contains(s@) ==> final(self)@ == old(self)@.push(s@) && r.0 == old(
                self,
            )@.len(),
    {
        let owned: String = s.to_owned();
        let n = self.ids.len();
        let mut i: usize = 0;
        while i < n
            invariant
                self == old(self),
                old(self).wf(),
                n == self.ids@.len(),
                owned@ == s@,
                i <= n,
                forall|j: int| 0 <= j < i ==> self@[j] != s@,
            decreases n - i,
        {
            if self.ids[i] == owned {
                assert(self@[i as int] == s@);
                return Id(i);
            }
            i = i + 1;
        }
        assert(!old(self)@.contains(s@));
        self.ids.push(owned);
        proof {
            assert(self@ =~= old(self)@.push(s@));
        }
        Id(n)
    }

    /// The spelling behind a handle this interner has assigned.
    pub fn get_string(&self, i: &Id) -> (r: &str)
        requires
            i.0 < self@.len(),
        ensures
            r@ == self@[i.0 as int],
    {
        self.ids[i.0].as_str()
    }
}

/// Growing an interner twice still only grows it.
pub proof fn lemma_prefix_trans(a: Seq<Seq<char>>, b: Seq<Seq<char>>, c: Seq<Seq<char>>)
    requires
        a.is_prefix_of(b),
        b.is_prefix_of(c),
    ensures
        a.is_prefix_of(c),
{
    assert(a =~= c.subrange(0, a.len() as int));
}

/// Printing that resolves identifier handles through an interner.
pub trait DisplayWithAlloc {
    /// The canonical printed form of the value under the given interner.
    spec fn rendered(&self, al: Alloc) -> Seq<char>;

    /// When the value can be printed: all of its handles were assigned by
    /// the interner.
    spec fn display_req(&self, al: Alloc) -> bool;

    /// Append the printed form of the value to `s`.
    fn display(&self, al: &Alloc, s: &mut String)
        requires
            self.display_req(*al),
        ensures
            final(s)@ == old(s)@ + self.rendered(*al),
    ;

    /// The printed form of the value as a fresh string.
    fn to_string(&self, al: &Alloc) -> (r: String)
        requires
            self.display_req(*al),
        ensures
            r@ == self.rendered(*al),
    {
        let mut s = String::new();
        self.display(al, &mut s);
        proof {
            assert(s@ =~= self.rendered(*al));
        }
        s
    }
}

} // verus!
