//! Grammars: which fixity and precedence each token has, and the builder that
//! checks a set of registrations and turns it into a grammar.
//!
//! Precedences are integers, and a smaller number binds tighter.
use vstd::prelude::*;
use crate::token::{Reserved, Token};

verus! {

/// The shape of an operator token.
#[derive(Clone, Copy, Debug, PartialEq, Eq)]
pub enum Fixity {
    /// An atom.
    Nilfix,
    /// Binds one operand on its right, at this precedence.
    Prefix(u32),
    /// Binds one operand on its left, at this precedence.
    Suffix(u32),
    /// Binds on both sides; of two equal ones the left binds first.
    InfixL(u32),
    /// Binds on both sides; of two equal ones the right binds first.
    InfixR(u32),
    /// The delimiter at position `ordinal` of a group of `count` delimiters.
    /// Only the first may bind on its left (`left`), only the last on its
    /// right (`right`).
    Mixfix { group: usize, ordinal: usize, count: usize, left: Option<u32>, right: Option<u32> },
}

impl Fixity {
    /// Holds of every fixity a grammar can hold.
    pub open spec fn wf(self) -> bool {
        match self {
            Fixity::Mixfix { ordinal, count, .. } => 2 <= count && ordinal < count,
            _ => true,
        }
    }
}

/// One registered token with its fixity, and the name it was registered under.
#[derive(Debug)]
pub struct Entry {
    pub name: String,
    pub token: Token,
    pub fixity: Fixity,
}

/// The tokens of a sequence of entries.
pub open spec fn tokens_of(es: Seq<Entry>) -> Seq<Token> {
    es.map_values(|e: Entry| e.token)
}

/// Entries as values: each token with its fixity.
pub open spec fn table_of(es: Seq<Entry>) -> Seq<(Token, Fixity)> {
    es.map_values(|e: Entry| (e.token, e.fixity))
}

/// A grammar as values: its table, its reserved identities, and the
/// precedence of juxtaposition.
pub struct GrammarSpec {
    pub table: Seq<(Token, Fixity)>,
    pub reserved: Reserved,
    pub juxtapose_prec: u32,
}

impl GrammarSpec {
    /// The fixity of `t`: that of its entry, and `Nilfix` for a token that
    /// has none.
    pub open spec fn fixity_of(self, t: Token) -> Fixity {
        let tb = self.table;
        if exists|i: int| 0 <= i < tb.len() && tb[i].0 == t {
            tb[choose|i: int| 0 <= i < tb.len() && tb[i].0 == t].1
        } else {
            Fixity::Nilfix
        }
    }
}

/// Why a set of registrations makes no grammar.
#[derive(Clone, Copy, Debug, PartialEq, Eq)]
pub enum BuildError {
    /// Two of the reserved identities are equal.
    ReservedNotDistinct,
    /// A mixfix group was given fewer than two delimiters.
    MalformedMixfix,
    /// A reserved identity was registered.
    ReservedToken(Token),
    /// A token was registered more than once.
    DuplicateToken(Token),
}

/// An immutable table from tokens to fixities.
#[derive(Debug)]
pub struct Grammar {
    entries: Vec<Entry>,
    reserved: Reserved,
    juxtapose_prec: u32,
}

/// Whether a table registers each token once, with a well-formed fixity,
/// and no reserved one.
pub open spec fn valid_table(tb: Seq<(Token, Fixity)>, reserved: Reserved) -> bool {
    &&& forall|i: int| 0 <= i < tb.len() ==> (#[trigger] tb[i]).1.wf()
    &&& forall|i: int| 0 <= i < tb.len() ==> !reserved.holds((#[trigger] tb[i]).0)
    &&& forall|i: int, j: int| 0 <= i < j < tb.len() ==> tb[i].0 != tb[j].0
}

impl View for Grammar {
    type V = GrammarSpec;

    closed spec fn view(&self) -> GrammarSpec {
        GrammarSpec { table: table_of(self.entries@), reserved: self.reserved, juxtapose_prec: self.juxtapose_prec }
    }
}

impl Grammar {
    pub open spec fn wf(self) -> bool {
        &&& valid_table(self@.table, self@.reserved)
        &&& self@.reserved.distinct()
    }

    pub fn reserved(&self) -> (r: Reserved)
        ensures
            r == self@.reserved,
    {
        self.reserved
    }

    pub fn juxtapose_prec(&self) -> (r: u32)
        ensures
            r == self@.juxtapose_prec,
    {
        self.juxtapose_prec
    }

    /// The fixity of a token.
    pub fn fixity(&self, t: Token) -> (r: Fixity)
        requires
            self.wf(),
        ensures
            r == self@.fixity_of(t),
            r.wf(),
    {
        let mut i: usize = 0;
        while i < self.entries.len()
            invariant
                0 <= i <= self.entries@.len(),
                self.wf(),
                forall|k: int| 0 <= k < i ==> self@.table[k].0 != t,
            decreases self.entries@.len() - i,
        {
            if self.entries[i].token == t {
                proof {
                    let tb = self@.table;
                    assert(tb[i as int].0 == t);
                    let c = choose|k: int| 0 <= k < tb.len() && tb[k].0 == t;
                    if c != i {
                        assert(tb[c].0 == tb[i as int].0);
                    }
                }
                return self.entries[i].fixity;
            }
            assert(self@.table[i as int].0 == self.entries@[i as int].token);
            i = i + 1;
        }
        proof {
            let tb = self@.table;
            assert(!exists|k: int| 0 <= k < tb.len() && tb[k].0 == t);
        }
        Fixity::Nilfix
    }
}

/// Collects registrations, then checks them and makes a grammar.
#[derive(Debug)]
pub struct GrammarBuilder {
    entries: Vec<Entry>,
    malformed: bool,
    reserved: Reserved,
    juxtapose_prec: u32,
}

impl GrammarBuilder {
    pub closed spec fn spec_entries(self) -> Seq<Entry> {
        self.entries@
    }

    /// Whether a mixfix group with fewer than two delimiters was registered.
    pub closed spec fn spec_malformed(self) -> bool {
        self.malformed
    }

    pub closed spec fn spec_reserved(self) -> Reserved {
        self.reserved
    }

    pub closed spec fn spec_juxtapose_prec(self) -> u32 {
        self.juxtapose_prec
    }

    /// Starts an empty set of registrations for a grammar with these reserved
    /// identities, in which juxtaposition binds at `juxtapose_prec`.
    pub fn new(reserved: Reserved, juxtapose_prec: u32) -> (r: GrammarBuilder)
        ensures
            r.spec_entries() == Seq::<Entry>::empty(),
            !r.spec_malformed(),
            r.spec_reserved() == reserved,
            r.spec_juxtapose_prec() == juxtapose_prec,
    {
        GrammarBuilder { entries: Vec::new(), malformed: false, reserved, juxtapose_prec }
    }

    fn add(self, name: &str, token: Token, fixity: Fixity) -> (r: GrammarBuilder)
        ensures
            r.spec_entries().len() == self.spec_entries().len() + 1,
            r.spec_entries().drop_last() == self.spec_entries(),
            r.spec_entries().last().token == token,
            r.spec_entries().last().fixity == fixity,
            r.spec_malformed() == self.spec_malformed(),
            r.spec_reserved() == self.spec_reserved(),
            r.spec_juxtapose_prec() == self.spec_juxtapose_prec(),
    {
        let mut b = self;
        let ghost before = b.entries@;
        b.entries.push(Entry { name: name.to_string(), token, fixity });
        assert(b.entries@.drop_last() =~= before);
        b
    }

    /// Registers an atom.
    pub fn nilfix(self, name: &str, token: Token) -> (r: GrammarBuilder)
        ensures
            r.spec_entries().drop_last() == self.spec_entries(),
            r.spec_entries().len() == self.spec_entries().len() + 1,
            r.spec_entries().last().token == token,
            r.spec_entries().last().fixity == Fixity::Nilfix,
            r.spec_malformed() == self.spec_malformed(),
            r.spec_reserved() == self.spec_reserved(),
            r.spec_juxtapose_prec() == self.spec_juxtapose_prec(),
    {
        self.add(name, token, Fixity::Nilfix)
    }

    /// Registers a prefix operator.
    pub fn prefix(self, name: &str, token: Token, prec: u32) -> (r: GrammarBuilder)
        ensures
            r.spec_entries().drop_last() == self.spec_entries(),
            r.spec_entries().len() == self.spec_entries().len() + 1,
            r.spec_entries().last().token == token,
            r.spec_entries().last().fixity == Fixity::Prefix(prec),
            r.spec_malformed() == self.spec_malformed(),
            r.spec_reserved() == self.spec_reserved(),
            r.spec_juxtapose_prec() == self.spec_juxtapose_prec(),
    {
        self.add(name, token, Fixity::Prefix(prec))
    }

    /// Registers a suffix operator.
    pub fn suffix(self, name: &str, token: Token, prec: u32) -> (r: GrammarBuilder)
        ensures
            r.spec_entries().drop_last() == self.spec_entries(),
            r.spec_entries().len() == self.spec_entries().len() + 1,
            r.spec_entries().last().token == token,
            r.spec_entries().last().fixity == Fixity::Suffix(prec),
            r.spec_malformed() == self.spec_malformed(),
            r.spec_reserved() == self.spec_reserved(),
            r.spec_juxtapose_prec() == self.spec_juxtapose_prec(),
    {
        self.add(name, token, Fixity::Suffix(prec))
    }

    /// Registers a left-associative infix operator.
    pub fn infixl(self, name: &str, token: Token, prec: u32) -> (r: GrammarBuilder)
        ensures
            r.spec_entries().drop_last() == self.spec_entries(),
            r.spec_entries().len() == self.spec_entries().len() + 1,
            r.spec_entries().last().token == token,
            r.spec_entries().last().fixity == Fixity::InfixL(prec),
            r.spec_malformed() == self.spec_malformed(),
            r.spec_reserved() == self.spec_reserved(),
            r.spec_juxtapose_prec() == self.spec_juxtapose_prec(),
    {
        self.add(name, token, Fixity::InfixL(prec))
    }

    /// Registers a right-associative infix operator.
    pub fn infixr(self, name: &str, token: Token, prec: u32) -> (r: GrammarBuilder)
        ensures
            r.spec_entries().drop_last() == self.spec_entries(),
            r.spec_entries().len() == self.spec_entries().len() + 1,
            r.spec_entries().last().token == token,
            r.spec_entries().last().fixity == Fixity::InfixR(prec),
            r.spec_malformed() == self.spec_malformed(),
            r.spec_reserved() == self.spec_reserved(),
            r.spec_juxtapose_prec() == self.spec_juxtapose_prec(),
    {
        self.add(name, token, Fixity::InfixR(prec))
    }
}


/// Whether a builder's registrations make a grammar.
pub open spec fn buildable(b: GrammarBuilder) -> bool {
    &&& b.spec_reserved().distinct()
    &&& !b.spec_malformed()
    &&& valid_table(table_of(b.spec_entries()), b.spec_reserved())
}

/// The grammar that a builder's registrations make.
pub open spec fn built(b: GrammarBuilder) -> GrammarSpec {
    GrammarSpec { table: table_of(b.spec_entries()), reserved: b.spec_reserved(), juxtapose_prec: b.spec_juxtapose_prec() }
}

/// A builder's registrations as values.
pub open spec fn registrations(b: GrammarBuilder) -> (Seq<(Token, Fixity)>, bool, Reserved, u32) {
    (table_of(b.spec_entries()), b.spec_malformed(), b.spec_reserved(), b.spec_juxtapose_prec())
}

/// The fixity of the delimiter at `ordinal` in a group of `count`, registered
/// when the builder held `group` entries.
pub open spec fn part_fixity(
    group: usize,
    ordinal: usize,
    count: usize,
    left: Option<u32>,
    right: Option<u32>,
) -> Fixity {
    Fixity::Mixfix { group, ordinal, count, left: if ordinal == 0 { left } else { None }, right: if ordinal + 1 == count { right } else { None } }
}

impl GrammarBuilder {
    /// Registers a mixfix group: its delimiters in order, the precedence at
    /// which the first binds on its left and the last on its right, if they
    /// do. A group of fewer than two delimiters makes the build fail.
    pub fn mixfix(self, name: &str, left: Option<u32>, right: Option<u32>, tokens: Vec<Token>) -> (r: GrammarBuilder)
        ensures
            tokens@.len() < 2 ==> r.spec_entries() == self.spec_entries() && r.spec_malformed(),
            tokens@.len() >= 2 ==> {
                &&& r.spec_malformed() == self.spec_malformed()
                &&& r.spec_entries().len() == self.spec_entries().len() + tokens@.len()
                &&& r.spec_entries().subrange(0, self.spec_entries().len() as int) == self.spec_entries()
                &&& forall|i: int| 0 <= i < tokens@.len() ==> {
                    &&& (#[trigger] r.spec_entries()[self.spec_entries().len() + i]).token == tokens@[i]
                    &&& r.spec_entries()[self.spec_entries().len() + i].fixity == part_fixity(
                        self.spec_entries().len() as usize, i as usize, tokens@.len() as usize, left, right)
                }
            },
            r.spec_reserved() == self.spec_reserved(),
            r.spec_juxtapose_prec() == self.spec_juxtapose_prec(),
    {
        let mut b = self;
        let n = tokens.len();
        if n < 2 {
            b.malformed = true;
            return b;
        }
        let group = b.entries.len();
        let ghost start = b.entries@;
        let mut i: usize = 0;
        while i < n
            invariant
                n == tokens@.len(),
                2 <= n,
                group == start.len(),
                0 <= i <= n,
                b.entries@.len() == start.len() + i,
                b.entries@.subrange(0, start.len() as int) == start,
                b.malformed == self.spec_malformed(),
                b.reserved == self.spec_reserved(),
                b.juxtapose_prec == self.spec_juxtapose_prec(),
                start == self.spec_entries(),
                forall|k: int| 0 <= k < i ==> {
                    &&& (#[trigger] b.entries@[start.len() + k]).token == tokens@[k]
                    &&& b.entries@[start.len() + k].fixity == part_fixity(group, k as usize, n, left, right)
                },
            decreases n - i,
        {
            let l = if i == 0 { left } else { None };
            let r = if i + 1 == n { right } else { None };
            let fixity = Fixity::Mixfix { group, ordinal: i, count: n, left: l, right: r };
            let ghost before = b.entries@;
            b.entries.push(Entry { name: name.to_string(), token: tokens[i], fixity });
            assert(b.entries@.subrange(0, start.len() as int) =~= before.subrange(0, start.len() as int));
            i = i + 1;
        }
        b
    }

    /// Checks the registrations and makes the grammar: it fails when two
    /// reserved identities are equal, when a mixfix group has fewer than two
    /// delimiters, when a reserved identity was registered, or when a token
    /// was registered twice.
    pub fn build(self) -> (r: Result<Grammar, BuildError>)
        ensures
            r is Ok <==> buildable(self),
            r matches Ok(g) ==> g@ == built(self) && g.wf(),
            r == Err::<Grammar, BuildError>(BuildError::ReservedNotDistinct) <==> !self.spec_reserved().distinct(),
            r == Err::<Grammar, BuildError>(BuildError::MalformedMixfix) ==> self.spec_malformed()
                || exists|i: int| 0 <= i < self.spec_entries().len() && !(#[trigger] self.spec_entries()[i]).fixity.wf(),
            r matches Err(BuildError::ReservedToken(t)) ==> self.spec_reserved().holds(t)
                && tokens_of(self.spec_entries()).contains(t),
            r matches Err(BuildError::DuplicateToken(t)) ==> exists|i: int, j: int|
                0 <= i < j < self.spec_entries().len() && self.spec_entries()[i].token == t
                    && self.spec_entries()[j].token == t,
    {
        if !self.reserved.is_distinct() {
            return Err(BuildError::ReservedNotDistinct);
        }
        if self.malformed {
            return Err(BuildError::MalformedMixfix);
        }
        let n = self.entries.len();
        let mut i: usize = 0;
        while i < n
            invariant
                n == self.entries@.len(),
                0 <= i <= n,
                self.reserved.distinct(),
                !self.malformed,
                valid_table(table_of(self.entries@).subrange(0, i as int), self.reserved),
            decreases n - i,
        {
            let e = &self.entries[i];
            let fixity_ok = match e.fixity {
                Fixity::Mixfix { ordinal, count, .. } => 2 <= count && ordinal < count,
                _ => true,
            };
            if !fixity_ok {
                assert(!self.entries@[i as int].fixity.wf());
                assert(table_of(self.entries@)[i as int].1 == self.entries@[i as int].fixity);
                return Err(BuildError::MalformedMixfix);
            }
            if self.reserved.contains(e.token) {
                proof {
                    assert(tokens_of(self.entries@)[i as int] == e.token);
                }
                return Err(BuildError::ReservedToken(e.token));
            }
            let mut j: usize = 0;
            while j < i
                invariant
                    n == self.entries@.len(),
                    0 <= j <= i < n,
                    self.reserved.distinct(),
                    forall|k: int| 0 <= k < j ==> self.entries@[k].token != self.entries@[i as int].token,
                decreases i - j,
            {
                if self.entries[j].token == self.entries[i].token {
                    assert(table_of(self.entries@)[j as int].0 == self.entries@[j as int].token);
                    assert(table_of(self.entries@)[i as int].0 == self.entries@[i as int].token);
                    return Err(BuildError::DuplicateToken(self.entries[i].token));
                }
                j = j + 1;
            }
            proof {
                let tb = table_of(self.entries@);
                let prev = tb.subrange(0, i as int);
                let next = tb.subrange(0, i + 1);
                assert(next[i as int] == (self.entries@[i as int].token, self.entries@[i as int].fixity));
                assert forall|a: int| 0 <= a < next.len() implies (#[trigger] next[a]).1.wf() by {
                    if a < i {
                        assert(next[a] == prev[a]);
                    }
                }
                assert forall|a: int| 0 <= a < next.len() implies !self.reserved.holds((#[trigger] next[a]).0) by {
                    if a < i {
                        assert(next[a] == prev[a]);
                    }
                }
                assert forall|a: int, c: int| 0 <= a < c < next.len() implies next[a].0 != next[c].0 by {
                    if c < i {
                        assert(next[a] == prev[a] && next[c] == prev[c]);
                    } else {
                        assert(next[a] == tb[a]);
                    }
                }
            }
            i = i + 1;
        }
        assert(table_of(self.entries@).subrange(0, n as int) =~= table_of(self.entries@));
        Ok(Grammar { entries: self.entries, reserved: self.reserved, juxtapose_prec: self.juxtapose_prec })
    }
}

} // verus!
