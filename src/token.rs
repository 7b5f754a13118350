//! Tokens, lexemes and the nodes of the postfix output.
use vstd::prelude::*;

verus! {

/// A token identity. Every grammar maps such integers to fixities.
pub type Token = u32;

/// A classified piece of source text: its token and the half-open range
/// `(start, end)` of offsets it covers.
#[derive(Clone, Copy, Debug, PartialEq, Eq)]
pub struct Lexeme {
    pub token: Token,
    pub span: (usize, usize),
}

/// The five token identities that the engine alone produces, for the nodes
/// it synthesises while repairing malformed input.
#[derive(Clone, Copy, Debug, PartialEq, Eq)]
pub struct Reserved {
    pub lex_error: Token,
    pub missing_atom: Token,
    pub juxtapose: Token,
    pub missing_sep: Token,
    pub extra_sep: Token,
}

impl Reserved {
    /// The reserved identities as a sequence.
    pub open spec fn all(self) -> Seq<Token> {
        seq![self.lex_error, self.missing_atom, self.juxtapose, self.missing_sep, self.extra_sep]
    }

    /// No two reserved identities coincide.
    pub open spec fn distinct(self) -> bool {
        forall|i: int, j: int| 0 <= i < j < 5 ==> self.all()[i] != self.all()[j]
    }

    /// Whether `t` is one of the reserved identities.
    pub open spec fn holds(self, t: Token) -> bool {
        self.all().contains(t)
    }

    pub fn is_distinct(&self) -> (r: bool)
        ensures
            r == self.distinct(),
    {
        let r = self.lex_error != self.missing_atom && self.lex_error != self.juxtapose
            && self.lex_error != self.missing_sep && self.lex_error != self.extra_sep
            && self.missing_atom != self.juxtapose && self.missing_atom != self.missing_sep
            && self.missing_atom != self.extra_sep && self.juxtapose != self.missing_sep
            && self.juxtapose != self.extra_sep && self.missing_sep != self.extra_sep;
        proof {
            if r {
                assert forall|i: int, j: int| 0 <= i < j < 5 implies self.all()[i]
                    != self.all()[j] by {}
            } else {
                assert(!self.distinct()) by {
                    if self.lex_error == self.missing_atom {
                        assert(self.all()[0] == self.all()[1]);
                    } else if self.lex_error == self.juxtapose {
                        assert(self.all()[0] == self.all()[2]);
                    } else if self.lex_error == self.missing_sep {
                        assert(self.all()[0] == self.all()[3]);
                    } else if self.lex_error == self.extra_sep {
                        assert(self.all()[0] == self.all()[4]);
                    } else if self.missing_atom == self.juxtapose {
                        assert(self.all()[1] == self.all()[2]);
                    } else if self.missing_atom == self.missing_sep {
                        assert(self.all()[1] == self.all()[3]);
                    } else if self.missing_atom == self.extra_sep {
                        assert(self.all()[1] == self.all()[4]);
                    } else if self.juxtapose == self.missing_sep {
                        assert(self.all()[2] == self.all()[3]);
                    } else if self.juxtapose == self.extra_sep {
                        assert(self.all()[2] == self.all()[4]);
                    } else {
                        assert(self.all()[3] == self.all()[4]);
                    }
                }
            }
        }
        r
    }

    pub fn contains(&self, t: Token) -> (r: bool)
        ensures
            r == self.holds(t),
    {
        let r = t == self.lex_error || t == self.missing_atom || t == self.juxtapose
            || t == self.missing_sep || t == self.extra_sep;
        proof {
            if r {
                if t == self.lex_error {
                    assert(self.all()[0] == t);
                } else if t == self.missing_atom {
                    assert(self.all()[1] == t);
                } else if t == self.juxtapose {
                    assert(self.all()[2] == t);
                } else if t == self.missing_sep {
                    assert(self.all()[3] == t);
                } else {
                    assert(self.all()[4] == t);
                }
            }
        }
        r
    }
}

/// One node of the postfix output: the operator's matched tokens, in source
/// order, and how many of the nodes just before it are its operands.
#[derive(Debug)]
pub struct Node {
    pub parts: Vec<Lexeme>,
    pub arity: usize,
}

/// A node's first token, or a leaf's only one.
pub open spec fn head_token(n: Node) -> Token {
    n.parts@[0].token
}

impl Node {
    /// The token of the node's first part.
    pub fn token(&self) -> (r: Token)
        requires
            self.parts@.len() > 0,
        ensures
            r == head_token(*self),
    {
        self.parts[0].token
    }
}

} // verus!
