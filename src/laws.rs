//! Properties that relate several operations of the library.
use vstd::prelude::*;
use crate::grammar::{buildable, built, registrations, Grammar, GrammarBuilder};
use crate::shunter::parse_spec;
use crate::token::Lexeme;

verus! {

/// Building the same registrations twice: both builds succeed or both fail,
/// and the two grammars parse every sequence of lexemes to the same output.
pub proof fn lemma_same_registrations_same_output(
    b1: GrammarBuilder,
    b2: GrammarBuilder,
    g1: Grammar,
    g2: Grammar,
    xs: Seq<Lexeme>,
)
    requires
        registrations(b1) == registrations(b2),
        g1@ == built(b1),
        g2@ == built(b2),
    ensures
        buildable(b1) == buildable(b2),
        g1@ == g2@,
        parse_spec(g1@, xs) == parse_spec(g2@, xs),
{
}

} // verus!
