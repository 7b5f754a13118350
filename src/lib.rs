//! An operator-precedence parsing engine: a grammar assigns each token a
//! fixity and precedence, and the shunter turns a sequence of lexemes into a
//! flat postfix sequence of nodes, repairing malformed input in place. A
//! tokenizer turns characters into the lexemes that the shunter reads.
pub mod token;
pub mod grammar;
pub mod shunter;
pub mod lexer;
pub mod laws;
