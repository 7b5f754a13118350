use panfix::lexer::{CharClass, Lexer};
use panfix::grammar::GrammarBuilder;
use panfix::shunter::parse;
use panfix::token::{Lexeme, Reserved};

const WORD: u32 = 1;
const NUM: u32 = 2;
const PLUS: u32 = 3;
const IF: u32 = 4;
const ERR: u32 = 99;

fn lexer() -> Lexer {
    Lexer::new(ERR, CharClass { ranges: vec![(' ' as u32, ' ' as u32), ('\n' as u32, '\n' as u32)] })
        .pattern(CharClass { ranges: vec![('a' as u32, 'z' as u32)] }, WORD)
        .pattern(CharClass { ranges: vec![('0' as u32, '9' as u32)] }, NUM)
        .constant(vec!['+'], PLUS)
        .constant(vec!['i', 'f'], IF)
}

fn chars(s: &str) -> Vec<char> {
    s.chars().collect()
}

fn all(l: &Lexer, src: &[char]) -> Vec<Lexeme> {
    let mut lex = l.lex(src);
    let mut out = Vec::new();
    while let Some(x) = lex.next_lexeme() {
        out.push(x);
    }
    out
}

#[test]
fn lexes_patterns_and_literals() {
    let l = lexer();
    let src = chars(" ab + 12");
    assert_eq!(
        all(&l, &src),
        vec![
            Lexeme { token: WORD, span: (1, 3) },
            Lexeme { token: PLUS, span: (4, 5) },
            Lexeme { token: NUM, span: (6, 8) },
        ]
    );
}

#[test]
fn literal_wins_over_pattern_on_same_text() {
    let l = lexer();
    let src = chars("if iff");
    assert_eq!(
        all(&l, &src),
        vec![Lexeme { token: IF, span: (0, 2) }, Lexeme { token: WORD, span: (3, 6) }]
    );
}

#[test]
fn unmatched_text_is_one_lex_error() {
    let l = lexer();
    let src = chars("a ?? b");
    assert_eq!(
        all(&l, &src),
        vec![Lexeme { token: WORD, span: (0, 1) }, Lexeme { token: ERR, span: (2, 6) }]
    );
}

#[test]
fn whitespace_only_gives_nothing() {
    let l = lexer();
    assert_eq!(all(&l, &chars("")), vec![]);
    assert_eq!(all(&l, &chars("  \n ")), vec![]);
}

#[test]
fn remaining_follows_the_cursor() {
    let l = lexer();
    let src = chars("ab cd");
    let mut lex = l.lex(&src);
    assert_eq!(lex.remaining(), &src[..]);
    lex.next_lexeme();
    assert_eq!(lex.remaining(), &chars(" cd")[..]);
    lex.next_lexeme();
    assert_eq!(lex.remaining(), &chars("")[..]);
    assert_eq!(lex.next_lexeme(), None);
}

#[test]
fn tokenize_collects_every_lexeme() {
    let l = lexer();
    let src = chars("if x+1 ?");
    assert_eq!(
        l.tokenize(&src),
        vec![
            Lexeme { token: IF, span: (0, 2) },
            Lexeme { token: WORD, span: (3, 4) },
            Lexeme { token: PLUS, span: (4, 5) },
            Lexeme { token: NUM, span: (5, 6) },
            Lexeme { token: ERR, span: (7, 8) },
        ]
    );
    assert_eq!(l.tokenize(&chars("   ")), vec![]);
}

#[test]
fn tokenized_source_parses() {
    let reserved = Reserved { lex_error: ERR, missing_atom: 100, juxtapose: 101, missing_sep: 102, extra_sep: 103 };
    let g = GrammarBuilder::new(reserved, 0)
        .nilfix("word", WORD)
        .nilfix("num", NUM)
        .infixl("plus", PLUS, 60)
        .build()
        .unwrap();
    let lexemes = lexer().tokenize(&chars("a + 1 + b"));
    let out = parse(&g, &lexemes);
    let toks: Vec<u32> = out.iter().map(|n| n.token()).collect();
    assert_eq!(toks, vec![WORD, NUM, PLUS, WORD, PLUS]);
    let out = parse(&g, &lexer().tokenize(&chars("a ?")));
    let toks: Vec<u32> = out.iter().map(|n| n.token()).collect();
    assert_eq!(toks, vec![WORD, ERR, 101]);
}
