use panfix::grammar::{BuildError, Fixity, Grammar, GrammarBuilder};
use panfix::shunter::{parse, Shunter};
use panfix::token::{Lexeme, Node, Reserved};

fn t(c: char) -> u32 {
    c as u32
}

fn reserved() -> Reserved {
    Reserved {
        lex_error: t('E'),
        missing_atom: t('M'),
        juxtapose: t('J'),
        missing_sep: t('S'),
        extra_sep: t('X'),
    }
}

fn builder() -> GrammarBuilder {
    GrammarBuilder::new(reserved(), 10)
        .nilfix("1", t('1'))
        .nilfix("2", t('2'))
        .nilfix("3", t('3'))
        .prefix("-", t('-'), 20)
        .prefix("^", t('^'), 80)
        .suffix("!", t('!'), 20)
        .infixl("+", t('+'), 60)
        .infixr("*", t('*'), 40)
        .mixfix("@", Some(30), None, vec![t('('), t(')')])
}

fn grammar() -> Grammar {
    builder().build().unwrap()
}

fn lex(source: &str) -> Vec<Lexeme> {
    source
        .chars()
        .enumerate()
        .map(|(i, ch)| Lexeme {
            token: t(ch),
            span: (i, i + 1),
        })
        .collect()
}

fn nodes(source: &str) -> Vec<Node> {
    parse(&grammar(), &lex(source))
}

fn shunt(source: &str) -> String {
    nodes(source)
        .iter()
        .map(|node| char::from_u32(node.token()).unwrap())
        .collect::<String>()
}

fn arities(source: &str) -> Vec<usize> {
    nodes(source).iter().map(|node| node.arity).collect()
}

#[test]
fn test_shunt_normal() {
    assert_eq!(shunt("1+2"), "12+");
    assert_eq!(shunt("1+2+3"), "12+3+");
    assert_eq!(shunt("1*2*3"), "123**");
}

#[test]
fn test_shunt_missing() {
    assert_eq!(shunt(""), "M");
    assert_eq!(shunt("+"), "MM+");
    assert_eq!(shunt("123"), "12J3J");
}

#[test]
fn test_prefix_and_suffix() {
    assert_eq!(shunt("-3"), "3-");
    assert_eq!(shunt("3!"), "3!");
    assert_eq!(shunt("-3!"), "3-!");
}

#[test]
fn test_complicated() {
    assert_eq!(shunt("--+^1-2"), "M--12-J^+",);
    assert_eq!(shunt("!*^!3"), "M!M!3J^*",);
    assert_eq!(shunt("--+^1-2!*^!3"), "M--12-J!M!3J^*^+");
}

#[test]
fn test_mixfix() {
    assert_eq!(shunt("1(2)"), "12(");
    assert_eq!(shunt("1(2"), "12S(");
    assert_eq!(shunt("1(2))"), "12(X");
    assert_eq!(shunt("1(2)(3)"), "12(3(");
    assert_eq!(shunt("1(2(3))"), "123((");
    assert_eq!(shunt("(2)"), "M2(");
    assert_eq!(shunt("1()"), "1M(");
}

#[test]
fn empty_input_is_one_missing_atom() {
    let out = nodes("");
    assert_eq!(out.len(), 1);
    assert_eq!(out[0].arity, 0);
    assert_eq!(out[0].parts, vec![Lexeme { token: t('M'), span: (0, 0) }]);
}

#[test]
fn lone_infix_gets_two_missing_atoms() {
    assert_eq!(shunt("+"), "MM+");
    assert_eq!(arities("+"), vec![0, 0, 2]);
}

#[test]
fn infix_arities() {
    assert_eq!(arities("1+2+3"), vec![0, 0, 2, 0, 2]);
    assert_eq!(arities("1*2*3"), vec![0, 0, 0, 2, 2]);
    assert_eq!(arities("123"), vec![0, 0, 2, 0, 2]);
}

#[test]
fn mixfix_node_holds_both_delimiters() {
    let out = nodes("1(2)");
    assert_eq!(out.len(), 3);
    assert_eq!(out[2].arity, 2);
    let toks: Vec<u32> = out[2].parts.iter().map(|l| l.token).collect();
    assert_eq!(toks, vec![t('('), t(')')]);
    assert_eq!(out[2].parts[0].span, (1, 2));
    assert_eq!(out[2].parts[1].span, (3, 4));
}

#[test]
fn missing_close_is_marked() {
    let out = nodes("1(2");
    assert_eq!(arities("1(2"), vec![0, 0, 0, 2]);
    assert_eq!(out[2].parts, vec![Lexeme { token: t('S'), span: (3, 3) }]);
    assert_eq!(out[3].parts.len(), 1);
}

#[test]
fn unmatched_close_is_extra_separator() {
    assert_eq!(shunt(")"), "XM");
    assert_eq!(shunt("1)"), "1X");
    let out = nodes("1)");
    assert_eq!(out[1].arity, 0);
    assert_eq!(out[1].parts, vec![Lexeme { token: t('X'), span: (1, 2) }]);
}

#[test]
fn synthesized_spans_are_empty() {
    let out = nodes("12");
    assert_eq!(out[1].parts[0].span, (1, 2));
    assert_eq!(out[2].parts, vec![Lexeme { token: t('J'), span: (1, 1) }]);
}

#[test]
fn unregistered_tokens_are_atoms() {
    assert_eq!(shunt("1z"), "1zJ");
    assert_eq!(shunt("z+E"), "zE+");
}

#[test]
fn output_is_consistent_on_malformed_input() {
    for src in ["", "+", "((((", "))1((", "!!**^^", "1(+)(", "-(*)!2", "((1)2)3)"] {
        let out = nodes(src);
        assert!(out.len() >= 1);
        for (i, node) in out.iter().enumerate() {
            assert!(node.arity <= i);
            assert!(!node.parts.is_empty());
        }
    }
}

#[test]
fn same_registrations_give_same_output() {
    let g1 = builder().build().unwrap();
    let g2 = builder().build().unwrap();
    for src in ["1+2*3", "--+^1-2!*^!3", "1(2(3", "))"] {
        let a: Vec<(Vec<Lexeme>, usize)> =
            parse(&g1, &lex(src)).into_iter().map(|n| (n.parts, n.arity)).collect();
        let b: Vec<(Vec<Lexeme>, usize)> =
            parse(&g2, &lex(src)).into_iter().map(|n| (n.parts, n.arity)).collect();
        assert_eq!(a, b);
    }
}

#[test]
fn incremental_parse_matches_whole_parse() {
    let g = grammar();
    let mut s = Shunter::new();
    for l in lex("1+2*3") {
        s.push(&g, l);
    }
    let a: Vec<usize> = s.finish(&g).iter().map(|n| n.arity).collect();
    assert_eq!(a, arities("1+2*3"));
}

#[test]
fn three_part_mixfix() {
    let g = GrammarBuilder::new(reserved(), 10)
        .nilfix("a", t('a'))
        .mixfix("cond", Some(50), Some(50), vec![t('?'), t(':')])
        .mixfix("if", None, Some(90), vec![t('i'), t('t'), t('e')])
        .build()
        .unwrap();
    let run = |src: &str| -> String {
        parse(&g, &lex(src))
            .iter()
            .map(|n| char::from_u32(n.token()).unwrap())
            .collect()
    };
    assert_eq!(run("a?a:a"), "aaa?");
    assert_eq!(run("iatae"), "aaMi");
    assert_eq!(run("iataea"), "aaai");
    let out = parse(&g, &lex("iataea"));
    assert_eq!(out[3].arity, 3);
    assert_eq!(out[3].parts.len(), 3);
    assert_eq!(run("iat"), "aMSi");
}

#[test]
fn build_rejects_duplicates() {
    let r = GrammarBuilder::new(reserved(), 10)
        .nilfix("a", t('a'))
        .prefix("a again", t('a'), 5)
        .build();
    assert_eq!(r.err(), Some(BuildError::DuplicateToken(t('a'))));
}

#[test]
fn build_rejects_short_mixfix() {
    let r = GrammarBuilder::new(reserved(), 10)
        .mixfix("short", None, None, vec![t('(')])
        .build();
    assert_eq!(r.err(), Some(BuildError::MalformedMixfix));
}

#[test]
fn build_rejects_reserved_tokens() {
    let r = GrammarBuilder::new(reserved(), 10)
        .infixl("Juxtapose", t('J'), 50)
        .build();
    assert_eq!(r.err(), Some(BuildError::ReservedToken(t('J'))));
}

#[test]
fn build_rejects_clashing_reserved() {
    let mut res = reserved();
    res.extra_sep = res.missing_sep;
    let r = GrammarBuilder::new(res, 10).build();
    assert_eq!(r.err(), Some(BuildError::ReservedNotDistinct));
}

#[test]
fn grammar_reports_fixities() {
    let g = grammar();
    assert_eq!(g.fixity(t('+')), Fixity::InfixL(60));
    assert_eq!(g.fixity(t('*')), Fixity::InfixR(40));
    assert_eq!(g.fixity(t('z')), Fixity::Nilfix);
    assert_eq!(
        g.fixity(t(')')),
        Fixity::Mixfix { group: 8, ordinal: 1, count: 2, left: None, right: None }
    );
    assert_eq!(g.juxtapose_prec(), 10);
    assert_eq!(g.reserved(), reserved());
}
