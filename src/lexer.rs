//! The tokenizer: turns a sequence of characters into lexemes. Whitespace is
//! skipped; patterns are tried in order, then literal tokens; where a pattern
//! matches text that is also a literal token, the literal token wins. Text
//! that nothing matches becomes one lexeme of the grammar's lex-error token.
//! Offsets count characters.
use vstd::prelude::*;
use crate::token::{Lexeme, Token};

verus! {

/// A set of characters, as inclusive ranges of code points.
#[derive(Debug)]
pub struct CharClass {
    pub ranges: Vec<(u32, u32)>,
}

pub open spec fn in_class(ranges: Seq<(u32, u32)>, c: char) -> bool {
    exists|k: int| 0 <= k < ranges.len() && (#[trigger] ranges[k]).0 <= (c as u32) <= ranges[k].1
}

/// How many characters of `s` from `i` on lie in the class.
pub open spec fn run_from(ranges: Seq<(u32, u32)>, s: Seq<char>, i: int) -> nat
    decreases s.len() - i,
{
    if 0 <= i < s.len() && in_class(ranges, s[i]) {
        1 + run_from(ranges, s, i + 1)
    } else {
        0
    }
}

impl CharClass {
    pub fn contains(&self, c: char) -> (r: bool)
        ensures
            r == in_class(self.ranges@, c),
    {
        let mut k: usize = 0;
        while k < self.ranges.len()
            invariant
                k <= self.ranges@.len(),
                forall|j: int| 0 <= j < k ==> !((#[trigger] self.ranges@[j]).0 <= (c as u32) <= self.ranges@[j].1),
            decreases self.ranges@.len() - k,
        {
            let (lo, hi) = self.ranges[k];
            if lo <= c as u32 && c as u32 <= hi {
                return true;
            }
            k = k + 1;
        }
        false
    }

    /// The length of the run of characters in the class that starts at `i`.
    pub fn run(&self, s: &[char], i: usize) -> (r: usize)
        requires
            i <= s@.len(),
        ensures
            r == run_from(self.ranges@, s@, i as int),
            i + r <= s@.len(),
    {
        let mut j: usize = i;
        while j < s.len() && self.contains(s[j])
            invariant
                i <= j <= s@.len(),
                run_from(self.ranges@, s@, i as int) == (j - i) + run_from(self.ranges@, s@, j as int),
            decreases s@.len() - j,
        {
            j = j + 1;
        }
        j - i
    }
}

/// Whether `text` is a non-empty literal that `s` holds from `i` on.
pub open spec fn literal_at(text: Seq<char>, s: Seq<char>, i: int) -> bool {
    &&& text.len() > 0
    &&& i + text.len() <= s.len()
    &&& s.subrange(i, i + text.len()) == text
}

/// The first pattern from number `k` on that matches at `i`.
pub open spec fn first_pattern(ps: Seq<(CharClass, Token)>, s: Seq<char>, i: int, k: int) -> Option<int>
    decreases ps.len() - k,
{
    if k < 0 || k >= ps.len() {
        None
    } else if run_from(ps[k].0.ranges@, s, i) > 0 {
        Some(k)
    } else {
        first_pattern(ps, s, i, k + 1)
    }
}

/// The first literal from number `k` on that equals `text`.
pub open spec fn first_equal(cs: Seq<(Vec<char>, Token)>, text: Seq<char>, k: int) -> Option<int>
    decreases cs.len() - k,
{
    if k < 0 || k >= cs.len() {
        None
    } else if cs[k].0@ == text {
        Some(k)
    } else {
        first_equal(cs, text, k + 1)
    }
}

/// The first literal from number `k` on that `s` holds at `i`.
pub open spec fn first_literal(cs: Seq<(Vec<char>, Token)>, s: Seq<char>, i: int, k: int) -> Option<int>
    decreases cs.len() - k,
{
    if k < 0 || k >= cs.len() {
        None
    } else if literal_at(cs[k].0@, s, i) {
        Some(k)
    } else {
        first_literal(cs, s, i, k + 1)
    }
}

proof fn lemma_first_pattern(ps: Seq<(CharClass, Token)>, s: Seq<char>, i: int, k: int)
    ensures
        first_pattern(ps, s, i, k) matches Some(p) ==> k <= p < ps.len() && run_from(ps[p].0.ranges@, s, i) > 0,
    decreases ps.len() - k,
{
    if 0 <= k < ps.len() {
        lemma_first_pattern(ps, s, i, k + 1);
    }
}

proof fn lemma_first_equal(cs: Seq<(Vec<char>, Token)>, text: Seq<char>, k: int)
    ensures
        first_equal(cs, text, k) matches Some(c) ==> k <= c < cs.len() && cs[c].0@ == text,
    decreases cs.len() - k,
{
    if 0 <= k < cs.len() {
        lemma_first_equal(cs, text, k + 1);
    }
}

proof fn lemma_first_literal(cs: Seq<(Vec<char>, Token)>, s: Seq<char>, i: int, k: int)
    ensures
        first_literal(cs, s, i, k) matches Some(c) ==> k <= c < cs.len() && literal_at(cs[c].0@, s, i),
    decreases cs.len() - k,
{
    if 0 <= k < cs.len() {
        lemma_first_literal(cs, s, i, k + 1);
    }
}

/// The rules of a tokenizer.
#[derive(Debug)]
pub struct Lexer {
    whitespace: CharClass,
    patterns: Vec<(CharClass, Token)>,
    constants: Vec<(Vec<char>, Token)>,
    lex_error: Token,
}

/// A tokenizer at work on one source.
#[derive(Debug)]
pub struct Lex<'s> {
    lexer: &'s Lexer,
    source: &'s [char],
    index: usize,
}

impl Lexer {
    pub closed spec fn spec_whitespace(self) -> Seq<(u32, u32)> {
        self.whitespace.ranges@
    }

    pub closed spec fn spec_patterns(self) -> Seq<(CharClass, Token)> {
        self.patterns@
    }

    pub closed spec fn spec_constants(self) -> Seq<(Vec<char>, Token)> {
        self.constants@
    }

    pub closed spec fn spec_lex_error(self) -> Token {
        self.lex_error
    }

    /// The lexeme that starts after the whitespace at `i`, as its token and
    /// span; none where only whitespace is left.
    pub open spec fn next_at(self, s: Seq<char>, i: int) -> Option<(Token, int, int)> {
        let at = i + run_from(self.spec_whitespace(), s, i);
        let ps = self.spec_patterns();
        let cs = self.spec_constants();
        match first_pattern(ps, s, at, 0) {
            Some(p) => {
                let n = run_from(ps[p].0.ranges@, s, at);
                match first_equal(cs, s.subrange(at, at + n), 0) {
                    Some(c) => Some((cs[c].1, at, at + n)),
                    None => Some((ps[p].1, at, at + n)),
                }
            },
            None => match first_literal(cs, s, at, 0) {
                Some(c) => Some((cs[c].1, at, at + cs[c].0@.len())),
                None => if at >= s.len() {
                    None
                } else {
                    Some((self.spec_lex_error(), at, s.len() as int))
                },
            },
        }
    }

    /// Every lexeme of `s` from `i` on, in order.
    pub open spec fn lex_from(self, s: Seq<char>, i: int) -> Seq<Lexeme>
        decreases s.len() - i,
    {
        match self.next_at(s, i) {
            Some((t, start, end)) => if i < end <= s.len() {
                seq![Lexeme { token: t, span: (start as usize, end as usize) }] + self.lex_from(s, end)
            } else {
                Seq::empty()
            },
            None => Seq::empty(),
        }
    }

    /// Every lexeme of `source`, in order.
    pub fn tokenize(&self, source: &[char]) -> (r: Vec<Lexeme>)
        ensures
            r@ == self.lex_from(source@, 0),
    {
        let mut lex = self.lex(source);
        let mut out: Vec<Lexeme> = Vec::new();
        loop
            invariant
                lex.wf(),
                lex.spec_lexer() == *self,
                lex.spec_source() == source@,
                out@ + self.lex_from(source@, lex.spec_index() as int) == self.lex_from(source@, 0),
            decreases source@.len() - lex.spec_index(),
        {
            let ghost i = lex.spec_index();
            match lex.next_lexeme() {
                Some(x) => {
                    proof {
                        let rest = self.lex_from(source@, lex.spec_index() as int);
                        assert(self.lex_from(source@, i as int) == seq![x] + rest);
                        assert(out@.push(x) + rest =~= out@ + (seq![x] + rest));
                    }
                    out.push(x);
                },
                None => {
                    assert(self.lex_from(source@, i as int) == Seq::<Lexeme>::empty());
                    assert(out@ + Seq::<Lexeme>::empty() =~= out@);
                    return out;
                },
            }
        }
    }

    /// A tokenizer with no patterns and no literals.
    pub fn new(lex_error: Token, whitespace: CharClass) -> (r: Lexer)
        ensures
            r.spec_whitespace() == whitespace.ranges@,
            r.spec_patterns().len() == 0,
            r.spec_constants().len() == 0,
            r.spec_lex_error() == lex_error,
    {
        Lexer { whitespace, patterns: Vec::new(), constants: Vec::new(), lex_error }
    }

    /// Adds a pattern, tried after those added before: a non-empty run of
    /// characters of the class.
    pub fn pattern(self, class: CharClass, token: Token) -> (r: Lexer)
        ensures
            r.spec_whitespace() == self.spec_whitespace(),
            r.spec_patterns() == self.spec_patterns().push((class, token)),
            r.spec_constants() == self.spec_constants(),
            r.spec_lex_error() == self.spec_lex_error(),
    {
        let mut l = self;
        l.patterns.push((class, token));
        l
    }

    /// Adds a literal token, tried after those added before. An empty
    /// literal never matches.
    pub fn constant(self, text: Vec<char>, token: Token) -> (r: Lexer)
        ensures
            r.spec_whitespace() == self.spec_whitespace(),
            r.spec_patterns() == self.spec_patterns(),
            r.spec_constants() == self.spec_constants().push((text, token)),
            r.spec_lex_error() == self.spec_lex_error(),
    {
        let mut l = self;
        l.constants.push((text, token));
        l
    }

    /// Starts tokenizing `source`.
    pub fn lex<'s>(&'s self, source: &'s [char]) -> (r: Lex<'s>)
        ensures
            r.wf(),
            r.spec_lexer() == *self,
            r.spec_source() == source@,
            r.spec_index() == 0,
    {
        Lex { lexer: self, source, index: 0 }
    }

    fn first_pattern(&self, s: &[char], at: usize) -> (r: Option<usize>)
        requires
            at <= s@.len(),
        ensures
            r matches Some(p) ==> first_pattern(self.patterns@, s@, at as int, 0) == Some(p as int)
                && p < self.patterns@.len(),
            r is None ==> first_pattern(self.patterns@, s@, at as int, 0) is None,
    {
        let mut k: usize = 0;
        while k < self.patterns.len()
            invariant
                at <= s@.len(),
                k <= self.patterns@.len(),
                first_pattern(self.patterns@, s@, at as int, 0) == first_pattern(self.patterns@, s@, at as int, k as int),
            decreases self.patterns@.len() - k,
        {
            if self.patterns[k].0.run(s, at) > 0 {
                return Some(k);
            }
            k = k + 1;
        }
        None
    }

    fn first_equal(&self, s: &[char], at: usize, n: usize) -> (r: Option<usize>)
        requires
            at + n <= s@.len(),
        ensures
            r matches Some(c) ==> first_equal(self.constants@, s@.subrange(at as int, at + n), 0) == Some(c as int)
                && c < self.constants@.len(),
            r is None ==> first_equal(self.constants@, s@.subrange(at as int, at + n), 0) is None,
    {
        let ghost text = s@.subrange(at as int, at + n);
        let mut k: usize = 0;
        while k < self.constants.len()
            invariant
                at + n <= s@.len(),
                text == s@.subrange(at as int, at + n),
                k <= self.constants@.len(),
                first_equal(self.constants@, text, 0) == first_equal(self.constants@, text, k as int),
            decreases self.constants@.len() - k,
        {
            if holds_at(&self.constants[k].0, s, at) && self.constants[k].0.len() == n {
                assert(self.constants@[k as int].0@ =~= text);
                return Some(k);
            }
            proof {
                if self.constants@[k as int].0@ == text {
                    assert(self.constants@[k as int].0@.len() == n);
                    if n > 0 {
                        assert(literal_at(self.constants@[k as int].0@, s@, at as int));
                    }
                }
            }
            k = k + 1;
        }
        None
    }

    fn first_literal(&self, s: &[char], at: usize) -> (r: Option<usize>)
        requires
            at <= s@.len(),
        ensures
            r matches Some(c) ==> first_literal(self.constants@, s@, at as int, 0) == Some(c as int)
                && c < self.constants@.len(),
            r is None ==> first_literal(self.constants@, s@, at as int, 0) is None,
    {
        let mut k: usize = 0;
        while k < self.constants.len()
            invariant
                at <= s@.len(),
                k <= self.constants@.len(),
                first_literal(self.constants@, s@, at as int, 0) == first_literal(self.constants@, s@, at as int, k as int),
            decreases self.constants@.len() - k,
        {
            if self.constants[k].0.len() > 0 && holds_at(&self.constants[k].0, s, at) {
                return Some(k);
            }
            k = k + 1;
        }
        None
    }
}

/// Whether `s` holds `text` from `at` on.
fn holds_at(text: &Vec<char>, s: &[char], at: usize) -> (r: bool)
    requires
        at <= s@.len(),
    ensures
        r == (at + text@.len() <= s@.len() && s@.subrange(at as int, at + text@.len()) == text@),
{
    if text.len() > s.len() - at {
        return false;
    }
    let slen = s.len();
    let mut k: usize = 0;
    while k < text.len()
        invariant
            slen == s@.len(),
            at + text@.len() <= s@.len(),
            k <= text@.len(),
            forall|j: int| 0 <= j < k ==> s@[at + j] == text@[j],
        decreases text@.len() - k,
    {
        if s[at + k] != text[k] {
            assert(s@.subrange(at as int, at + text@.len())[k as int] != text@[k as int]);
            return false;
        }
        k = k + 1;
    }
    assert(s@.subrange(at as int, at + text@.len()) =~= text@);
    true
}

impl<'s> Lex<'s> {
    pub closed spec fn spec_lexer(self) -> Lexer {
        *self.lexer
    }

    pub closed spec fn spec_source(self) -> Seq<char> {
        self.source@
    }

    pub closed spec fn spec_index(self) -> usize {
        self.index
    }

    pub open spec fn wf(self) -> bool {
        self.spec_index() <= self.spec_source().len()
    }

    /// The source from the current position on.
    pub fn remaining(&self) -> (r: &'s [char])
        requires
            self.wf(),
        ensures
            r@ == self.spec_source().subrange(self.spec_index() as int, self.spec_source().len() as int),
    {
        self.source.split_at(self.index).1
    }

    fn eat_whitespace(&mut self)
        requires
            old(self).wf(),
        ensures
            final(self).wf(),
            final(self).lexer == old(self).lexer,
            final(self).source == old(self).source,
            final(self).index == old(self).index + run_from(old(self).lexer.whitespace.ranges@, old(self).source@, old(self).index as int),
    {
        let n = self.lexer.whitespace.run(self.source, self.index);
        let _ = self.source.len();
        self.index = self.index + n;
    }

    fn eat_token(&mut self, token: Token, len: usize) -> (r: Lexeme)
        requires
            old(self).wf(),
            old(self).index + len <= old(self).source@.len(),
        ensures
            final(self).wf(),
            final(self).lexer == old(self).lexer,
            final(self).source == old(self).source,
            final(self).index == old(self).index + len,
            r == (Lexeme { token, span: (old(self).index, (old(self).index + len) as usize) }),
    {
        let _ = self.source.len();
        let span = (self.index, self.index + len);
        self.index = self.index + len;
        Lexeme { span, token }
    }

    /// The next lexeme, or none where only whitespace is left.
    pub fn next_lexeme(&mut self) -> (r: Option<Lexeme>)
        requires
            old(self).wf(),
        ensures
            final(self).wf(),
            final(self).spec_lexer() == old(self).spec_lexer(),
            final(self).spec_source() == old(self).spec_source(),
            match old(self).spec_lexer().next_at(old(self).spec_source(), old(self).spec_index() as int) {
                Some((t, start, end)) => r == Some(Lexeme { token: t, span: (start as usize, end as usize) })
                    && final(self).spec_index() == end && old(self).spec_index() <= start < end,
                None => r is None && final(self).spec_index() == old(self).spec_source().len(),
            },
    {
        self.eat_whitespace();
        let s = self.source;
        let at = self.index;
        proof {
            let cs = self.lexer.constants@;
            let ps = self.lexer.patterns@;
            lemma_first_pattern(ps, s@, at as int, 0);
            lemma_first_literal(cs, s@, at as int, 0);
            if let Some(p) = first_pattern(ps, s@, at as int, 0) {
                let n = run_from(ps[p].0.ranges@, s@, at as int);
                lemma_first_equal(cs, s@.subrange(at as int, at + n), 0);
            }
        }
        match self.lexer.first_pattern(s, at) {
            Some(p) => {
                let n = self.lexer.patterns[p].0.run(s, at);
                match self.lexer.first_equal(s, at, n) {
                    Some(c) => {
                        let token = self.lexer.constants[c].1;
                        Some(self.eat_token(token, n))
                    },
                    None => {
                        let token = self.lexer.patterns[p].1;
                        Some(self.eat_token(token, n))
                    },
                }
            },
            None => match self.lexer.first_literal(s, at) {
                Some(c) => {
                    let token = self.lexer.constants[c].1;
                    let len = self.lexer.constants[c].0.len();
                    Some(self.eat_token(token, len))
                },
                None => {
                    if at >= s.len() {
                        None
                    } else {
                        let token = self.lexer.lex_error;
                        let len = s.len() - at;
                        Some(self.eat_token(token, len))
                    }
                },
            },
        }
    }
}

} // verus!
