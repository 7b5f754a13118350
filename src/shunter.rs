//! The shunter: a single left-to-right pass over lexemes that keeps a stack of
//! pending operators and emits a postfix sequence of nodes. Malformed input is
//! repaired with the grammar's reserved tokens, so every input yields output.
use vstd::prelude::*;
use crate::grammar::{Fixity, Grammar, GrammarSpec};
use crate::token::{Lexeme, Node, Token};

verus! {

/// How a pending operator waits on the stack.
#[derive(Clone, Copy, Debug, PartialEq, Eq)]
pub enum Binding {
    /// It waits for its right operand, which it binds at `prec`. When an
    /// incoming operator binds on its left at the same precedence, the
    /// pending one takes the operand between them if `wins_tie` holds.
    Right { prec: u32, wins_tie: bool },
    /// An open mixfix group waiting for its delimiter number `next` of
    /// `count`; `right` is how its last delimiter binds on its right.
    Open { group: usize, next: usize, count: usize, right: Option<u32> },
}

/// A pending operator: its tokens so far, and how many operands it holds.
#[derive(Debug)]
pub struct Pending {
    pub parts: Vec<Lexeme>,
    pub held: usize,
    pub binding: Binding,
}

/// The operands that the pending operators of a stack hold together.
pub open spec fn held_total(s: Seq<Pending>) -> int
    decreases s.len(),
{
    if s.len() == 0 {
        0
    } else {
        held_total(s.drop_last()) + s.last().held
    }
}

proof fn lemma_held_total_nonneg(s: Seq<Pending>)
    ensures
        held_total(s) >= 0,
    decreases s.len(),
{
    if s.len() > 0 {
        lemma_held_total_nonneg(s.drop_last());
    }
}

/// Every node has tokens, and no node has more operands than there are
/// nodes before it.
pub open spec fn consistent(out: Seq<Node>) -> bool {
    forall|i: int| 0 <= i < out.len() ==> (#[trigger] out[i]).arity <= i && out[i].parts@.len() >= 1
}

/// A leaf holding one token at an empty span.
pub open spec fn is_leaf_at(n: Node, t: Token, at: usize) -> bool {
    &&& n.arity == 0
    &&& n.parts@ == seq![Lexeme { token: t, span: (at, at) }]
}

/// Whether a pending operator with this binding takes the operand it
/// shares with an incoming operator that binds on its left at `prec`.
pub open spec fn yields_to(b: Binding, prec: u32) -> bool {
    match b {
        Binding::Right { prec: p, wins_tie } => p < prec || (p == prec && wins_tie),
        Binding::Open { .. } => false,
    }
}

/// A pending operator as values: its tokens, the operands it holds, and how
/// it binds.
pub type PendingView = (Seq<Lexeme>, usize, Binding);

/// A node as values: its tokens and its arity.
pub type NodeView = (Seq<Lexeme>, usize);

/// The state of a parse as values.
pub struct ShuntState {
    pub stack: Seq<PendingView>,
    pub out: Seq<NodeView>,
    pub have: bool,
    pub pos: usize,
}

pub open spec fn node_view(n: Node) -> NodeView {
    (n.parts@, n.arity)
}

pub open spec fn pending_view(p: Pending) -> PendingView {
    (p.parts@, p.held, p.binding)
}

pub open spec fn initial_state() -> ShuntState {
    ShuntState { stack: Seq::empty(), out: Seq::empty(), have: false, pos: 0 }
}

pub open spec fn st_emit(st: ShuntState, parts: Seq<Lexeme>, arity: usize) -> ShuntState {
    ShuntState { out: st.out.push((parts, arity)), ..st }
}

pub open spec fn st_leaf(st: ShuntState, t: Token, at: usize) -> ShuntState {
    st_emit(st, seq![Lexeme { token: t, span: (at, at) }], 0)
}

/// Supplies a missing atom where no operand was read.
pub open spec fn st_need(st: ShuntState, missing_atom: Token, at: usize) -> ShuntState {
    if st.have {
        st
    } else {
        ShuntState { have: true, ..st_leaf(st, missing_atom, at) }
    }
}

/// Emits the topmost pending operator; an open group is first marked as
/// missing its delimiter.
pub open spec fn st_pop_one(st: ShuntState, missing_sep: Token) -> ShuntState {
    let top = st.stack.last();
    let st1 = ShuntState { stack: st.stack.drop_last(), ..st };
    let st2 = if top.2 is Open {
        st_leaf(st1, missing_sep, st.pos)
    } else {
        st1
    };
    st_emit(st2, top.0, (top.1 + 1) as usize)
}

/// Emits the pending operators that take the operand from an incoming one
/// binding on its left at `prec`.
pub open spec fn st_pop_tighter(st: ShuntState, prec: u32, missing_sep: Token) -> ShuntState
    decreases st.stack.len(),
{
    if st.stack.len() > 0 && yields_to(st.stack.last().2, prec) {
        st_pop_tighter(st_pop_one(st, missing_sep), prec, missing_sep)
    } else {
        st
    }
}

/// Emits pending operators until the stack holds `n` of them.
pub open spec fn st_pop_to(st: ShuntState, n: int, missing_sep: Token) -> ShuntState
    decreases st.stack.len(),
{
    if st.stack.len() > n && st.stack.len() > 0 {
        st_pop_to(st_pop_one(st, missing_sep), n, missing_sep)
    } else {
        st
    }
}

pub open spec fn st_push(st: ShuntState, parts: Seq<Lexeme>, held: usize, b: Binding) -> ShuntState {
    ShuntState { stack: st.stack.push((parts, held, b)), have: false, ..st }
}

/// Joins a complete expression and the one that starts at `at`.
pub open spec fn st_juxtapose(st: ShuntState, g: GrammarSpec, at: usize) -> ShuntState {
    if st.have {
        let prec = g.juxtapose_prec;
        let st1 = st_pop_tighter(st, prec, g.reserved.missing_sep);
        st_push(st1, seq![Lexeme { token: g.reserved.juxtapose, span: (at, at) }], 1, Binding::Right { prec, wins_tie: true })
    } else {
        st
    }
}

/// The topmost of the first `i` pending operators that is a group waiting
/// for delimiter `ordinal` of `group`.
pub open spec fn st_find_open(stack: Seq<PendingView>, group: usize, ordinal: usize, i: int) -> Option<int>
    decreases i,
{
    if i <= 0 {
        None
    } else if stack[i - 1].2 matches Binding::Open { group: g, next, .. } && g == group && next == ordinal {
        Some(i - 1)
    } else {
        st_find_open(stack, group, ordinal, i - 1)
    }
}

/// Reads a delimiter other than the first of its group.
pub open spec fn st_delimiter(
    st: ShuntState,
    g: GrammarSpec,
    x: Lexeme,
    group: usize,
    ordinal: usize,
    count: usize,
    right: Option<u32>,
) -> ShuntState {
    let r = g.reserved;
    match st_find_open(st.stack, group, ordinal, st.stack.len() as int) {
        None => st_emit(st, seq![Lexeme { token: r.extra_sep, span: x.span }], 0),
        Some(i) => {
            let st1 = st_pop_to(st_need(st, r.missing_atom, x.span.0), i + 1, r.missing_sep);
            let top = st1.stack.last();
            let st2 = ShuntState { stack: st1.stack.drop_last(), ..st1 };
            let parts = top.0.push(x);
            let held = (top.1 + 1) as usize;
            if ordinal + 1 == count {
                match right {
                    None => ShuntState { have: true, ..st_emit(st2, parts, held) },
                    Some(prec) => st_push(st2, parts, held, Binding::Right { prec, wins_tie: true }),
                }
            } else {
                st_push(st2, parts, held, Binding::Open { group, next: (ordinal + 1) as usize, count, right })
            }
        },
    }
}

/// Reads one lexeme.
pub open spec fn st_step(st0: ShuntState, g: GrammarSpec, x: Lexeme) -> ShuntState {
    let r = g.reserved;
    let at = x.span.0;
    let st = ShuntState { pos: at, ..st0 };
    let st1 = match g.fixity_of(x.token) {
        Fixity::Nilfix => ShuntState { have: true, ..st_emit(st_juxtapose(st, g, at), seq![x], 0) },
        Fixity::Prefix(prec) => st_push(st_juxtapose(st, g, at), seq![x], 0, Binding::Right { prec, wins_tie: true }),
        Fixity::Suffix(prec) => st_emit(st_pop_tighter(st_need(st, r.missing_atom, at), prec, r.missing_sep), seq![x], 1),
        Fixity::InfixL(prec) => st_push(st_pop_tighter(st_need(st, r.missing_atom, at), prec, r.missing_sep), seq![x], 1, Binding::Right { prec, wins_tie: true }),
        Fixity::InfixR(prec) => st_push(st_pop_tighter(st_need(st, r.missing_atom, at), prec, r.missing_sep), seq![x], 1, Binding::Right { prec, wins_tie: false }),
        Fixity::Mixfix { group, ordinal, count, left, right } => if ordinal > 0 {
            st_delimiter(st, g, x, group, ordinal, count, right)
        } else {
            let b = Binding::Open { group, next: 1, count, right };
            match left {
                Some(prec) => st_push(st_pop_tighter(st_need(st, r.missing_atom, at), prec, r.missing_sep), seq![x], 1, b),
                None => st_push(st_juxtapose(st, g, at), seq![x], 0, b),
            }
        },
    };
    ShuntState { pos: x.span.1, ..st1 }
}

/// The state after reading every lexeme of `xs`.
pub open spec fn st_run(g: GrammarSpec, xs: Seq<Lexeme>) -> ShuntState
    decreases xs.len(),
{
    if xs.len() == 0 {
        initial_state()
    } else {
        st_step(st_run(g, xs.drop_last()), g, xs.last())
    }
}

/// The output once the input ends.
pub open spec fn st_finish(st: ShuntState, g: GrammarSpec) -> Seq<NodeView> {
    let r = g.reserved;
    st_pop_to(st_need(st, r.missing_atom, st.pos), 0, r.missing_sep).out
}

/// The postfix output for a whole sequence of lexemes.
pub open spec fn parse_spec(g: GrammarSpec, xs: Seq<Lexeme>) -> Seq<NodeView> {
    st_finish(st_run(g, xs), g)
}

fn single(x: Lexeme) -> (r: Vec<Lexeme>)
    ensures
        r@ == seq![x],
{
    let r = vec![x];
    assert(r@ =~= seq![x]);
    r
}

/// The state of one parse.
#[derive(Debug)]
pub struct Shunter {
    stack: Vec<Pending>,
    out: Vec<Node>,
    have_operand: bool,
    pos: usize,
}

impl Shunter {
    pub closed spec fn state(self) -> ShuntState {
        ShuntState {
            stack: self.stack@.map_values(|p: Pending| pending_view(p)),
            out: self.out@.map_values(|n: Node| node_view(n)),
            have: self.have_operand,
            pos: self.pos,
        }
    }

    pub closed spec fn output(self) -> Seq<Node> {
        self.out@
    }

    pub closed spec fn stack(self) -> Seq<Pending> {
        self.stack@
    }

    /// Whether a complete expression ends the input seen so far.
    pub closed spec fn has_operand(self) -> bool {
        self.have_operand
    }

    /// The offset at which the input seen so far ends.
    pub closed spec fn position(self) -> usize {
        self.pos
    }

    spec fn operand_count(self) -> int {
        if self.have_operand { 1 } else { 0 }
    }

    /// The shunter's invariant: the output is consistent, and it holds at
    /// least as many nodes as the pending operators and the expression being
    /// read take as operands.
    pub closed spec fn wf(self) -> bool {
        &&& consistent(self.out@)
        &&& self.out@.len() >= held_total(self.stack@) + self.operand_count()
        &&& forall|i: int| 0 <= i < self.stack@.len() ==> (#[trigger] self.stack@[i]).parts@.len() >= 1
        &&& forall|i: int| 0 <= i < self.stack@.len() ==> match (#[trigger] self.stack@[i]).binding {
            Binding::Open { next, count, .. } => 1 <= next < count,
            _ => true,
        }
    }

    /// A parse that has seen no input.
    pub fn new() -> (r: Shunter)
        ensures
            r.state() == initial_state(),
            r.wf(),
            r.output() == Seq::<Node>::empty(),
            r.stack().len() == 0,
            !r.has_operand(),
            r.position() == 0,
    {
        let r = Shunter { stack: Vec::new(), out: Vec::new(), have_operand: false, pos: 0 };
        assert(r.state().stack =~= initial_state().stack);
        assert(r.state().out =~= initial_state().out);
        r
    }

    fn emit(&mut self, parts: Vec<Lexeme>, arity: usize)
        requires
            consistent(old(self).out@),
            arity <= old(self).out@.len(),
            parts@.len() >= 1,
        ensures
            final(self).state() == st_emit(old(self).state(), parts@, arity),
            consistent(final(self).out@),
            final(self).out@.len() == old(self).out@.len() + 1,
            final(self).out@.last().parts@ == parts@,
            final(self).out@.last().arity == arity,
            final(self).out@.drop_last() == old(self).out@,
            final(self).stack@ == old(self).stack@,
            final(self).have_operand == old(self).have_operand,
            final(self).pos == old(self).pos,
    {
        let ghost before = self.out@;
        let ghost st = self.state();
        let ghost pv = parts@;
        self.out.push(Node { parts, arity });
        assert(self.out@.drop_last() =~= before);
        assert(self.state().out =~= st_emit(st, pv, arity).out);
        assert forall|i: int| 0 <= i < self.out@.len() implies (#[trigger] self.out@[i]).arity <= i
            && self.out@[i].parts@.len() >= 1 by {
            if i < before.len() {
                assert(self.out@[i] == before[i]);
            }
        }
    }

    fn emit_leaf(&mut self, token: Token, at: usize)
        requires
            consistent(old(self).out@),
        ensures
            final(self).state() == st_leaf(old(self).state(), token, at),
            consistent(final(self).out@),
            final(self).out@.len() == old(self).out@.len() + 1,
            is_leaf_at(final(self).out@.last(), token, at),
            final(self).out@.drop_last() == old(self).out@,
            final(self).stack@ == old(self).stack@,
            final(self).have_operand == old(self).have_operand,
            final(self).pos == old(self).pos,
    {
        let parts = vec![Lexeme { token, span: (at, at) }];
        assert(parts@ =~= seq![Lexeme { token, span: (at, at) }]);
        self.emit(parts, 0);
    }

    /// Supplies a missing operand where one is due.
    fn need_operand(&mut self, missing_atom: Token, at: usize)
        requires
            old(self).wf(),
        ensures
            final(self).state() == st_need(old(self).state(), missing_atom, at),
            final(self).out@.len() >= old(self).out@.len(),
            final(self).wf(),
            final(self).have_operand,
            final(self).stack@ == old(self).stack@,
            final(self).pos == old(self).pos,
            old(self).have_operand ==> final(self).out@ == old(self).out@,
            !old(self).have_operand ==> final(self).out@.drop_last() == old(self).out@
                && is_leaf_at(final(self).out@.last(), missing_atom, at),
    {
        if !self.have_operand {
            self.emit_leaf(missing_atom, at);
            self.have_operand = true;
        }
    }

    /// Emits the topmost pending operator, with the expression just read as
    /// its last operand; an open group is first marked as missing its
    /// delimiter.
    fn pop_one(&mut self, missing_sep: Token)
        requires
            old(self).wf(),
            old(self).have_operand,
            old(self).stack@.len() > 0,
        ensures
            final(self).state() == st_pop_one(old(self).state(), missing_sep),
            final(self).out@.len() >= old(self).out@.len(),
            final(self).wf(),
            final(self).have_operand,
            final(self).stack@ == old(self).stack@.drop_last(),
            final(self).pos == old(self).pos,
    {
        let top = self.stack.pop().unwrap();
        let ghost rest = self.stack@;
        proof {
            assert(self.state().stack =~= old(self).state().stack.drop_last());
            assert(rest == old(self).stack@.drop_last());
            assert(top == old(self).stack@.last());
            lemma_held_total_nonneg(rest);
            assert(held_total(old(self).stack@) == held_total(rest) + top.held);
        }
        let len = self.out.len();
        match top.binding {
            Binding::Open { .. } => {
                let at = self.pos;
                self.emit_leaf(missing_sep, at);
            },
            Binding::Right { .. } => {},
        }
        let arity = top.held + 1;
        self.emit(top.parts, arity);
        proof {
            assert forall|i: int| 0 <= i < self.stack@.len() implies (#[trigger] self.stack@[i]).parts@.len() >= 1 by {
                assert(self.stack@[i] == old(self).stack@[i]);
            }
            assert forall|i: int| 0 <= i < self.stack@.len() implies match (#[trigger] self.stack@[i]).binding {
                Binding::Open { next, count, .. } => 1 <= next < count,
                _ => true,
            } by {
                assert(self.stack@[i] == old(self).stack@[i]);
            }
        }
    }

    /// Whether the topmost pending operator takes the operand it shares with
    /// an incoming operator that binds on its left at `prec`.
    fn top_yields(&self, prec: u32) -> (r: bool)
        ensures
            r == (self.state().stack.len() > 0 && yields_to(self.state().stack.last().2, prec)),
            r == (self.stack@.len() > 0 && yields_to(self.stack@.last().binding, prec)),
    {
        let n = self.stack.len();
        if n == 0 {
            return false;
        }
        match self.stack[n - 1].binding {
            Binding::Right { prec: p, wins_tie } => p < prec || (p == prec && wins_tie),
            Binding::Open { .. } => false,
        }
    }

    /// Emits every pending operator that binds tighter than an incoming one
    /// binding on its left at `prec`.
    fn pop_tighter(&mut self, prec: u32, missing_sep: Token)
        requires
            old(self).wf(),
            old(self).have_operand,
        ensures
            final(self).state() == st_pop_tighter(old(self).state(), prec, missing_sep),
            final(self).out@.len() >= old(self).out@.len(),
            final(self).wf(),
            final(self).have_operand,
            final(self).pos == old(self).pos,
            final(self).stack@.len() <= old(self).stack@.len(),
            final(self).stack@ == old(self).stack@.subrange(0, final(self).stack@.len() as int),
            final(self).stack@.len() > 0 ==> !yields_to(final(self).stack@.last().binding, prec),
    {
        while self.top_yields(prec)
            invariant
                self.wf(),
                self.have_operand,
                self.pos == old(self).pos,
                self.out@.len() >= old(self).out@.len(),
                self.stack@.len() <= old(self).stack@.len(),
                self.stack@ == old(self).stack@.subrange(0, self.stack@.len() as int),
                st_pop_tighter(self.state(), prec, missing_sep) == st_pop_tighter(old(self).state(), prec, missing_sep),
            decreases self.stack@.len(),
        {
            self.pop_one(missing_sep);
            assert(self.stack@ =~= old(self).stack@.subrange(0, self.stack@.len() as int));
        }
    }

    fn push_pending(&mut self, parts: Vec<Lexeme>, held: usize, binding: Binding)
        requires
            old(self).wf(),
            parts@.len() >= 1,
            old(self).out@.len() >= held_total(old(self).stack@) + held,
            match binding {
                Binding::Open { next, count, .. } => 1 <= next < count,
                _ => true,
            },
        ensures
            final(self).state() == st_push(old(self).state(), parts@, held, binding),
            final(self).wf(),
            !final(self).have_operand,
            final(self).out@ == old(self).out@,
            final(self).pos == old(self).pos,
            final(self).stack@.len() == old(self).stack@.len() + 1,
    {
        let ghost before = self.stack@;
        let ghost st = self.state();
        let ghost pv = parts@;
        self.stack.push(Pending { parts, held, binding });
        self.have_operand = false;
        proof {
            assert(self.state().stack =~= st_push(st, pv, held, binding).stack);
            assert(self.stack@.drop_last() =~= before);
            assert(held_total(self.stack@) == held_total(before) + held);
            assert forall|i: int| 0 <= i < self.stack@.len() implies (#[trigger] self.stack@[i]).parts@.len() >= 1 by {
                if i < before.len() {
                    assert(self.stack@[i] == before[i]);
                }
            }
            assert forall|i: int| 0 <= i < self.stack@.len() implies match (#[trigger] self.stack@[i]).binding {
                Binding::Open { next, count, .. } => 1 <= next < count,
                _ => true,
            } by {
                if i < before.len() {
                    assert(self.stack@[i] == before[i]);
                }
            }
        }
    }

    /// Where an expression just ended and another begins with no operator
    /// between them, joins the two with the juxtaposition operator.
    fn juxtapose_if_needed(&mut self, g: &Grammar, at: usize)
        requires
            old(self).wf(),
            g.wf(),
        ensures
            final(self).state() == st_juxtapose(old(self).state(), g@, at),
            final(self).out@.len() >= old(self).out@.len(),
            final(self).wf(),
            !final(self).have_operand,
            final(self).pos == old(self).pos,
            !old(self).have_operand ==> final(self).out@ == old(self).out@ && final(self).stack@
                == old(self).stack@,
    {
        if self.have_operand {
            let r = g.reserved();
            let prec = g.juxtapose_prec();
            self.pop_tighter(prec, r.missing_sep);
            let parts = vec![Lexeme { token: r.juxtapose, span: (at, at) }];
            assert(parts@ =~= seq![Lexeme { token: r.juxtapose, span: (at, at) }]);
            self.push_pending(parts, 1, Binding::Right { prec, wins_tie: true });
        }
    }

    /// The topmost open group waiting for delimiter `ordinal` of `group`.
    fn find_open(&self, group: usize, ordinal: usize) -> (r: Option<usize>)
        ensures
            match r {
                Some(k) => st_find_open(self.state().stack, group, ordinal, self.state().stack.len() as int) == Some(k as int),
                None => st_find_open(self.state().stack, group, ordinal, self.state().stack.len() as int) is None,
            },
            r matches Some(i) ==> i < self.stack@.len() && (self.stack@[i as int].binding matches Binding::Open {
                group: g, next, .. } && g == group && next == ordinal),
    {
        let mut i: usize = self.stack.len();
        while i > 0
            invariant
                i <= self.stack@.len(),
                st_find_open(self.state().stack, group, ordinal, self.state().stack.len() as int)
                    == st_find_open(self.state().stack, group, ordinal, i as int),
            decreases i,
        {
            i = i - 1;
            match self.stack[i].binding {
                Binding::Open { group: g, next, .. } => {
                    if g == group && next == ordinal {
                        assert(self.state().stack[i as int].2 == self.stack@[i as int].binding);
                        return Some(i);
                    }
                },
                Binding::Right { .. } => {},
            }
            assert(self.state().stack[i as int].2 == self.stack@[i as int].binding);
        }
        None
    }

    /// Reads a delimiter other than the first of its group: it continues the
    /// topmost group waiting for it, or stands alone as an extra separator.
    fn delimiter(&mut self, g: &Grammar, x: Lexeme, group: usize, ordinal: usize, count: usize, right: Option<u32>)
        requires
            old(self).wf(),
            g.wf(),
            ordinal < count,
        ensures
            final(self).state() == st_delimiter(old(self).state(), g@, x, group, ordinal, count, right),
            final(self).out@.len() >= old(self).out@.len(),
            final(self).wf(),
            final(self).pos == old(self).pos,
    {
        let r = g.reserved();
        match self.find_open(group, ordinal) {
            None => {
                let parts = vec![Lexeme { token: r.extra_sep, span: x.span }];
                assert(parts@ =~= seq![Lexeme { token: r.extra_sep, span: x.span }]);
                self.emit(parts, 0);
            },
            Some(i) => {
                self.need_operand(r.missing_atom, x.span.0);
                while self.stack.len() > i + 1
                    invariant
                        self.wf(),
                        self.have_operand,
                        i < self.stack@.len(),
                        self.pos == old(self).pos,
                        self.out@.len() >= old(self).out@.len(),
                        st_pop_to(self.state(), i + 1, r.missing_sep) == st_pop_to(st_need(old(self).state(), r.missing_atom, x.span.0), i + 1, r.missing_sep),
                    decreases self.stack@.len(),
                {
                    self.pop_one(r.missing_sep);
                }
                assert(self.state() == st_pop_to(st_need(old(self).state(), r.missing_atom, x.span.0), i + 1, r.missing_sep));
                let ghost full = self.stack@;
                let ghost st1 = self.state();
                let top = self.stack.pop().unwrap();
                let ghost rest = self.stack@;
                proof {
                    assert(self.state().stack =~= st1.stack.drop_last());
                    assert(pending_view(top) == st1.stack.last());
                    lemma_held_total_nonneg(rest);
                    assert(rest == full.drop_last());
                    assert(top == full.last());
                    assert(held_total(full) == held_total(rest) + top.held);
                    assert(top.parts@.len() >= 1);
                }
                let len = self.out.len();
                let mut parts = top.parts;
                parts.push(x);
                assert(parts@ == st1.stack.last().0.push(x));
                assert(self.state() == (ShuntState { stack: st1.stack.drop_last(), ..st1 }));
                let held = top.held + 1;
                proof {
                    assert forall|k: int| 0 <= k < self.stack@.len() implies (#[trigger] self.stack@[k]).parts@.len() >= 1 by {
                        assert(self.stack@[k] == full[k]);
                    }
                    assert forall|k: int| 0 <= k < self.stack@.len() implies match (#[trigger] self.stack@[k]).binding {
                        Binding::Open { next, count, .. } => 1 <= next < count,
                        _ => true,
                    } by {
                        assert(self.stack@[k] == full[k]);
                    }
                }
                if ordinal + 1 == count {
                    match right {
                        None => {
                            self.emit(parts, held);
                            self.have_operand = true;
                        },
                        Some(prec) => {
                            self.push_pending(parts, held, Binding::Right { prec, wins_tie: true });
                        },
                    }
                } else {
                    self.push_pending(parts, held, Binding::Open { group, next: ordinal + 1, count, right });
                }
            },
        }
    }

    /// Reads one lexeme.
    pub fn push(&mut self, g: &Grammar, x: Lexeme)
        requires
            old(self).wf(),
            g.wf(),
        ensures
            final(self).state() == st_step(old(self).state(), g@, x),
            final(self).wf(),
            final(self).position() == x.span.1,
            old(self).output().len() <= final(self).output().len(),
    {
        let r = g.reserved();
        let at = x.span.0;
        self.pos = at;
        let ghost len0 = self.out@.len();
        match g.fixity(x.token) {
            Fixity::Nilfix => {
                self.juxtapose_if_needed(g, at);
                self.emit(single(x), 0);
                self.have_operand = true;
            },
            Fixity::Prefix(prec) => {
                self.juxtapose_if_needed(g, at);
                self.push_pending(single(x), 0, Binding::Right { prec, wins_tie: true });
            },
            Fixity::Suffix(prec) => {
                self.need_operand(r.missing_atom, at);
                self.pop_tighter(prec, r.missing_sep);
                proof {
                    lemma_held_total_nonneg(self.stack@);
                }
                self.emit(single(x), 1);
            },
            Fixity::InfixL(prec) => {
                self.need_operand(r.missing_atom, at);
                self.pop_tighter(prec, r.missing_sep);
                self.push_pending(single(x), 1, Binding::Right { prec, wins_tie: true });
            },
            Fixity::InfixR(prec) => {
                self.need_operand(r.missing_atom, at);
                self.pop_tighter(prec, r.missing_sep);
                self.push_pending(single(x), 1, Binding::Right { prec, wins_tie: false });
            },
            Fixity::Mixfix { group, ordinal, count, left, right } => {
                if ordinal > 0 {
                    self.delimiter(g, x, group, ordinal, count, right);
                } else {
                    let binding = Binding::Open { group, next: 1, count, right };
                    match left {
                        Some(prec) => {
                            self.need_operand(r.missing_atom, at);
                            self.pop_tighter(prec, r.missing_sep);
                            self.push_pending(single(x), 1, binding);
                        },
                        None => {
                            self.juxtapose_if_needed(g, at);
                            self.push_pending(single(x), 0, binding);
                        },
                    }
                }
            },
        }
        self.pos = x.span.1;
    }

    /// Ends the input: supplies a missing last operand, emits every pending
    /// operator, and hands back the whole output.
    pub fn finish(self, g: &Grammar) -> (r: Vec<Node>)
        requires
            self.wf(),
            g.wf(),
        ensures
            r@.map_values(|n: Node| node_view(n)) == st_finish(self.state(), g@),
            consistent(r@),
            r@.len() >= 1,
            r@.len() >= self.output().len(),
            self.stack().len() == 0 && !self.has_operand() ==> r@.drop_last() == self.output()
                && is_leaf_at(r@.last(), g@.reserved.missing_atom, self.position()),
    {
        let mut s = self;
        let r = g.reserved();
        let at = s.pos;
        s.need_operand(r.missing_atom, at);
        while s.stack.len() > 0
            invariant
                s.wf(),
                s.have_operand,
                s.out@.len() >= self.output().len(),
                self.stack().len() == 0 ==> s.stack@.len() == 0,
                st_pop_to(s.state(), 0, r.missing_sep) == st_pop_to(st_need(self.state(), r.missing_atom, at), 0, r.missing_sep),
                self.stack().len() == 0 && !self.has_operand() ==> s.out@.drop_last() == self.output()
                    && is_leaf_at(s.out@.last(), g@.reserved.missing_atom, self.position()),
            decreases s.stack@.len(),
        {
            s.pop_one(r.missing_sep);
        }
        assert(s.state() == st_pop_to(s.state(), 0, r.missing_sep));
        s.out
    }
}

/// Parses a whole sequence of lexemes into postfix order.
pub fn parse(g: &Grammar, lexemes: &Vec<Lexeme>) -> (r: Vec<Node>)
    requires
        g.wf(),
    ensures
        r@.map_values(|n: Node| node_view(n)) == parse_spec(g@, lexemes@),
        consistent(r@),
        r@.len() >= 1,
        lexemes@.len() == 0 ==> r@.len() == 1 && is_leaf_at(r@[0], g@.reserved.missing_atom, 0),
{
    let mut s = Shunter::new();
    let mut i: usize = 0;
    while i < lexemes.len()
        invariant
            s.wf(),
            g.wf(),
            0 <= i <= lexemes@.len(),
            s.state() == st_run(g@, lexemes@.subrange(0, i as int)),
            lexemes@.len() == 0 ==> s.output().len() == 0 && s.stack().len() == 0 && !s.has_operand()
                && s.position() == 0,
        decreases lexemes@.len() - i,
    {
        proof {
            let next = lexemes@.subrange(0, i + 1);
            assert(next.drop_last() =~= lexemes@.subrange(0, i as int));
            assert(next.last() == lexemes@[i as int]);
        }
        s.push(g, lexemes[i]);
        i = i + 1;
    }
    assert(lexemes@.subrange(0, lexemes@.len() as int) =~= lexemes@);
    let r = s.finish(g);
    proof {
        if lexemes@.len() == 0 {
            assert(r@[0] == r@.last());
        }
    }
    r
}

} // verus!
