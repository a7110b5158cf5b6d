//! The verification context: a graph, the rules that run on it, and proving.

use crate::graph::{keeps_classes, Graph};
use crate::heap::trace::Tracer;
use crate::lang::{Id, Node, OpV, Symbolic};
use crate::model::{equation_holds, lemma_tm_lit, t_bool, t_ltr, t_node, Model, Tm};
use crate::rewrite::gather::all_hold;
use crate::rewrite::guards::{class_guards, fold_guard_ids, guard_tm};
use crate::rewrite::instantiate::{table_wf, QuantRecipe};
use crate::rewrite::learned::{
    learned, lemma_learned_asserted, lemma_learned_follows, lemma_learned_trans,
};
use crate::rewrite::memo::Scopes;
use crate::rewrite::pins::{
    all_merged, asserted, lemma_asserted_trans, lemma_extended_asserted, merged, spelled, Pin,
};
use crate::rewrite::prints::Ctor;
use crate::rewrite::rules::{lemma_stepped_trans, stepped, Rule};
use crate::rewrite::run::{
    background, came_to_rest, folded_all, lemma_same_rules_hold, lemma_same_rules_refl,
    lemma_same_rules_trans, ran, rebuilt, rules_hold, rules_wf, run, run_fold, same_rules,
    NODE_LIMIT, ROUND_LIMIT,
};
use crate::rewrite::sound::{follows, lemma_follows_same, lemma_follows_trans};
use crate::terms::{
    built, expr_in, expr_tm, group_grows, lemma_denotes_self, lemma_grows_denotes, lemma_grows_refl,
    lemma_keeps_trans, tied, written, Expr,
};
use crate::vmir::{BinOp, Polarity, Value};
use std::rc::Rc;
use vstd::prelude::*;

verus! {

/// How deep a goal is split into the arms of its choices.
pub const SPLIT_DEPTH: usize = 2;

pub struct Context {
    pub graph: Graph,
    pub rules: Vec<Rule>,
    pub reductions: Vec<Rule>,
    pub ctors: Vec<Ctor>,
    pub table: Rc<Vec<QuantRecipe>>,
    pub scopes: Scopes,
    /// The conditions under which the current block runs.
    pub cube: Vec<(Id, Polarity)>,
    pub has_wildcard: bool,
    pub next_fresh: u32,
    /// Whether the last run changed nothing and nothing was added since.
    pub settled: bool,
    /// Counts of what joins build.
    pub trace: Tracer,
}

/// Every literal of a cube names a class.
pub open spec fn cube_in(g: Graph, cube: Seq<(Id, Polarity)>) -> bool {
    forall|i: int| 0 <= i < cube.len() ==> g.has((#[trigger] cube[i]).0)
}

/// A literal holds in a model.
pub open spec fn lit_holds(m: Model, lit: (Id, Polarity)) -> bool {
    m.is(lit.0, lit.1 == Polarity::Positive)
}

/// Every literal of a cube holds in a model.
pub open spec fn cube_holds(m: Model, cube: Seq<(Id, Polarity)>) -> bool {
    forall|i: int| 0 <= i < cube.len() ==> lit_holds(m, #[trigger] cube[i])
}

impl Context {
    pub open spec fn wf(self) -> bool {
        &&& self.graph.wf()
        &&& rules_wf(self.rules@)
        &&& rules_wf(self.reductions@)
        &&& table_wf(self.table@)
        &&& cube_in(self.graph, self.cube@)
    }

    /// What the rules of the context rest on.
    pub open spec fn background(self) -> spec_fn(Model) -> bool {
        |m: Model|
            rules_hold(self.rules@, self.ctors@, self.table@, m) && rules_hold(
                self.reductions@,
                self.ctors@,
                self.table@,
                m,
            )
    }

    /// `other` is a later state of the context.
    pub open spec fn leads_to(self, other: Context) -> bool {
        &&& other.wf()
        &&& stepped(self.graph, other.graph)
        &&& same_rules(self.rules@, other.rules@)
        &&& same_rules(self.reductions@, other.reductions@)
        &&& other.ctors == self.ctors
        &&& other.table == self.table
        &&& other.cube == self.cube
        &&& self.has_wildcard ==> other.has_wildcard
        &&& self.next_fresh <= other.next_fresh
    }
}

/// All rules were run: round after round, until one changed no class or a limit was met.
pub open spec fn saturated(c: Context, d: Context) -> bool {
    &&& c.leads_to(d)
    &&& d.scopes == c.scopes
    &&& follows(c.graph, d.graph, c.background())
    &&& exists|n: nat| #[trigger]
        ran(c.rules@, d.rules@, c.scopes, c.ctors@, c.table@, c.graph, d.graph, n) && n
            <= ROUND_LIMIT && (d.settled ==> came_to_rest(
            c.rules@,
            d.rules@,
            c.scopes,
            c.ctors@,
            c.table@,
            c.graph,
            d.graph,
            n,
        )) && (!d.settled ==> n == ROUND_LIMIT || d.graph.len() > NODE_LIMIT)
}

/// The terminating reductions were run: round after round, until one changed no class or
/// a limit was met.
pub open spec fn reduced(c: Context, d: Context) -> bool {
    &&& c.leads_to(d)
    &&& d.scopes == c.scopes
    &&& follows(c.graph, d.graph, c.background())
    &&& exists|n: nat| #[trigger]
        ran(c.reductions@, d.reductions@, c.scopes, c.ctors@, c.table@, c.graph, d.graph, n) && n
            <= ROUND_LIMIT && (came_to_rest(
            c.reductions@,
            d.reductions@,
            c.scopes,
            c.ctors@,
            c.table@,
            c.graph,
            d.graph,
            n,
        ) || n == ROUND_LIMIT || d.graph.len() > NODE_LIMIT)
}

/// Congruence was restored and literals were folded.
pub open spec fn refolded(c: Context, d: Context) -> bool {
    &&& c.leads_to(d)
    &&& d.scopes == c.scopes
    &&& follows(c.graph, d.graph, c.background())
    &&& exists|a: Graph, b: Graph|
        #![trigger folded_all(a, b)]
        rebuilt(c.graph, a) && folded_all(a, b) && rebuilt(b, d.graph)
}

/// Terms were added, and nothing else was done to the graph.
pub open spec fn builds(c: Context, d: Context) -> bool {
    &&& c.leads_to(d)
    &&& d.graph.facts() == c.graph.facts()
    &&& keeps_classes(c.graph, d.graph)
}

pub proof fn lemma_builds_refl(c: Context)
    requires
        c.wf(),
    ensures
        builds(c, c),
{
    lemma_leads_refl(c);
}

pub broadcast proof fn lemma_builds_trans(a: Context, b: Context, c: Context)
    requires
        #[trigger] builds(a, b),
        #[trigger] builds(b, c),
    ensures
        builds(a, c),
{
    lemma_leads_trans(a, b, c);
    lemma_keeps_trans(a.graph, b.graph, c.graph);
}

pub proof fn lemma_cube_grows(g: Graph, h: Graph, cube: Seq<(Id, Polarity)>)
    requires
        g.grows_to(h),
        cube_in(g, cube),
    ensures
        cube_in(h, cube),
{
    assert forall|i: int| 0 <= i < cube.len() implies h.has((#[trigger] cube[i]).0) by {
        assert(g.has(cube[i].0));
    }
}

pub proof fn lemma_leads_refl(c: Context)
    requires
        c.wf(),
    ensures
        c.leads_to(c),
{
    lemma_grows_refl(c.graph);
    lemma_same_rules_refl(c.rules@);
    lemma_same_rules_refl(c.reductions@);
}

pub broadcast proof fn lemma_leads_trans(a: Context, b: Context, c: Context)
    requires
        #[trigger] a.leads_to(b),
        #[trigger] b.leads_to(c),
    ensures
        a.leads_to(c),
{
    lemma_stepped_trans(a.graph, b.graph, c.graph);
    lemma_same_rules_trans(a.rules@, b.rules@, c.rules@);
    lemma_same_rules_trans(a.reductions@, b.reductions@, c.reductions@);
}

/// `b` is a later state of `a` that holds the equations `facts`, what follows from
/// them and the background, and nothing else.
pub open spec fn learns(a: Context, b: Context, facts: Seq<(Tm, Tm)>) -> bool {
    a.leads_to(b) && learned(a.graph, b.graph, a.background(), facts)
}

/// What is learned in turn is learned together.
pub proof fn lemma_learns_trans(
    a: Context,
    b: Context,
    c: Context,
    p: Seq<(Tm, Tm)>,
    q: Seq<(Tm, Tm)>,
)
    requires
        learns(a, b, p),
        learns(b, c, q),
    ensures
        learns(a, c, p + q),
{
    lemma_leads_trans(a, b, c);
    lemma_learned_weaken(a, b, b.graph, c.graph, q);
    lemma_learned_trans(a.graph, b.graph, c.graph, a.background(), p, q);
}

/// What follows adds nothing to what is learned.
pub proof fn lemma_learns_follows(a: Context, b: Context, c: Context, p: Seq<(Tm, Tm)>)
    requires
        learns(a, b, p),
        b.leads_to(c),
        follows(b.graph, c.graph, b.background()),
    ensures
        learns(a, c, p),
{
    lemma_learned_follows(b.graph, c.graph, b.background());
    lemma_learns_trans(a, b, c, p, Seq::empty());
    assert(p + Seq::<(Tm, Tm)>::empty() =~= p);
}

/// Building terms adds nothing to what is learned.
pub proof fn lemma_learns_extended(a: Context, b: Context, c: Context, p: Seq<(Tm, Tm)>)
    requires
        learns(a, b, p),
        b.leads_to(c),
        c.graph.facts() == b.graph.facts(),
    ensures
        learns(a, c, p),
{
    crate::rewrite::sound::lemma_follows_same(b.graph, c.graph, b.background());
    lemma_learns_follows(a, b, c, p);
}

pub proof fn lemma_learns_asserted(
    a: Context,
    b: Context,
    c: Context,
    p: Seq<(Tm, Tm)>,
    q: Seq<(Tm, Tm)>,
)
    requires
        learns(a, b, p),
        b.leads_to(c),
        asserted(b.graph, c.graph, q),
    ensures
        learns(a, c, p + q),
{
    lemma_learned_asserted(b.graph, c.graph, b.background(), q);
    lemma_learns_trans(a, b, c, p, q);
}

pub proof fn lemma_learns_refl(a: Context)
    requires
        a.wf(),
    ensures
        learns(a, a, Seq::empty()),
{
    lemma_leads_refl(a);
    crate::rewrite::sound::lemma_follows_same(a.graph, a.graph, a.background());
    lemma_learned_follows(a.graph, a.graph, a.background());
}

/// In every model of a later state, what was learned holds.
pub proof fn lemma_learns_holds(a: Context, b: Context, facts: Seq<(Tm, Tm)>, m: Model)
    requires
        learns(a, b, facts),
        !b.graph.full(),
        b.graph.models(m),
    ensures
        all_hold(m, facts),
        a.graph.models(m),
        !a.graph.full(),
{
    broadcast use group_grows;

}

proof fn lemma_learned_weaken(a: Context, b: Context, g: Graph, h: Graph, facts: Seq<(Tm, Tm)>)
    requires
        a.leads_to(b),
        learned(g, h, b.background(), facts),
    ensures
        learned(g, h, a.background(), facts),
{
    assert forall|m: Model| #[trigger] (a.background())(m) implies (b.background())(m) by {
        lemma_background_same(a, b, m);
    }
}

/// The background does not change as the context goes on.
pub proof fn lemma_background_same(a: Context, b: Context, m: Model)
    requires
        a.leads_to(b),
    ensures
        (a.background())(m) ==> (b.background())(m),
{
    if (a.background())(m) {
        lemma_same_rules_hold(a.rules@, b.rules@, a.ctors@, a.table@, m);
        lemma_same_rules_hold(a.reductions@, b.reductions@, a.ctors@, a.table@, m);
    }
}

impl Context {
    /// A context with an empty graph.
    pub fn new(rules: Vec<Rule>, reductions: Vec<Rule>, ctors: Vec<Ctor>, table: Rc<Vec<QuantRecipe>>) -> (r:
        Context)
        requires
            rules_wf(rules@),
            rules_wf(reductions@),
            table_wf(table@),
        ensures
            r.wf(),
            r.rules == rules,
            r.reductions == reductions,
            r.ctors == ctors,
            r.table == table,
            r.cube@.len() == 0,
            !r.has_wildcard,
            !r.settled,
            r.graph.len() == 0,
            r.graph.facts().len() == 0,
            !r.graph.full(),
    {
        Context {
            graph: Graph::new(),
            rules,
            reductions,
            ctors,
            table,
            scopes: Scopes::new(),
            cube: Vec::new(),
            has_wildcard: false,
            next_fresh: 0,
            settled: false,
            trace: Tracer::new(false),
        }
    }

    /// The class of a term.
    pub fn add(&mut self, n: &Symbolic) -> (r: Id)
        requires
            old(self).wf(),
            old(self).graph.has_all(n@.args),
        ensures
            old(self).leads_to(*final(self)),
            built(old(self).graph, final(self).graph, r, t_node(n@)),
            builds(*old(self), *final(self)),
            !final(self).graph.full() ==> crate::graph::added(
                old(self).graph,
                final(self).graph,
                n@,
                r,
            ),
            final(self).next_fresh == old(self).next_fresh,
    {
        let ghost c0 = *self;
        self.settled = false;
        let r = self.graph.add(n);
        proof {
            lemma_same_rules_refl(self.rules@);
            lemma_same_rules_refl(self.reductions@);
            crate::rewrite::pins::lemma_keeps_coarser(c0.graph, self.graph);
            lemma_cube_grows(c0.graph, self.graph, self.cube@);
        }
        r
    }

    /// Asserts the equation of two terms that `a` and `b` stand for.
    pub(crate) fn equate(&mut self, a: Id, b: Id, Ghost(ta): Ghost<Tm>, Ghost(tb): Ghost<Tm>)
        requires
            old(self).wf(),
            spelled(old(self).graph, a, ta),
            spelled(old(self).graph, b, tb),
        ensures
            old(self).leads_to(*final(self)),
            asserted(old(self).graph, final(self).graph, seq![(ta, tb)]),
            final(self).graph.defs() == old(self).graph.defs(),
            !final(self).graph.full() ==> final(self).graph.canon(a) == final(self).graph.canon(b),
    {
        let ghost c0 = *self;
        self.settled = false;
        let _ = self.graph.state(a, b, Ghost(ta), Ghost(tb));
        proof {
            lemma_same_rules_refl(self.rules@);
            lemma_same_rules_refl(self.reductions@);
            lemma_cube_grows(c0.graph, self.graph, self.cube@);
            let f = (ta, tb);
            assert(c0.graph.facts().push(f) =~= c0.graph.facts() + seq![f]);
            if !self.graph.full() {
                reveal(all_merged);
                crate::rewrite::pins::lemma_spelled_later(c0.graph, self.graph, a, ta);
                crate::rewrite::pins::lemma_spelled_later(c0.graph, self.graph, b, tb);
                assert(spelled(self.graph, a, f.0) && spelled(self.graph, b, f.1));
                assert(merged(self.graph, seq![f][0]));
            }
        }
    }

    /// Asserts that two classes are equal.
    pub fn union(&mut self, a: Id, b: Id)
        requires
            old(self).wf(),
            old(self).graph.has(a),
            old(self).graph.has(b),
        ensures
            old(self).leads_to(*final(self)),
            asserted(
                old(self).graph,
                final(self).graph,
                seq![(Tm::Class(a), Tm::Class(b))],
            ),
            final(self).graph.defs() == old(self).graph.defs(),
            !final(self).graph.full() ==> final(self).graph.canon(a) == final(self).graph.canon(b),
    {
        let ghost c0 = *self;
        self.settled = false;
        let _ = self.graph.union(a, b);
        proof {
            lemma_same_rules_refl(self.rules@);
            lemma_same_rules_refl(self.reductions@);
            lemma_cube_grows(c0.graph, self.graph, self.cube@);
            assert(c0.graph.facts().push((Tm::Class(a), Tm::Class(b))) =~= c0.graph.facts() + seq![
                (Tm::Class(a), Tm::Class(b)),
            ]);
            let f = (Tm::Class(a), Tm::Class(b));
            if !self.graph.full() {
                reveal(all_merged);
                lemma_denotes_self(self.graph, a);
                lemma_denotes_self(self.graph, b);
                assert(spelled(self.graph, a, f.0) && spelled(self.graph, b, f.1));
                assert(merged(self.graph, seq![f][0]));
            }
        }
    }

    /// Runs all rules.
    pub fn saturate(&mut self)
        requires
            old(self).wf(),
        ensures
            saturated(*old(self), *final(self)),
    {
        let ghost c0 = *self;
        let settled = run(
            &mut self.rules,
            &self.scopes,
            &mut self.graph,
            &self.ctors,
            &self.table,
        );
        self.settled = settled;
        proof {
            let (rs, g) = (self.rules@, self.graph);
            let n = choose|n: nat| #[trigger]
                ran(c0.rules@, rs, c0.scopes, c0.ctors@, c0.table@, c0.graph, g, n) && n
                    <= ROUND_LIMIT && (settled ==> came_to_rest(
                    c0.rules@,
                    rs,
                    c0.scopes,
                    c0.ctors@,
                    c0.table@,
                    c0.graph,
                    g,
                    n,
                )) && (!settled ==> n == ROUND_LIMIT || g.len() > NODE_LIMIT);
            assert(ran(c0.rules@, rs, c0.scopes, c0.ctors@, c0.table@, c0.graph, g, n));
            lemma_same_rules_refl(self.reductions@);
            lemma_cube_grows(c0.graph, self.graph, self.cube@);
            let b = background(c0.rules@, c0.ctors@, c0.table@);
            crate::rewrite::rules::lemma_follows_weaken(
                c0.graph,
                self.graph,
                b,
                c0.background(),
            );
        }
    }

    /// Runs the terminating reductions.
    pub fn reduce(&mut self)
        requires
            old(self).wf(),
        ensures
            reduced(*old(self), *final(self)),
    {
        let ghost c0 = *self;
        let _ = run(
            &mut self.reductions,
            &self.scopes,
            &mut self.graph,
            &self.ctors,
            &self.table,
        );
        proof {
            lemma_same_rules_refl(self.rules@);
            lemma_cube_grows(c0.graph, self.graph, self.cube@);
            let b = background(c0.reductions@, c0.ctors@, c0.table@);
            crate::rewrite::rules::lemma_follows_weaken(
                c0.graph,
                self.graph,
                b,
                c0.background(),
            );
        }
    }

    /// Restores congruence and folds literals.
    pub fn rebuild(&mut self)
        requires
            old(self).wf(),
        ensures
            refolded(*old(self), *final(self)),
    {
        let ghost c0 = *self;
        let ghost b = c0.background();
        self.settled = false;
        self.graph.rebuild();
        let ghost g1 = self.graph;
        let _ = run_fold(&mut self.graph, Ghost(b));
        let ghost g2 = self.graph;
        self.graph.rebuild();
        proof {
            lemma_same_rules_refl(self.rules@);
            lemma_same_rules_refl(self.reductions@);
            lemma_follows_same(c0.graph, g1, b);
            lemma_follows_trans(c0.graph, g1, g2, b);
            lemma_follows_same(g2, self.graph, b);
            lemma_stepped_trans(c0.graph, g1, g2);
            lemma_stepped_trans(c0.graph, g2, self.graph);
            lemma_follows_trans(c0.graph, g2, self.graph, b);
            lemma_cube_grows(c0.graph, self.graph, self.cube@);
            assert(rebuilt(c0.graph, g1) && folded_all(g1, g2) && rebuilt(g2, self.graph));
        }
    }

    /// The class of an expression.
    pub fn build(&mut self, e: &Expr) -> (r: Id)
        requires
            old(self).wf(),
            expr_in(*e, old(self).graph),
        ensures
            old(self).leads_to(*final(self)),
            built(old(self).graph, final(self).graph, r, expr_tm(*e)),
            builds(*old(self), *final(self)),
            written(final(self).graph, r, expr_tm(*e)),
            tied(r, expr_tm(*e)),
    {
        let ghost c0 = *self;
        self.settled = false;
        let r = self.graph.build(e);
        proof {
            lemma_same_rules_refl(self.rules@);
            lemma_same_rules_refl(self.reductions@);
            crate::rewrite::pins::lemma_keeps_coarser(c0.graph, self.graph);
            lemma_cube_grows(c0.graph, self.graph, self.cube@);
        }
        r
    }

    /// Whether the last run changed nothing and nothing was added since.
    pub fn is_saturated(&self) -> (r: bool)
        ensures
            r == self.settled,
    {
        self.settled
    }

    /// The conditions under which the current block runs.
    pub fn current_cube(&self) -> (r: &Vec<(Id, Polarity)>)
        ensures
            *r == self.cube,
    {
        &self.cube
    }
}

/// The equations that a cube states.
pub open spec fn cube_facts(cube: Seq<(Id, Polarity)>) -> Seq<(Tm, Tm)> {
    Seq::new(
        cube.len(),
        |i: int| (Tm::Class(cube[i].0), t_bool(cube[i].1 == Polarity::Positive)),
    )
}

pub proof fn lemma_cube_facts(m: Model, cube: Seq<(Id, Polarity)>)
    ensures
        all_hold(m, cube_facts(cube)) == cube_holds(m, cube),
{
    let facts = cube_facts(cube);
    assert forall|i: int| 0 <= i < cube.len() implies equation_holds(m, #[trigger] facts[i])
        == lit_holds(m, cube[i]) by {
        lemma_tm_lit(m, Value::Bool(cube[i].1 == Polarity::Positive));
    }
    if all_hold(m, facts) {
        assert forall|i: int| 0 <= i < cube.len() implies lit_holds(m, #[trigger] cube[i]) by {
            assert(equation_holds(m, facts[i]));
        }
    }
}

/// Asserts the literals of a cube.
pub fn state_cube(g: &mut Graph, cube: &Vec<(Id, Polarity)>)
    requires
        old(g).wf(),
        cube_in(*old(g), cube@),
    ensures
        asserted(*old(g), *final(g), cube_facts(cube@)),
{
    let ghost g0 = *g;
    let ghost all = cube_facts(cube@);
    let mut i: usize = 0;
    proof {
        lemma_grows_refl(g0);
        lemma_extended_asserted(g0, g0);
        assert(all.take(0) =~= Seq::empty());
    }
    while i < cube.len()
        invariant
            i <= cube@.len(),
            cube_in(g0, cube@),
            all == cube_facts(cube@),
            asserted(g0, *g, all.take(i as int)),
        decreases cube.len() - i,
    {
        let ghost before = *g;
        let (id, pol) = cube[i];
        let want = pol == Polarity::Positive;
        proof {
            assert(g0.has(cube@[i as int].0));
        }
        let mut changed: Vec<Id> = Vec::new();
        let lit = g.boolean(want);
        let ghost mid = *g;
        proof {
            lemma_denotes_self(mid, id);
        }
        crate::rewrite::recipe::equate(
            g,
            id,
            lit,
            Ghost(Tm::Class(id)),
            Ghost(t_bool(want)),
            &mut changed,
        );
        proof {
            let none = Seq::<(Tm, Tm)>::empty();
            lemma_extended_asserted(before, mid);
            lemma_asserted_trans(g0, before, mid, all.take(i as int), none);
            assert(all.take(i as int) + none =~= all.take(i as int));
            lemma_asserted_trans(g0, mid, *g, all.take(i as int), seq![all[i as int]]);
            assert(all.take(i + 1) =~= all.take(i as int) + seq![all[i as int]]);
        }
        i += 1;
    }
    proof {
        assert(all.take(cube@.len() as int) =~= all);
    }
}

impl Context {
    /// The class of `guards ==> goal`, the first guard outermost.
    pub fn implication(&mut self, guards: &Vec<(Id, Polarity)>, goal: Id) -> (r: Id)
        requires
            old(self).wf(),
            old(self).graph.has(goal),
            cube_in(old(self).graph, guards@),
        ensures
            old(self).leads_to(*final(self)),
            built(
                old(self).graph,
                final(self).graph,
                r,
                guard_tm(class_guards(guards@), Tm::Class(goal)),
            ),
            builds(*old(self), *final(self)),
            tied(r, guard_tm(class_guards(guards@), Tm::Class(goal))),
    {
        let ghost c0 = *self;
        self.settled = false;
        let r = fold_guard_ids(&mut self.graph, guards, goal);
        proof {
            lemma_same_rules_refl(self.rules@);
            lemma_same_rules_refl(self.reductions@);
            crate::rewrite::pins::lemma_keeps_coarser(c0.graph, self.graph);
            lemma_cube_grows(c0.graph, self.graph, self.cube@);
        }
        r
    }

    /// Asserts `guards ==> fact`.
    pub fn assume_guarded(&mut self, fact: Id, guards: &Vec<(Id, Polarity)>)
        requires
            old(self).wf(),
            old(self).graph.has(fact),
            cube_in(old(self).graph, guards@),
        ensures
            old(self).leads_to(*final(self)),
            asserted(
                old(self).graph,
                final(self).graph,
                seq![(guard_tm(class_guards(guards@), Tm::Class(fact)), t_bool(true))],
            ),
    {
        let ghost c0 = *self;
        let ghost t = guard_tm(class_guards(guards@), Tm::Class(fact));
        let imp = self.implication(guards, fact);
        let ghost c1 = *self;
        let mut changed: Vec<Id> = Vec::new();
        crate::rewrite::recipe::release(&mut self.graph, imp, Ghost(t), &mut changed);
        proof {
            let facts = seq![(t, t_bool(true))];
            lemma_same_rules_refl(self.rules@);
            lemma_same_rules_refl(self.reductions@);
            lemma_cube_grows(c1.graph, self.graph, self.cube@);
            lemma_extended_asserted(c0.graph, c1.graph);
            lemma_asserted_trans(c0.graph, c1.graph, self.graph, Seq::empty(), facts);
            assert(Seq::<(Tm, Tm)>::empty() + facts =~= facts);
            lemma_leads_trans(c0, c1, *self);
        }
    }

    /// Asserts that an expression is true.
    pub fn assume_expr(&mut self, e: &Expr)
        requires
            old(self).wf(),
            expr_in(*e, old(self).graph),
        ensures
            old(self).leads_to(*final(self)),
            asserted(old(self).graph, final(self).graph, seq![(expr_tm(*e), t_bool(true))]),
    {
        let ghost c0 = *self;
        let ghost t = expr_tm(*e);
        let id = self.build(e);
        let ghost c1 = *self;
        let mut changed: Vec<Id> = Vec::new();
        crate::rewrite::recipe::release(&mut self.graph, id, Ghost(t), &mut changed);
        proof {
            let facts = seq![(t, t_bool(true))];
            lemma_same_rules_refl(self.rules@);
            lemma_same_rules_refl(self.reductions@);
            lemma_cube_grows(c1.graph, self.graph, self.cube@);
            lemma_extended_asserted(c0.graph, c1.graph);
            lemma_asserted_trans(c0.graph, c1.graph, self.graph, Seq::empty(), facts);
            assert(Seq::<(Tm, Tm)>::empty() + facts =~= facts);
            lemma_leads_trans(c0, c1, *self);
        }
    }

    /// Asserts that two expressions are equal.
    pub fn assume_equal(&mut self, left: Expr, right: Expr)
        requires
            old(self).wf(),
            expr_in(left, old(self).graph),
            expr_in(right, old(self).graph),
        ensures
            old(self).leads_to(*final(self)),
            asserted(old(self).graph, final(self).graph, seq![(expr_tm(left), expr_tm(right))]),
    {
        let ghost c0 = *self;
        let pin = Pin::new(left, right);
        self.settled = false;
        let _ = crate::rewrite::pins::assert_pin(&mut self.graph, &pin);
        proof {
            lemma_same_rules_refl(self.rules@);
            lemma_same_rules_refl(self.reductions@);
            lemma_cube_grows(c0.graph, self.graph, self.cube@);
        }
    }

    /// Asserts every fact of a list under the guards.
    pub fn assume_all_guarded(&mut self, facts: &Vec<Id>, guards: &Vec<(Id, Polarity)>)
        requires
            old(self).wf(),
            old(self).graph.has_all(facts@),
            cube_in(old(self).graph, guards@),
        ensures
            old(self).leads_to(*final(self)),
            asserted(
                old(self).graph,
                final(self).graph,
                Seq::new(
                    facts@.len(),
                    |i: int|
                        (
                            guard_tm(class_guards(guards@), Tm::Class(facts@[i])),
                            t_bool(true),
                        ),
                ),
            ),
    {
        let ghost c0 = *self;
        let ghost all = Seq::new(
            facts@.len(),
            |i: int| (guard_tm(class_guards(guards@), Tm::Class(facts@[i])), t_bool(true)),
        );
        let mut i: usize = 0;
        proof {
            lemma_leads_refl(c0);
            lemma_grows_refl(c0.graph);
            lemma_extended_asserted(c0.graph, c0.graph);
            assert(all.take(0) =~= Seq::empty());
        }
        while i < facts.len()
            invariant
                i <= facts@.len(),
                c0.wf(),
                self.wf(),
                c0.graph.has_all(facts@),
                cube_in(c0.graph, guards@),
                c0.leads_to(*self),
                all == Seq::new(
                    facts@.len(),
                    |i: int|
                        (
                            guard_tm(class_guards(guards@), Tm::Class(facts@[i])),
                            t_bool(true),
                        ),
                ),
                asserted(c0.graph, self.graph, all.take(i as int)),
            decreases facts.len() - i,
        {
            let ghost c1 = *self;
            proof {
                assert(c0.graph.has(facts@[i as int]));
                lemma_cube_grows(c0.graph, self.graph, guards@);
            }
            self.assume_guarded(facts[i], guards);
            proof {
                lemma_leads_trans(c0, c1, *self);
                lemma_asserted_trans(
                    c0.graph,
                    c1.graph,
                    self.graph,
                    all.take(i as int),
                    seq![all[i as int]],
                );
                assert(all.take(i + 1) =~= all.take(i as int) + seq![all[i as int]]);
            }
            i += 1;
        }
        proof {
            assert(all.take(facts@.len() as int) =~= all);
        }
    }

    /// The class of a symbol that the graph does not list yet. Symbols are 32 bits
    /// wide.
    pub fn fresh(&mut self) -> (r: Id)
        requires
            old(self).wf(),
        ensures
            old(self).leads_to(*final(self)),
            builds(*old(self), *final(self)),
            built(old(self).graph, final(self).graph, r, t_fresh(final(self).next_fresh)),
            exists|n: u32|
                old(self).next_fresh <= n && built(
                    old(self).graph,
                    final(self).graph,
                    r,
                    #[trigger] t_fresh(n),
                ) && (n < u32::MAX ==> !old(self).graph.lists(fresh_node(n))),
            coined(*old(self), *final(self), r),
    {
        let ghost c0 = *self;
        let mut n: u32 = self.next_fresh;
        while n < u32::MAX && self.graph.lookup(&Symbolic::Fresh(n)).is_some()
            invariant
                c0.next_fresh <= n,
                *self == c0,
                c0.wf(),
            decreases u32::MAX - n,
        {
            n += 1;
        }
        proof {
            let node = Symbolic::Fresh(n)@;
            assert(self.graph.canon_term(node).args =~= node.args);
            assert(node == fresh_node(n));
        }
        let ghost absent = n < u32::MAX ==> !c0.graph.lists(fresh_node(n));
        let r = self.add(&Symbolic::Fresh(n));
        self.next_fresh = n;
        proof {
            assert(crate::model::t_classes(fresh_node(n).args) =~= Seq::empty());
            assert(t_node(fresh_node(n)) == t_fresh(n));
            assert(built(c0.graph, self.graph, r, t_fresh(n)));
        }
        r
    }

    /// A fresh share: a symbol assumed positive.
    pub fn fresh_wildcard(&mut self) -> (r: Id)
        requires
            old(self).wf(),
        ensures
            old(self).leads_to(*final(self)),
            final(self).has_wildcard,
            final(self).graph.has(r),
            asserted(
                old(self).graph,
                final(self).graph,
                seq![(t_ltr(crate::model::t_real(0 as real), Tm::Class(r)), t_bool(true))],
            ),
            exists|n: u32|
                final(self).graph.denotes(r, #[trigger] t_fresh(n)) && (n < u32::MAX ==> !old(
                    self,
                ).graph.lists(fresh_node(n))),
            exists|mid: Context, n: u32|
                {
                    &&& #[trigger] builds(*old(self), mid)
                    &&& mid.leads_to(*final(self))
                    &&& old(self).next_fresh <= n
                    &&& mid.graph.denotes(r, #[trigger] t_fresh(n))
                    &&& asserted(
                        mid.graph,
                        final(self).graph,
                        seq![(t_ltr(crate::model::t_real(0 as real), Tm::Class(r)), t_bool(true))],
                    )
                },
    {
        broadcast use {group_grows, lemma_denotes_self};

        let ghost c0 = *self;
        let s = self.fresh();
        let ghost c1 = *self;
        let ghost n = choose|n: u32|
            c0.next_fresh <= n && built(c0.graph, c1.graph, s, #[trigger] t_fresh(n)) && (n
                < u32::MAX ==> !c0.graph.lists(fresh_node(n)));
        let zero = self.graph.zero_real();
        let ghost g2 = self.graph;
        let lt = self.graph.binary_of(
            BinOp::LtR,
            zero,
            s,
            Ghost(crate::model::t_real(0 as real)),
            Ghost(Tm::Class(s)),
        );
        let ghost g3 = self.graph;
        let ghost t = t_ltr(crate::model::t_real(0 as real), Tm::Class(s));
        let mut changed: Vec<Id> = Vec::new();
        crate::rewrite::recipe::release(&mut self.graph, lt, Ghost(t), &mut changed);
        self.has_wildcard = true;
        self.settled = false;
        proof {
            let facts = seq![(t, t_bool(true))];
            lemma_keeps_trans(c0.graph, c1.graph, g2);
            lemma_keeps_trans(c0.graph, g2, g3);
            lemma_extended_asserted(c0.graph, g3);
            lemma_asserted_trans(c0.graph, g3, self.graph, Seq::empty(), facts);
            assert(Seq::<(Tm, Tm)>::empty() + facts =~= facts);
            lemma_same_rules_refl(self.rules@);
            lemma_same_rules_refl(self.reductions@);
            lemma_cube_grows(c0.graph, self.graph, self.cube@);
            lemma_same_rules_trans(c0.rules@, c1.rules@, self.rules@);
            lemma_same_rules_trans(c0.reductions@, c1.reductions@, self.reductions@);
            lemma_grows_denotes(c1.graph, self.graph, s, t_fresh(n));
            lemma_keeps_trans(c1.graph, g2, g3);
            lemma_extended_asserted(c1.graph, g3);
            lemma_asserted_trans(c1.graph, g3, self.graph, Seq::empty(), facts);
            assert(builds(c0, c1));
            assert(c1.graph.denotes(s, t_fresh(n)));
        }
        s
    }
}

/// A symbol that is new: its class is one that was not there, and lists nothing else.
/// Where ids or symbols ran out, nothing is said.
pub open spec fn coined(a: Context, b: Context, r: Id) -> bool {
    b.graph.full() || b.next_fresh == u32::MAX || {
        &&& r == a.graph.len()
        &&& b.graph.len() == a.graph.len() + 1
        &&& b.graph.defs() == a.graph.defs().push(fresh_node(b.next_fresh))
        &&& b.graph.terms(r) == seq![fresh_node(b.next_fresh)]
        &&& !a.graph.lists(fresh_node(b.next_fresh))
    }
}

pub open spec fn fresh_node(n: u32) -> Node {
    Node { op: OpV::Fresh(n), args: Seq::empty() }
}

pub open spec fn t_fresh(n: u32) -> Tm {
    Tm::App(OpV::Fresh(n), Seq::empty())
}

} // verus!
