//! Proving goals under path conditions.

use crate::context::{
    builds, cube_facts, cube_holds, cube_in, lemma_background_same, lemma_builds_trans,
    lemma_cube_facts, lemma_cube_grows, lemma_leads_refl, lemma_leads_trans, lit_holds, saturated,
    state_cube, Context, SPLIT_DEPTH,
};
use crate::graph::{congruent, lemma_canon_value, lemma_same_class, lemma_term_value, Graph};
use crate::lang::{Id, Node, OpV, Symbolic};
use crate::model::{
    equation_holds, lemma_tm_ite, lemma_tm_lit, t_bool, theory, tm_value, Model, Tm,
};
use crate::rewrite::function::defines;
use crate::rewrite::gather::all_hold;
use crate::rewrite::guards::{class_guards, guard_tm};
use crate::rewrite::instantiate::{quantifies, QuantRecipe};
use crate::rewrite::learned::{
    agree, fits, learned, lemma_learned_asserted, lemma_learned_follows, lemma_learned_trans,
};
use crate::rewrite::memo::{Scopes, ScratchScope};
use crate::rewrite::pins::{asserted, lemma_asserted_trans, lemma_extended_asserted, spelled};
use crate::rewrite::prints::Ctor;
use crate::rewrite::rules::{lemma_stepped_trans, stepped, Rule};
use crate::rewrite::run::{background, lemma_ran_congruent, lemma_same_rules_refl, ran, rebuilt, run, NODE_LIMIT, ROUND_LIMIT};
use crate::rewrite::sound::{follows, well_sorted};
use crate::terms::{group_grows, lemma_grows_refl, lemma_known, written};
use crate::vmir::{Literal, Polarity, Value};
use vstd::prelude::*;

verus! {

/// What a rule rests on does not depend on the values of classes.
proof fn lemma_rule_agree(
    r: Rule,
    cs: Seq<Ctor>,
    table: Seq<QuantRecipe>,
    m: Model,
    w: Model,
    n: nat,
)
    requires
        agree(m, w, n),
        r.holds(cs, table, m),
    ensures
        r.holds(cs, table, w),
{
    match r {
        Rule::Instantiate(_) => {
            assert forall|val: spec_fn(Id) -> Value| Model { val, ..w } == (Model { val, ..m }) by {}
            assert(quantifies(table, w));
        },
        Rule::Unfold(_, p) => {
            assert forall|val: spec_fn(Id) -> Value| Model { val, ..w } == (Model { val, ..m }) by {}
            assert(defines(p, w));
        },
        _ => {},
    }
}

proof fn lemma_background_agree(c: Context, m: Model, w: Model, n: nat)
    requires
        agree(m, w, n),
        (c.background())(m),
    ensures
        (c.background())(w),
{
    assert forall|i: int| 0 <= i < c.rules@.len() implies (#[trigger] c.rules@[i]).holds(
        c.ctors@,
        c.table@,
        w,
    ) by {
        assert(c.rules@[i].holds(c.ctors@, c.table@, m));
        lemma_rule_agree(c.rules@[i], c.ctors@, c.table@, m, w, n);
    }
    assert forall|i: int| 0 <= i < c.reductions@.len() implies (#[trigger] c.reductions@[i]).holds(
        c.ctors@,
        c.table@,
        w,
    ) by {
        assert(c.reductions@[i].holds(c.ctors@, c.table@, m));
        lemma_rule_agree(c.reductions@[i], c.ctors@, c.table@, m, w, n);
    }
}

/// A graph in which `true` and `false` are one class.
pub open spec fn inconsistent(g: Graph) -> bool {
    exists|a: Id, b: Id|
        #![trigger g.terms(a), g.terms(b)]
        g.has(a) && g.has(b) && g.canon(a) == g.canon(b) && lists_bool(g, a, true) && lists_bool(
            g,
            b,
            false,
        )
}

pub open spec fn lists_bool(g: Graph, id: Id, v: bool) -> bool {
    exists|k: int|
        0 <= k < g.terms(id).len() && (#[trigger] g.terms(id)[k]).op == OpV::Lit(Value::Bool(v))
}

/// An inconsistent graph has no models.
pub proof fn law_inconsistent(g: Graph, m: Model)
    requires
        g.wf(),
        inconsistent(g),
    ensures
        !g.models(m),
{
    if g.models(m) {
        let (a, b) = choose|a: Id, b: Id|
            #![trigger g.terms(a), g.terms(b)]
            g.has(a) && g.has(b) && g.canon(a) == g.canon(b) && lists_bool(g, a, true)
                && lists_bool(g, b, false);
        let k = choose|k: int|
            0 <= k < g.terms(a).len() && (#[trigger] g.terms(a)[k]).op == OpV::Lit(
                Value::Bool(true),
            );
        let l = choose|l: int|
            0 <= l < g.terms(b).len() && (#[trigger] g.terms(b)[l]).op == OpV::Lit(
                Value::Bool(false),
            );
        lemma_term_value(g, m, a, k);
        lemma_term_value(g, m, b, l);
        lemma_same_class(g, m, a, b);
    }
}

/// Whether `true` and `false` have become one class.
pub fn is_inconsistent(g: &Graph) -> (r: bool)
    requires
        g.wf(),
    ensures
        r ==> inconsistent(*g),
        crate::graph::congruent(*g) ==> r == inconsistent(*g),
{
    let t = g.lookup(&Symbolic::Lit(Literal::Bool(true)));
    let f = g.lookup(&Symbolic::Lit(Literal::Bool(false)));
    let ghost nt = Symbolic::Lit(Literal::Bool(true))@;
    let ghost nf = Symbolic::Lit(Literal::Bool(false))@;
    proof {
        assert(g.canon_term(nt).args =~= nt.args);
        assert(g.canon_term(nf).args =~= nf.args);
        if crate::graph::congruent(*g) && inconsistent(*g) {
            lemma_inconsistent_lookup(*g);
        }
    }
    match (t, f) {
        (Some(a), Some(b)) => {
            proof {
                if a == b {
                    let k = choose|k: int| 0 <= k < g.terms(a).len() && g.terms(a)[k] == nt;
                    let l = choose|l: int| 0 <= l < g.terms(a).len() && g.terms(a)[l] == nf;
                    assert(lists_bool(*g, a, true)) by {
                        assert(g.terms(a)[k].op == OpV::Lit(Value::Bool(true)));
                    }
                    assert(lists_bool(*g, a, false)) by {
                        assert(g.terms(a)[l].op == OpV::Lit(Value::Bool(false)));
                    }
                }
            }
            a == b
        },
        _ => false,
    }
}

/// In a congruent graph a literal is in one class only.
proof fn lemma_inconsistent_lookup(g: Graph)
    requires
        g.wf(),
        crate::graph::congruent(g),
        inconsistent(g),
    ensures
        g.lists(Node { op: OpV::Lit(Value::Bool(true)), args: Seq::empty() }),
        g.lists(Node { op: OpV::Lit(Value::Bool(false)), args: Seq::empty() }),
        forall|a: Id, b: Id|
            #![trigger g.terms(a), g.terms(b)]
            g.has(a) && g.has(b) && g.terms(a).contains(
                Node { op: OpV::Lit(Value::Bool(true)), args: Seq::empty() },
            ) && g.terms(b).contains(Node { op: OpV::Lit(Value::Bool(false)), args: Seq::empty() })
                ==> g.canon(a) == g.canon(b),
{
    let nt = Node { op: OpV::Lit(Value::Bool(true)), args: Seq::empty() };
    let nf = Node { op: OpV::Lit(Value::Bool(false)), args: Seq::empty() };
    let (a, b) = choose|a: Id, b: Id|
        #![trigger g.terms(a), g.terms(b)]
        g.has(a) && g.has(b) && g.canon(a) == g.canon(b) && lists_bool(g, a, true) && lists_bool(
            g,
            b,
            false,
        );
    let k = choose|k: int|
        0 <= k < g.terms(a).len() && (#[trigger] g.terms(a)[k]).op == OpV::Lit(Value::Bool(true));
    let l = choose|l: int|
        0 <= l < g.terms(b).len() && (#[trigger] g.terms(b)[l]).op == OpV::Lit(Value::Bool(false));
    crate::graph::lemma_terms_in(g, a, k);
    crate::graph::lemma_terms_in(g, b, l);
    assert(g.terms(a)[k].args =~= nt.args);
    assert(g.terms(b)[l].args =~= nf.args);
    assert(g.terms(a)[k] == nt);
    assert(g.terms(b)[l] == nf);
    assert(g.terms(a).contains(nt));
    assert(g.terms(b).contains(nf));
    assert forall|c: Id, d: Id|
        #![trigger g.terms(c), g.terms(d)]
        g.has(c) && g.has(d) && g.terms(c).contains(nt) && g.terms(d).contains(nf) implies g.canon(c)
        == g.canon(d) by {
        assert(g.canon(c) == g.canon(a));
        assert(g.canon(d) == g.canon(b));
    }
}

/// Whether some literal of a cube is known to be false.
pub open spec fn refuted(g: Graph, cube: Seq<(Id, Polarity)>) -> bool {
    exists|i: int|
        0 <= i < cube.len() && g.known_truth((#[trigger] cube[i]).0) == Some(
            cube[i].1 != Polarity::Positive,
        )
}

/// Whether some literal of a cube is known to be false.
pub fn is_refuted(g: &Graph, cube: &Vec<(Id, Polarity)>) -> (r: bool)
    requires
        g.wf(),
        cube_in(*g, cube@),
    ensures
        r == refuted(*g, cube@),
{
    let mut i: usize = 0;
    while i < cube.len()
        invariant
            g.wf(),
            cube_in(*g, cube@),
            i <= cube@.len(),
            forall|k: int|
                0 <= k < i ==> g.known_truth((#[trigger] cube@[k]).0) != Some(
                    cube@[k].1 != Polarity::Positive,
                ),
        decreases cube.len() - i,
    {
        proof {
            assert(g.has(cube@[i as int].0));
        }
        let want = cube[i].1 == Polarity::Positive;
        if g.known_bool(cube[i].0) == Some(!want) {
            assert(g.known_truth(cube@[i as int].0) == Some(
                cube@[i as int].1 != Polarity::Positive,
            ));
            return true;
        }
        i += 1;
    }
    false
}

/// A path condition takes a goal for true: one of its literals is the goal.
pub open spec fn told(g: Graph, pc: Seq<(Id, Polarity)>, goal: Id) -> bool {
    exists|i: int|
        0 <= i < pc.len() && pc[i].1 == Polarity::Positive && g.canon((#[trigger] pc[i]).0)
            == g.canon(goal)
}

/// Whether a path condition takes a goal for true.
pub fn is_told(g: &Graph, pc: &Vec<(Id, Polarity)>, goal: Id) -> (r: bool)
    requires
        g.wf(),
        g.has(goal),
        cube_in(*g, pc@),
    ensures
        r == told(*g, pc@, goal),
{
    let mut i: usize = 0;
    let want = g.find(goal);
    while i < pc.len()
        invariant
            g.wf(),
            cube_in(*g, pc@),
            want == g.canon(goal),
            i <= pc@.len(),
            forall|k: int|
                0 <= k < i ==> !(pc@[k].1 == Polarity::Positive && g.canon((#[trigger] pc@[k]).0)
                    == want),
        decreases pc.len() - i,
    {
        proof {
            assert(g.has(pc@[i as int].0));
        }
        if pc[i].1 == Polarity::Positive && g.find(pc[i].0) == want {
            assert(g.canon(pc@[i as int].0) == want);
            return true;
        }
        i += 1;
    }
    false
}

/// A cube with one more literal.
pub fn with_literal(cube: &Vec<(Id, Polarity)>, lit: (Id, Polarity)) -> (r: Vec<(Id, Polarity)>)
    ensures
        r@ == cube@.push(lit),
{
    let mut out = copy_cube(cube);
    out.push(lit);
    out
}

pub fn copy_cube(cube: &Vec<(Id, Polarity)>) -> (r: Vec<(Id, Polarity)>)
    ensures
        r@ == cube@,
{
    let mut out: Vec<(Id, Polarity)> = Vec::new();
    let mut i: usize = 0;
    while i < cube.len()
        invariant
            i <= cube@.len(),
            out@ == cube@.take(i as int),
        decreases cube.len() - i,
    {
        out.push(cube[i]);
        proof {
            assert(cube@.take(i + 1) =~= cube@.take(i as int).push(cube@[i as int]));
        }
        i += 1;
    }
    proof {
        assert(cube@.take(cube@.len() as int) =~= cube@);
    }
    out
}

/// The scopes with a new one-shot scope entered.
pub open spec fn scratch(a: Scopes, b: Scopes) -> bool {
    &&& b.unit == a.unit
    &&& b.next == a.next + 1
    &&& b.stack@ == a.stack@.push((b.next, false))
}

/// The rules were run on a scratch graph, in a scope of its own: for at least one
/// round unless the graph is too large, and for no more than the limit.
pub open spec fn scratch_ran(c: Context, rs: Seq<Rule>, g: Graph, h: Graph) -> bool {
    exists|s: Scopes, n: nat|
        {
            &&& #[trigger] ran(c.rules@, rs, s, c.ctors@, c.table@, g, h, n)
            &&& scratch(c.scopes, s)
            &&& n <= ROUND_LIMIT
            &&& n > 0 || h.len() > NODE_LIMIT
        }
}

/// The rules were run on a scratch graph. The scope was left and its id is used up;
/// nothing else of the context changed but what the rules remember.
pub open spec fn probe_ran(c: Context, d: Context, g: Graph, h: Graph) -> bool {
    &&& scratch_ran(c, d.rules@, g, h)
    &&& d.scopes.unit == c.scopes.unit
    &&& d.scopes.next == c.scopes.next + 1
    &&& d.scopes.stack@ == c.scopes.stack@
    &&& d.reductions == c.reductions
    &&& d.next_fresh == c.next_fresh
    &&& d.has_wildcard == c.has_wildcard
    &&& d.trace == c.trace
}

/// A copy of the graph in which the literals of a path were assumed, congruence was
/// restored and all rules were run. They are not run where no id is left for a scope.
pub open spec fn probe_made(c: Context, pc: Seq<(Id, Polarity)>, p: Graph) -> bool {
    &&& stepped(c.graph, p)
    &&& learned(c.graph, p, c.background(), cube_facts(pc))
    &&& congruent(p)
    &&& exists|q: Graph, r: Graph|
        {
            &&& #[trigger] asserted(c.graph, q, cube_facts(pc))
            &&& #[trigger] rebuilt(q, r)
            &&& if c.scopes.next == u64::MAX {
                p == r
            } else {
                exists|rs: Seq<Rule>| #[trigger] scratch_ran(c, rs, r, p)
            }
        }
}

/// A probe of a path that found room for its terms.
pub open spec fn probed(c: Context, pc: Seq<(Id, Polarity)>, p: Graph) -> bool {
    !p.full() && probe_made(c, pc, p)
}

impl Context {
    /// Runs all rules on a scratch graph. What the rules remember of it is forgotten.
    /// Does nothing where no id is left for a scope.
    pub fn run_probe(&mut self, g: &mut Graph)
        requires
            old(self).wf(),
            old(g).wf(),
        ensures
            old(self).leads_to(*final(self)),
            final(self).graph == old(self).graph,
            final(self).settled == old(self).settled,
            stepped(*old(g), *final(g)),
            follows(*old(g), *final(g), old(self).background()),
            old(self).scopes.next == u64::MAX ==> *final(self) == *old(self) && *final(g) == *old(
                g,
            ),
            old(self).scopes.next < u64::MAX ==> probe_ran(
                *old(self),
                *final(self),
                *old(g),
                *final(g),
            ),
    {
        let ghost c0 = *self;
        proof {
            lemma_leads_refl(c0);
            lemma_grows_refl(*g);
        }
        if self.scopes.next == u64::MAX {
            return;
        }
        let ghost g0 = *g;
        let scope = ScratchScope::enter(&mut self.scopes);
        let ghost entered = self.scopes;
        let _ = run(&mut self.rules, &self.scopes, g, &self.ctors, &self.table);
        scope.leave(&mut self.scopes);
        proof {
            lemma_same_rules_refl(self.reductions@);
            let b = background(c0.rules@, c0.ctors@, c0.table@);
            crate::rewrite::rules::lemma_follows_weaken(g0, *g, b, c0.background());
            let n = choose|n: nat| #[trigger]
                ran(c0.rules@, self.rules@, entered, c0.ctors@, c0.table@, g0, *g, n) && n
                    <= ROUND_LIMIT && (n > 0 || g.len() > NODE_LIMIT);
            assert(entered.stack@.drop_last() =~= c0.scopes.stack@);
            assert(scratch(c0.scopes, entered));
            assert(ran(c0.rules@, self.rules@, entered, c0.ctors@, c0.table@, g0, *g, n));
            assert(scratch_ran(c0, self.rules@, g0, *g));
        }
    }

    /// A copy of the graph in which the literals of a cube were assumed and all rules
    /// were run.
    pub fn probe(&mut self, pc: &Vec<(Id, Polarity)>) -> (p: Graph)
        requires
            old(self).wf(),
            cube_in(old(self).graph, pc@),
        ensures
            old(self).leads_to(*final(self)),
            final(self).graph == old(self).graph,
            final(self).settled == old(self).settled,
            probe_made(*old(self), pc@, p),
    {
        broadcast use group_grows;

        let ghost c0 = *self;
        let ghost b = self.background();
        let ghost g0 = self.graph;
        let mut p = self.graph.copy();
        let ghost p0 = p;
        proof {
            assert(g0.grows_to(p0)) by {
                assert(p0.defs().subrange(0, g0.defs().len() as int) =~= g0.defs());
                assert(p0.facts().subrange(0, g0.facts().len() as int) =~= g0.facts());
            }
            crate::rewrite::pins::lemma_keeps_coarser(g0, p0);
            lemma_cube_grows(g0, p0, pc@);
        }
        state_cube(&mut p, pc);
        let ghost p1 = p;
        proof {
            lemma_extended_asserted(g0, p0);
            lemma_asserted_trans(g0, p0, p1, Seq::empty(), cube_facts(pc@));
            assert(Seq::<(Tm, Tm)>::empty() + cube_facts(pc@) =~= cube_facts(pc@));
        }
        p.rebuild();
        let ghost p2 = p;
        self.run_probe(&mut p);
        proof {
            lemma_learned_asserted(p0, p1, b, cube_facts(pc@));
            assert(learned(g0, p1, b, cube_facts(pc@)));
            crate::rewrite::sound::lemma_follows_same(p1, p2, b);
            crate::rewrite::sound::lemma_follows_trans(p1, p2, p, b);
            lemma_learned_follows(p1, p, b);
            lemma_learned_trans(g0, p1, p, b, cube_facts(pc@), Seq::empty());
            assert(cube_facts(pc@) + Seq::<(Tm, Tm)>::empty() =~= cube_facts(pc@));
            lemma_stepped_trans(g0, p0, p1);
            lemma_stepped_trans(g0, p1, p2);
            lemma_stepped_trans(g0, p2, p);
            lemma_probe_made(c0, *self, pc@, p1, p2, p);
        }
        p
    }
}

pub proof fn lemma_probe_made(
    c: Context,
    d: Context,
    pc: Seq<(Id, Polarity)>,
    q: Graph,
    r: Graph,
    p: Graph,
)
    requires
        asserted(c.graph, q, cube_facts(pc)),
        rebuilt(q, r),
        stepped(c.graph, p),
        learned(c.graph, p, c.background(), cube_facts(pc)),
        c.scopes.next == u64::MAX ==> p == r,
        c.scopes.next < u64::MAX ==> probe_ran(c, d, r, p),
    ensures
        probe_made(c, pc, p),
{
    if c.scopes.next < u64::MAX {
        assert(scratch_ran(c, d.rules@, r, p));
        let (s, n) = choose|s: Scopes, n: nat|
            {
                &&& #[trigger] ran(c.rules@, d.rules@, s, c.ctors@, c.table@, r, p, n)
                &&& scratch(c.scopes, s)
                &&& n <= ROUND_LIMIT
                &&& n > 0 || p.len() > NODE_LIMIT
            };
        lemma_ran_congruent(c.rules@, d.rules@, s, c.ctors@, c.table@, r, p, n);
    }
}

/// A model of a graph on the path, in which the terms of a probe have values, agrees
/// with a model of the probe.
pub proof fn lemma_probe_model(c: Context, p: Graph, pc: Seq<(Id, Polarity)>, m: Model) -> (w:
    Model)
    requires
        c.wf(),
        cube_in(c.graph, pc),
        learned(c.graph, p, c.background(), cube_facts(pc)),
        !p.full(),
        (c.background())(m),
        fits(c.graph, m, p.defs()),
        cube_holds(m, pc),
    ensures
        p.models(w),
        agree(m, w, c.graph.len()),
{
    let g = c.graph;
    let w = choose|w: Model| #[trigger]
        agree(m, w, g.len()) && theory(p.defs(), g.facts(), w) && well_sorted(p.defs(), w);
    lemma_background_agree(c, m, w, g.len());
    assert(cube_holds(w, pc)) by {
        assert forall|i: int| 0 <= i < pc.len() implies lit_holds(w, #[trigger] pc[i]) by {
            assert(lit_holds(m, pc[i]));
            assert(g.has(pc[i].0));
            assert(w.at(pc[i].0) == m.at(pc[i].0));
        }
    }
    lemma_cube_facts(w, pc);
    w
}

pub proof fn lemma_cube_push_holds(m: Model, cube: Seq<(Id, Polarity)>, lit: (Id, Polarity))
    ensures
        cube_holds(m, cube.push(lit)) == (cube_holds(m, cube) && lit_holds(m, lit)),
{
    let more = cube.push(lit);
    if cube_holds(m, more) {
        assert forall|i: int| 0 <= i < cube.len() implies lit_holds(m, #[trigger] cube[i]) by {
            assert(lit_holds(m, more[i]));
        }
        assert(lit_holds(m, more[cube.len() as int]));
    }
    if cube_holds(m, cube) && lit_holds(m, lit) {
        assert forall|i: int| 0 <= i < more.len() implies lit_holds(m, #[trigger] more[i]) by {
            if i < cube.len() {
                assert(lit_holds(m, cube[i]));
            }
        }
    }
}

pub proof fn lemma_cube_push_in(g: Graph, cube: Seq<(Id, Polarity)>, lit: (Id, Polarity))
    requires
        cube_in(g, cube),
        g.has(lit.0),
    ensures
        cube_in(g, cube.push(lit)),
{
    assert forall|i: int| 0 <= i < cube.push(lit).len() implies g.has(
        (#[trigger] cube.push(lit)[i]).0,
    ) by {
        if i < cube.len() {
            assert(g.has(cube[i].0));
        }
    }
}

/// A goal that needs no proof: it is known, or the path condition takes it for true, or
/// is refuted.
pub open spec fn settled(g: Graph, pc: Seq<(Id, Polarity)>, goal: Id) -> bool {
    !g.full() && (g.known_truth(goal) == Some(true) || refuted(g, pc) || told(
        g,
        pc,
        goal,
    ))
}

/// The arm of a choice that a goal comes down to where the other arm is known to be true,
/// and the literal under which it does: `c ? true : e` comes down to `e` where `c` does
/// not hold.
pub open spec fn last_arm(g: Graph, n: Node) -> Option<(Id, (Id, Polarity))> {
    if n.op == OpV::Ite && n.args.len() == 3 {
        if g.known_truth(n.args[1]) == Some(true) {
            Some((n.args[2], (n.args[0], Polarity::Negative)))
        } else if g.known_truth(n.args[2]) == Some(true) {
            Some((n.args[1], (n.args[0], Polarity::Positive)))
        } else {
            None
        }
    } else {
        None
    }
}

/// A later state of a context with the same graph.
pub open spec fn beside(c: Context, d: Context) -> bool {
    c.leads_to(d) && d.graph == c.graph
}

/// A goal can be shown on the graph as it is: it needs no proof, or the graph is
/// inconsistent, or a probe of the path knows it or is inconsistent, or it comes down to
/// one arm of a choice that can be shown.
pub open spec fn decided(c: Context, pc: Seq<(Id, Polarity)>, goal: Id, depth: nat) -> bool
    decreases depth,
{
    ||| settled(c.graph, pc, goal)
    ||| inconsistent(c.graph)
    ||| pc.len() > 0 && exists|p: Graph| #[trigger]
        probed(c, pc, p) && (p.known_truth(goal) == Some(true) || inconsistent(p))
    ||| depth > 0 && exists|k: int, d: Context|
        {
            &&& 0 <= k < c.graph.terms(goal).len()
            &&& #[trigger] beside(c, d)
            &&& last_arm(c.graph, #[trigger] c.graph.terms(goal)[k]) matches Some(arm) && decided(
                d,
                pc.push(arm.1),
                arm.0,
                (depth - 1) as nat,
            )
        }
}

/// A goal cannot be shown on the graph as it is: it is not known there, nor in a probe of
/// the path, which is not inconsistent either; and it comes down to no arm of a choice
/// that can be shown.
pub open spec fn undecided(c: Context, pc: Seq<(Id, Polarity)>, goal: Id, depth: nat) -> bool
    decreases depth,
{
    c.graph.full() || {
        &&& !settled(c.graph, pc, goal)
        &&& congruent(c.graph) ==> !inconsistent(c.graph)
        &&& pc.len() > 0 ==> exists|p: Graph| #[trigger]
            probe_made(c, pc, p) && (p.full() || (p.known_truth(goal) != Some(true)
                && !inconsistent(p)))
        &&& depth > 0 ==> forall|k: int|
            0 <= k < c.graph.terms(goal).len() ==> (last_arm(
                c.graph,
                #[trigger] c.graph.terms(goal)[k],
            ) matches Some(arm) ==> exists|d: Context| #[trigger]
                beside(c, d) && undecided(d, pc.push(arm.1), arm.0, (depth - 1) as nat))
    }
}

/// The terms that probes of a graph build have values that fit a model.
pub open spec fn probes_fit(c: Context, m: Model) -> bool {
    forall|d: Context, pc: Seq<(Id, Polarity)>, p: Graph|
        beside(c, d) && #[trigger] probed(d, pc, p) ==> fits(c.graph, m, p.defs())
}

/// What is decided holds: in every model of the graph and of what the rules rest on, in
/// which the terms of the probes have values, a goal that is decided is true wherever the
/// path condition holds.
pub proof fn law_decided(c: Context, pc: Seq<(Id, Polarity)>, goal: Id, depth: nat, m: Model)
    requires
        c.wf(),
        c.graph.has(goal),
        cube_in(c.graph, pc),
        decided(c, pc, goal, depth),
        c.graph.models(m),
        (c.background())(m),
        probes_fit(c, m),
        cube_holds(m, pc),
    ensures
        m.is(goal, true),
    decreases depth,
{
    let g = c.graph;
    if settled(g, pc, goal) {
        lemma_settled_holds(g, pc, goal, m);
    } else if inconsistent(g) {
        law_inconsistent(g, m);
    } else if pc.len() > 0 && exists|p: Graph| #[trigger]
        probed(c, pc, p) && (p.known_truth(goal) == Some(true) || inconsistent(p)) {
        let p = choose|p: Graph| #[trigger]
            probed(c, pc, p) && (p.known_truth(goal) == Some(true) || inconsistent(p));
        lemma_leads_refl(c);
        assert(beside(c, c));
        assert(fits(g, m, p.defs()));
        let w = lemma_probe_model(c, p, pc, m);
        if inconsistent(p) {
            law_inconsistent(p, w);
        } else {
            lemma_known(p, w, goal);
        }
        assert(w.at(goal) == m.at(goal));
    } else {
        let (k, d) = choose|k: int, d: Context|
            {
                &&& 0 <= k < c.graph.terms(goal).len()
                &&& #[trigger] beside(c, d)
                &&& last_arm(c.graph, #[trigger] c.graph.terms(goal)[k]) matches Some(arm)
                    && decided(d, pc.push(arm.1), arm.0, (depth - 1) as nat)
            };
        let n = g.terms(goal)[k];
        let arm = last_arm(g, n).unwrap();
        crate::graph::lemma_terms_in(g, goal, k);
        assert(g.has(n.args[0]) && g.has(n.args[1]) && g.has(n.args[2]));
        lemma_cube_push_in(g, pc, arm.1);
        lemma_term_value(g, m, goal, k);
        assert(m.all(n.args)[0] == m.at(n.args[0]));
        assert(m.all(n.args)[1] == m.at(n.args[1]));
        assert(m.all(n.args)[2] == m.at(n.args[2]));
        lemma_background_same(c, d, m);
        assert(probes_fit(d, m)) by {
            assert forall|e: Context, qc: Seq<(Id, Polarity)>, p: Graph|
                beside(d, e) && #[trigger] probed(e, qc, p) implies fits(d.graph, m, p.defs()) by {
                lemma_leads_trans(c, d, e);
                assert(beside(c, e));
            }
        }
        lemma_cube_push_holds(m, pc, arm.1);
        if g.known_truth(n.args[1]) == Some(true) {
            lemma_known(g, m, n.args[1]);
        } else {
            lemma_known(g, m, n.args[2]);
        }
        if lit_holds(m, arm.1) {
            law_decided(d, pc.push(arm.1), arm.0, (depth - 1) as nat, m);
        }
    }
}

proof fn lemma_settled_holds(g: Graph, pc: Seq<(Id, Polarity)>, goal: Id, m: Model)
    requires
        g.wf(),
        g.has(goal),
        cube_in(g, pc),
        settled(g, pc, goal),
        g.models(m),
        cube_holds(m, pc),
    ensures
        m.is(goal, true),
{
    if g.known_truth(goal) == Some(true) {
        lemma_known(g, m, goal);
    } else if told(g, pc, goal) {
        let i = choose|i: int|
            0 <= i < pc.len() && pc[i].1 == Polarity::Positive && g.canon((#[trigger] pc[i]).0)
                == g.canon(goal);
        assert(g.has(pc[i].0));
        lemma_canon_value(g, m, pc[i].0);
        lemma_canon_value(g, m, goal);
        assert(lit_holds(m, pc[i]));
    } else {
        let i = choose|i: int|
            0 <= i < pc.len() && g.known_truth((#[trigger] pc[i]).0) == Some(
                pc[i].1 != Polarity::Positive,
            );
        assert(g.has(pc[i].0));
        lemma_known(g, m, pc[i].0);
        assert(lit_holds(m, pc[i]));
    }
}

impl Context {
    /// Whether a goal can be shown on the graph as it is: it is known, or the path
    /// condition is impossible, or a scratch copy that assumes the path condition
    /// shows it, or it is a choice with one arm known to be true and the other can be
    /// shown.
    #[verifier::rlimit(30)]
    pub fn decide(&mut self, goal: Id, pc: &Vec<(Id, Polarity)>, depth: usize) -> (r: bool)
        requires
            old(self).wf(),
            old(self).graph.has(goal),
            cube_in(old(self).graph, pc@),
        ensures
            beside(*old(self), *final(self)),
            final(self).settled == old(self).settled,
            r ==> !old(self).graph.full() && decided(*old(self), pc@, goal, depth as nat),
            !r ==> undecided(*old(self), pc@, goal, depth as nat),
        decreases depth,
    {
        let ghost c0 = *self;
        let ghost g = c0.graph;
        proof {
            lemma_leads_refl(c0);
        }
        if self.graph.is_full() {
            return false;
        }
        if self.graph.known_bool(goal) == Some(true) || is_refuted(&self.graph, pc)
            || is_told(&self.graph, pc, goal) || is_inconsistent(&self.graph) {
            return true;
        }
        let ghost mut seen = g;
        if pc.len() > 0 {
            let p = self.probe(pc);
            proof {
                seen = p;
            }
            if !p.is_full() && (p.known_bool(goal) == Some(true) || is_inconsistent(&p)) {
                proof {
                    assert(probed(c0, pc@, p));
                }
                return true;
            }
        }
        proof {
            if pc@.len() > 0 {
                assert(probe_made(c0, pc@, seen) && (seen.full() || (seen.known_truth(goal)
                    != Some(true) && !inconsistent(seen))));
            }
        }
        if depth > 0 {
            let ts = self.graph.terms_of(goal);
            let mut i: usize = 0;
            while i < ts.len()
                invariant
                    i <= ts@.len(),
                    depth > 0,
                    c0.wf(),
                    g == c0.graph,
                    g.has(goal),
                    !g.full(),
                    cube_in(g, pc@),
                    beside(c0, *self),
                    self.settled == c0.settled,
                    c0 == *old(self),
                    ts@.len() == g.terms(goal).len(),
                    forall|k: int| 0 <= k < ts@.len() ==> (#[trigger] ts@[k])@ == g.terms(goal)[k],
                    forall|k: int| 0 <= k < ts@.len() ==> g.has_all((#[trigger] ts@[k])@.args),
                    forall|k: int|
                        0 <= k < i ==> (last_arm(g, #[trigger] g.terms(goal)[k]) matches Some(arm)
                            ==> exists|d: Context| #[trigger]
                            beside(c0, d) && undecided(
                                d,
                                pc@.push(arm.1),
                                arm.0,
                                (depth - 1) as nat,
                            )),
                decreases ts.len() - i,
            {
                let ghost n = g.terms(goal)[i as int];
                proof {
                    assert(ts@[i as int]@ == n);
                    assert(g.has_all(ts@[i as int]@.args));
                }
                if let Symbolic::Ite(ids) = &ts[i] {
                    let c: Id = ids[0];
                    let t: Id = ids[1];
                    let e: Id = ids[2];
                    proof {
                        assert(n.args[0] == c && n.args[1] == t && n.args[2] == e);
                        assert(g.has(n.args[0]));
                        assert(g.has(n.args[1]));
                        assert(g.has(n.args[2]));
                        lemma_cube_push_in(g, pc@, (c, Polarity::Positive));
                        lemma_cube_push_in(g, pc@, (c, Polarity::Negative));
                    }
                    let yes = self.graph.known_bool(t) == Some(true);
                    let no = self.graph.known_bool(e) == Some(true);
                    if yes || no {
                        let arm: Id = if yes {
                            e
                        } else {
                            t
                        };
                        let lit: (Id, Polarity) = (c, if yes {
                            Polarity::Negative
                        } else {
                            Polarity::Positive
                        });
                        let more = with_literal(pc, lit);
                        let ghost c1 = *self;
                        let r = self.decide(arm, &more, depth - 1);
                        proof {
                            lemma_leads_trans(c0, c1, *self);
                            assert(last_arm(g, n) == Some((arm, lit)));
                            assert(beside(c0, c1));
                        }
                        if r {
                            proof {
                                assert(decided(c1, pc@.push(lit), arm, (depth - 1) as nat));
                                assert(last_arm(g, g.terms(goal)[i as int]) is Some);
                            }
                            return true;
                        }
                    }
                }
                i += 1;
            }
        }
        false
    }
}

/// Every literal of a cube is over a boolean.
pub open spec fn cube_bools(m: Model, cube: Seq<(Id, Polarity)>) -> bool {
    forall|i: int| 0 <= i < cube.len() ==> m.at((#[trigger] cube[i]).0) is Bool
}

proof fn lemma_cube_first(m: Model, cube: Seq<(Id, Polarity)>)
    requires
        cube.len() > 0,
    ensures
        cube_holds(m, cube) == (lit_holds(m, cube[0]) && cube_holds(m, cube.drop_first())),
        cube_bools(m, cube) == (m.at(cube[0].0) is Bool && cube_bools(m, cube.drop_first())),
{
    let rest = cube.drop_first();
    if cube_holds(m, cube) {
        assert forall|i: int| 0 <= i < rest.len() implies lit_holds(m, #[trigger] rest[i]) by {
            assert(lit_holds(m, cube[i + 1]));
        }
    }
    if lit_holds(m, cube[0]) && cube_holds(m, rest) {
        assert forall|i: int| 0 <= i < cube.len() implies lit_holds(m, #[trigger] cube[i]) by {
            if i > 0 {
                assert(lit_holds(m, rest[i - 1]));
            }
        }
    }
    if cube_bools(m, cube) {
        assert forall|i: int| 0 <= i < rest.len() implies m.at((#[trigger] rest[i]).0) is Bool by {
            assert(m.at(cube[i + 1].0) is Bool);
        }
    }
    if m.at(cube[0].0) is Bool && cube_bools(m, rest) {
        assert forall|i: int| 0 <= i < cube.len() implies m.at((#[trigger] cube[i]).0) is Bool by {
            if i > 0 {
                assert(m.at(rest[i - 1].0) is Bool);
            }
        }
    }
}

/// A guarded term has the term's value where the guards hold, and is true elsewhere.
pub proof fn law_guard_value(m: Model, cube: Seq<(Id, Polarity)>, t: Tm)
    ensures
        tm_value(m, guard_tm(class_guards(cube), t)) == (if cube_bools(m, cube) && tm_value(m, t) is Some {
            if cube_holds(m, cube) {
                tm_value(m, t)
            } else {
                Some(Value::Bool(true))
            }
        } else {
            None
        }),
    decreases cube.len(),
{
    if cube.len() > 0 {
        let rest = cube.drop_first();
        law_guard_value(m, rest, t);
        lemma_cube_first(m, cube);
        let gs = class_guards(cube);
        assert(gs.drop_first() =~= class_guards(rest));
        let inner = guard_tm(class_guards(rest), t);
        lemma_tm_lit(m, Value::Bool(true));
        lemma_tm_ite(m, gs[0].0, inner, t_bool(true));
        lemma_tm_ite(m, gs[0].0, t_bool(true), inner);
        assert(tm_value(m, gs[0].0) == Some(m.at(cube[0].0)));
    }
}

/// A goal was not shown: it needed a proof, all rules were run, and the graph that came of
/// it cannot decide the goal; or no ids were left.
pub open spec fn left_open(c: Context, d: Context, pc: Seq<(Id, Polarity)>, goal: Id) -> bool {
    d.graph.full() || (!settled(c.graph, pc, goal) && exists|mid: Context| #[trigger]
        saturated(c, mid) && mid.graph == d.graph && undecided(mid, pc, goal, SPLIT_DEPTH as nat))
}

/// A goal was shown: it needs no proof; or all rules were run, and the graph that came of
/// it decides the goal.
pub open spec fn shown(c: Context, pc: Seq<(Id, Polarity)>, goal: Id) -> bool {
    settled(c.graph, pc, goal) || exists|mid: Context| #[trigger]
        saturated(c, mid) && !mid.graph.full() && decided(mid, pc, goal, SPLIT_DEPTH as nat)
}

/// The terms that a run of the rules builds, and those of the probes after it, have values
/// that fit a model.
pub open spec fn runs_fit(c: Context, m: Model) -> bool {
    forall|d: Context|
        #![trigger saturated(c, d)]
        saturated(c, d) && !d.graph.full() ==> exists|w: Model|
            {
                &&& #[trigger] agree(m, w, c.graph.len())
                &&& theory(d.graph.defs(), c.graph.facts(), w)
                &&& well_sorted(d.graph.defs(), w)
                &&& probes_fit(d, w)
            }
}

/// What is shown holds: in every model of the graph and of what the rules rest on, in
/// which the terms that the rules build have values, a goal that was shown is true
/// wherever the path condition holds. The goal itself need not have been assumed.
pub proof fn law_shown(c: Context, pc: Seq<(Id, Polarity)>, goal: Id, m: Model)
    requires
        c.wf(),
        c.graph.has(goal),
        cube_in(c.graph, pc),
        shown(c, pc, goal),
        c.graph.models(m),
        (c.background())(m),
        runs_fit(c, m),
        cube_holds(m, pc),
    ensures
        m.is(goal, true),
{
    broadcast use group_grows;

    if settled(c.graph, pc, goal) {
        lemma_settled_holds(c.graph, pc, goal, m);
    } else {
        let d = choose|mid: Context| #[trigger]
            saturated(c, mid) && !mid.graph.full() && decided(mid, pc, goal, SPLIT_DEPTH as nat);
        let w = choose|w: Model|
            {
                &&& #[trigger] agree(m, w, c.graph.len())
                &&& theory(d.graph.defs(), c.graph.facts(), w)
                &&& well_sorted(d.graph.defs(), w)
                &&& probes_fit(d, w)
            };
        lemma_background_agree(c, m, w, c.graph.len());
        lemma_background_same(c, d, w);
        lemma_cube_grows(c.graph, d.graph, pc);
        assert(cube_holds(w, pc)) by {
            assert forall|i: int| 0 <= i < pc.len() implies lit_holds(w, #[trigger] pc[i]) by {
                assert(lit_holds(m, pc[i]));
                assert(c.graph.has(pc[i].0));
                assert(w.at(pc[i].0) == m.at(pc[i].0));
            }
        }
        law_decided(d, pc, goal, SPLIT_DEPTH as nat, w);
        assert(w.at(goal) == m.at(goal));
    }
}

/// A goal that means a term was put up and shown.
pub open spec fn shown_tm(c: Context, pc: Seq<(Id, Polarity)>, t: Tm) -> bool {
    exists|mid: Context, goal: Id| #[trigger]
        shown(mid, pc, goal) && builds(c, mid) && spelled(mid.graph, goal, t) && written(
            mid.graph,
            goal,
            t,
        )
}

pub proof fn lemma_shown_earlier(a: Context, b: Context, pc: Seq<(Id, Polarity)>, t: Tm)
    requires
        builds(a, b),
        shown_tm(b, pc, t),
    ensures
        shown_tm(a, pc, t),
{
    let (mid, goal) = choose|mid: Context, goal: Id| #[trigger]
        shown(mid, pc, goal) && builds(b, mid) && spelled(mid.graph, goal, t) && written(
            mid.graph,
            goal,
            t,
        );
    lemma_builds_trans(a, b, mid);
    assert(shown(mid, pc, goal));
}

/// A goal that means a term was put up and not shown.
pub open spec fn unshown(c: Context, d: Context, pc: Seq<(Id, Polarity)>, t: Tm) -> bool {
    exists|mid: Context, goal: Id| #[trigger]
        left_open(mid, d, pc, goal) && builds(c, mid) && spelled(mid.graph, goal, t) && written(
            mid.graph,
            goal,
            t,
        )
}

pub proof fn lemma_unshown_earlier(
    a: Context,
    b: Context,
    d: Context,
    pc: Seq<(Id, Polarity)>,
    t: Tm,
)
    requires
        builds(a, b),
        unshown(b, d, pc, t),
    ensures
        unshown(a, d, pc, t),
{
    let (mid, goal) = choose|mid: Context, goal: Id| #[trigger]
        left_open(mid, d, pc, goal) && builds(b, mid) && spelled(mid.graph, goal, t) && written(
            mid.graph,
            goal,
            t,
        );
    lemma_builds_trans(a, b, mid);
    assert(left_open(mid, d, pc, goal));
}

/// That a goal holds on a path.
pub open spec fn goal_fact(pc: Seq<(Id, Polarity)>, goal: Id) -> (Tm, Tm) {
    (guard_tm(class_guards(pc), Tm::Class(goal)), t_bool(true))
}

/// The graph as it is, or after all rules were run.
pub open spec fn run_to(c: Context, g: Graph) -> bool {
    g == c.graph || exists|d: Context| #[trigger] saturated(c, d) && d.graph == g
}

/// A goal was tried: where it was shown, it is kept as the implication; where it was not,
/// at most the rules were run.
pub open spec fn tried(
    c: Context,
    d: Context,
    pc: Seq<(Id, Polarity)>,
    goal: Id,
    r: bool,
) -> bool {
    &&& c.leads_to(d)
    &&& r ==> shown(c, pc, goal)
    &&& !r ==> left_open(c, d, pc, goal)
    &&& exists|mid: Graph| #[trigger]
        run_to(c, mid) && if r {
            asserted(mid, d.graph, seq![goal_fact(pc, goal)])
        } else {
            d.graph == mid || d.graph.full()
        }
}

impl Context {
    /// Proves a goal under a path condition. A proof is kept as the implication.
    pub fn prove_under_pc(&mut self, goal: Id, pc: &Vec<(Id, Polarity)>) -> (r: bool)
        requires
            old(self).wf(),
            old(self).graph.has(goal),
            cube_in(old(self).graph, pc@),
        ensures
            old(self).leads_to(*final(self)),
            r ==> !final(self).graph.full(),
            tried(*old(self), *final(self), pc@, goal, r),
            learned(
                old(self).graph,
                final(self).graph,
                old(self).background(),
                if r {
                    seq![(guard_tm(class_guards(pc@), Tm::Class(goal)), t_bool(true))]
                } else {
                    Seq::empty()
                },
            ),
            r ==> forall|m: Model| #[trigger]
                final(self).graph.models(m) && cube_holds(m, pc@) ==> m.is(goal, true),
            settled(old(self).graph, pc@, goal) && !final(self).graph.full() ==> r,
    {
        let ghost c0 = *self;
        let ghost b = c0.background();
        proof {
            lemma_leads_refl(c0);
            crate::rewrite::sound::lemma_follows_same(c0.graph, c0.graph, b);
        }
        let mut r: bool = !self.graph.is_full() && (self.graph.known_bool(goal) == Some(true)
            || is_refuted(&self.graph, pc) || is_told(&self.graph, pc, goal));
        if !r {
            self.saturate();
            proof {
                lemma_cube_grows(c0.graph, self.graph, pc@);
            }
            let ghost c2 = *self;
            r = self.decide(goal, pc, SPLIT_DEPTH);
            proof {
                assert(saturated(c0, c2));
                assert(self.graph == c2.graph);
                lemma_leads_trans(c0, c2, *self);
            }
        }
        let ghost g = self.graph;
        proof {
            assert(run_to(c0, g));
            assert(follows(c0.graph, g, b));
            lemma_learned_follows(c0.graph, g, b);
            lemma_cube_grows(c0.graph, g, pc@);
        }
        if r {
            let ghost before = *self;
            self.assume_guarded(goal, pc);
            proof {
                let fact = (guard_tm(class_guards(pc@), Tm::Class(goal)), t_bool(true));
                lemma_leads_trans(c0, before, *self);
                lemma_learned_asserted(g, self.graph, b, seq![fact]);
                lemma_learned_trans(c0.graph, g, self.graph, b, Seq::empty(), seq![fact]);
                assert(Seq::<(Tm, Tm)>::empty() + seq![fact] =~= seq![fact]);
                if !self.graph.full() {
                    assert forall|m: Model| #[trigger]
                        self.graph.models(m) && cube_holds(m, pc@) implies m.is(goal, true) by {
                        assert(all_hold(m, seq![fact]));
                        assert(equation_holds(m, seq![fact][0]));
                        law_guard_value(m, pc@, Tm::Class(goal));
                        lemma_tm_lit(m, Value::Bool(true));
                    }
                } else {
                    assert(learned(c0.graph, self.graph, b, Seq::empty()));
                }
            }
            if self.graph.is_full() {
                return false;
            }
        }
        r
    }
}

} // verus!
