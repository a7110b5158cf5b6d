//! Running rules until nothing changes or a limit is met.

use crate::graph::{coarser, congruent, keeps_classes, Graph};
use crate::lang::Id;
use crate::model::Model;
use crate::rewrite::fold::{fold_facts, law_fold_sound, ConstFold};
use crate::rewrite::gather::all_hold;
use crate::rewrite::instantiate::{table_wf, QuantRecipe};
use crate::rewrite::memo::Scopes;
use crate::rewrite::pins::asserted;
use crate::rewrite::prints::Ctor;
use crate::rewrite::rules::{
    applied, lemma_follows_weaken, lemma_same_rule, lemma_stepped_trans, stepped, Rule,
};
use crate::rewrite::sound::{
    follows, lemma_follows_asserted, lemma_follows_same, lemma_follows_trans, well_sorted,
};
use crate::terms::{lemma_grows_refl, lemma_keeps_trans};
use vstd::prelude::*;

verus! {

/// The number of rounds after which a run stops.
pub const ROUND_LIMIT: usize = 30;

/// The number of ids beyond which a run starts no further round.
pub const NODE_LIMIT: usize = 10000;

/// Every rule of a list holds.
pub open spec fn rules_hold(rs: Seq<Rule>, cs: Seq<Ctor>, table: Seq<QuantRecipe>, m: Model) -> bool {
    forall|i: int| 0 <= i < rs.len() ==> (#[trigger] rs[i]).holds(cs, table, m)
}

pub open spec fn rules_wf(rs: Seq<Rule>) -> bool {
    forall|i: int| 0 <= i < rs.len() ==> (#[trigger] rs[i]).wf()
}

/// Lists of rules that differ in what the rules remember alone.
pub open spec fn same_rules(a: Seq<Rule>, b: Seq<Rule>) -> bool {
    &&& a.len() == b.len()
    &&& forall|i: int| 0 <= i < a.len() ==> (#[trigger] a[i]).same_rule(b[i])
}

/// What rules rest on together.
pub open spec fn background(rs: Seq<Rule>, cs: Seq<Ctor>, table: Seq<QuantRecipe>) -> spec_fn(
    Model,
) -> bool {
    |m: Model| rules_hold(rs, cs, table, m)
}

pub proof fn lemma_same_rules_refl(rs: Seq<Rule>)
    ensures
        same_rules(rs, rs),
{
}

pub proof fn lemma_same_rules_trans(a: Seq<Rule>, b: Seq<Rule>, c: Seq<Rule>)
    requires
        same_rules(a, b),
        same_rules(b, c),
    ensures
        same_rules(a, c),
{
    assert forall|i: int| 0 <= i < a.len() implies (#[trigger] a[i]).same_rule(c[i]) by {
        assert(a[i].same_rule(b[i]));
        assert(b[i].same_rule(c[i]));
    }
}

pub proof fn lemma_same_rules_hold(
    a: Seq<Rule>,
    b: Seq<Rule>,
    cs: Seq<Ctor>,
    table: Seq<QuantRecipe>,
    m: Model,
)
    requires
        same_rules(a, b),
        rules_hold(a, cs, table, m),
    ensures
        rules_hold(b, cs, table, m),
{
    assert forall|i: int| 0 <= i < b.len() implies (#[trigger] b[i]).holds(cs, table, m) by {
        assert(a[i].holds(cs, table, m));
        assert(a[i].same_rule(b[i]));
        lemma_same_rule(a[i], b[i], cs, table, m);
    }
}

/// One place of a sweep: the rule is applied where the id is canonical.
pub open spec fn sweep_step(
    gs: Seq<Graph>,
    rs: Seq<Rule>,
    s: Scopes,
    cs: Seq<Ctor>,
    table: Seq<QuantRecipe>,
    i: int,
) -> bool {
    if gs[i].canon(i as Id) == i {
        applied(rs[i], s, cs, table, gs[i], gs[i + 1], i as Id) && rs[i].same_rule(rs[i + 1])
    } else {
        gs[i + 1] == gs[i] && rs[i + 1] == rs[i]
    }
}

/// The rule was applied to the classes of `n` ids in turn.
pub open spec fn sweep(
    gs: Seq<Graph>,
    rs: Seq<Rule>,
    s: Scopes,
    cs: Seq<Ctor>,
    table: Seq<QuantRecipe>,
    n: nat,
) -> bool {
    &&& gs.len() == n + 1
    &&& rs.len() == n + 1
    &&& forall|i: int| 0 <= i < n ==> #[trigger] sweep_step(gs, rs, s, cs, table, i)
}

/// `h` is what a rule makes of `g`, applied to every class that `g` had.
pub open spec fn swept(
    r: Rule,
    r2: Rule,
    s: Scopes,
    cs: Seq<Ctor>,
    table: Seq<QuantRecipe>,
    g: Graph,
    h: Graph,
) -> bool {
    exists|gs: Seq<Graph>, rs: Seq<Rule>| #[trigger]
        sweep(gs, rs, s, cs, table, g.len()) && gs[0] == g && gs.last() == h && rs[0] == r
            && rs.last() == r2
}

proof fn lemma_sweep_push(
    gs: Seq<Graph>,
    rs: Seq<Rule>,
    s: Scopes,
    cs: Seq<Ctor>,
    table: Seq<QuantRecipe>,
    n: nat,
    h: Graph,
    r: Rule,
)
    requires
        sweep(gs, rs, s, cs, table, n),
        sweep_step(gs.push(h), rs.push(r), s, cs, table, n as int),
    ensures
        sweep(gs.push(h), rs.push(r), s, cs, table, n + 1),
{
    assert forall|i: int| 0 <= i < n + 1 implies #[trigger] sweep_step(
        gs.push(h),
        rs.push(r),
        s,
        cs,
        table,
        i,
    ) by {
        if i < n {
            assert(sweep_step(gs, rs, s, cs, table, i));
        }
    }
}

/// Applies the `k`th rule to every class.
fn run_rule(
    rules: &mut Vec<Rule>,
    k: usize,
    s: &Scopes,
    g: &mut Graph,
    cs: &Vec<Ctor>,
    table: &Vec<QuantRecipe>,
) -> (changed: bool)
    requires
        old(g).wf(),
        rules_wf(old(rules)@),
        table_wf(table@),
        k < old(rules)@.len(),
    ensures
        swept(old(rules)@[k as int], final(rules)@[k as int], *s, cs@, table@, *old(g), *final(g)),
        final(rules)@ == old(rules)@.update(k as int, final(rules)@[k as int]),
        !changed ==> keeps_classes(*old(g), *final(g)) && final(g).len() == old(g).len(),
        same_rules(old(rules)@, final(rules)@),
        rules_wf(final(rules)@),
        stepped(*old(g), *final(g)),
        follows(*old(g), *final(g), background(old(rules)@, cs@, table@)),
{
    let ghost g0 = *g;
    let ghost rs = rules@;
    let ghost b = background(rs, cs@, table@);
    let ghost mut trail: Seq<Graph> = seq![g0];
    let ghost mut states: Seq<Rule> = seq![rs[k as int]];
    let mut changed: bool = false;
    let n: usize = g.size();
    let mut i: usize = 0;
    proof {
        lemma_grows_refl(g0);
        lemma_follows_same(g0, g0, b);
        lemma_same_rules_refl(rs);
        crate::graph::lemma_len_bound(g0);
        assert(rs.update(k as int, rs[k as int]) =~= rs);
    }
    while i < n
        invariant
            i <= n,
            n == g0.len(),
            n <= g.len(),
            n <= u32::MAX,
            k < rules@.len(),
            trail[0] == g0,
            trail.last() == *g,
            states[0] == rs[k as int],
            states.last() == rules@[k as int],
            sweep(trail, states, *s, cs@, table@, i as nat),
            rules@ == rs.update(k as int, rules@[k as int]),
            !changed ==> keeps_classes(g0, *g),
            rules_wf(rules@),
            table_wf(table@),
            same_rules(rs, rules@),
            stepped(g0, *g),
            b == background(rs, cs@, table@),
            follows(g0, *g, b),
        decreases n - i,
    {
        let id: Id = i as Id;
        let ghost had = trail;
        let ghost were = states;
        if g.find(id) == id {
            let ghost before = *g;
            let ghost now = rules@;
            let more = rules[k].apply(s, g, cs, table, id);
            proof {
                assert forall|j: int| 0 <= j < now.len() implies (#[trigger] now[j]).same_rule(
                    rules@[j],
                ) by {}
                lemma_same_rules_trans(rs, now, rules@);
                let c = |m: Model| now[k as int].holds(cs@, table@, m);
                assert forall|m: Model| #[trigger] b(m) implies c(m) by {
                    lemma_same_rules_hold(rs, now, cs@, table@, m);
                }
                lemma_follows_weaken(before, *g, c, b);
                lemma_follows_trans(g0, before, *g, b);
                lemma_stepped_trans(g0, before, *g);
                assert(rules@ =~= rs.update(k as int, rules@[k as int]));
                if !changed && more@.len() == 0 {
                    lemma_keeps_trans(g0, before, *g);
                }
            }
            if more.len() > 0 {
                changed = true;
            }
        }
        proof {
            trail = had.push(*g);
            states = were.push(rules@[k as int]);
            assert(sweep_step(trail, states, *s, cs@, table@, i as int));
            lemma_sweep_push(had, were, *s, cs@, table@, i as nat, *g, rules@[k as int]);
        }
        i += 1;
    }
    if g.size() > n {
        changed = true;
    }
    changed
}

/// One place of a fold over the classes.
pub open spec fn fold_step(gs: Seq<Graph>, i: int) -> bool {
    if gs[i].canon(i as Id) == i {
        asserted(gs[i], gs[i + 1], fold_facts(gs[i], i as Id))
    } else {
        gs[i + 1] == gs[i]
    }
}

pub open spec fn fold_trail(gs: Seq<Graph>, n: nat) -> bool {
    gs.len() == n + 1 && forall|i: int| 0 <= i < n ==> #[trigger] fold_step(gs, i)
}

/// `h` is `g` with the literals folded in every class that `g` had.
pub open spec fn folded_all(g: Graph, h: Graph) -> bool {
    exists|gs: Seq<Graph>| #[trigger] fold_trail(gs, g.len()) && gs[0] == g && gs.last() == h
}

proof fn lemma_fold_push(gs: Seq<Graph>, n: nat, h: Graph)
    requires
        fold_trail(gs, n),
        fold_step(gs.push(h), n as int),
    ensures
        fold_trail(gs.push(h), n + 1),
{
    assert forall|i: int| 0 <= i < n + 1 implies #[trigger] fold_step(gs.push(h), i) by {
        if i < n {
            assert(fold_step(gs, i));
        }
    }
}

/// Folds literals in every class.
pub(crate) fn run_fold(g: &mut Graph, Ghost(b): Ghost<spec_fn(Model) -> bool>) -> (changed: bool)
    requires
        old(g).wf(),
    ensures
        folded_all(*old(g), *final(g)),
        !changed ==> keeps_classes(*old(g), *final(g)) && final(g).len() == old(g).len(),
        stepped(*old(g), *final(g)),
        follows(*old(g), *final(g), b),
{
    let ghost g0 = *g;
    let ghost mut trail: Seq<Graph> = seq![g0];
    let mut changed: bool = false;
    let n: usize = g.size();
    let mut i: usize = 0;
    proof {
        lemma_grows_refl(g0);
        lemma_follows_same(g0, g0, b);
        crate::graph::lemma_len_bound(g0);
    }
    while i < n
        invariant
            i <= n,
            n == g0.len(),
            n <= g.len(),
            n <= u32::MAX,
            trail[0] == g0,
            trail.last() == *g,
            fold_trail(trail, i as nat),
            !changed ==> keeps_classes(g0, *g),
            stepped(g0, *g),
            follows(g0, *g, b),
        decreases n - i,
    {
        let id: Id = i as Id;
        let ghost had = trail;
        if g.find(id) == id {
            let ghost before = *g;
            let more = ConstFold.apply_one(g, id);
            proof {
                let facts = fold_facts(before, id);
                assert forall|m: Model| #[trigger]
                    before.models(m) && well_sorted(before.defs(), m) && b(m) implies all_hold(
                    m,
                    facts,
                ) by {
                    law_fold_sound(before, m, id);
                }
                lemma_follows_asserted(before, *g, facts, b);
                lemma_follows_trans(g0, before, *g, b);
                lemma_stepped_trans(g0, before, *g);
                if !changed && more@.len() == 0 {
                    lemma_keeps_trans(g0, before, *g);
                }
            }
            if more.len() > 0 {
                changed = true;
            }
        }
        proof {
            trail = had.push(*g);
            assert(fold_step(trail, i as int));
            lemma_fold_push(had, i as nat, *g);
        }
        i += 1;
    }
    if g.size() > n {
        changed = true;
    }
    changed
}

/// Congruence was restored.
pub open spec fn rebuilt(g: Graph, h: Graph) -> bool {
    &&& h.defs() == g.defs()
    &&& h.facts() == g.facts()
    &&& h.full() == g.full()
    &&& h.len() == g.len()
    &&& coarser(g, h)
    &&& congruent(h)
}

/// The rules applied one after the other.
pub open spec fn rule_trail(
    a: Seq<Rule>,
    b: Seq<Rule>,
    s: Scopes,
    cs: Seq<Ctor>,
    table: Seq<QuantRecipe>,
    gs: Seq<Graph>,
) -> bool {
    &&& gs.len() == a.len() + 1
    &&& forall|k: int| 0 <= k < a.len() ==> #[trigger] swept(a[k], b[k], s, cs, table, gs[k], gs[k + 1])
}

/// What one round makes of a graph and of what the rules remember.
pub open spec fn rounded(
    a: Seq<Rule>,
    b: Seq<Rule>,
    s: Scopes,
    cs: Seq<Ctor>,
    table: Seq<QuantRecipe>,
    g: Graph,
    h: Graph,
) -> bool {
    &&& same_rules(a, b)
    &&& exists|gs: Seq<Graph>| #[trigger]
        rule_trail(a, b, s, cs, table, gs) && folded_all(g, gs[0]) && rebuilt(gs.last(), h)
}

/// The classes stayed as they were, but for what congruence then made one.
pub open spec fn at_rest(g: Graph, h: Graph) -> bool {
    exists|mid: Graph| #[trigger]
        keeps_classes(g, mid) && mid.len() == g.len() && rebuilt(mid, h)
}

/// One round: literals are folded, every rule is applied to every class, and
/// congruence is restored. Says whether anything but congruence changed a class.
pub fn run_round(
    rules: &mut Vec<Rule>,
    s: &Scopes,
    g: &mut Graph,
    cs: &Vec<Ctor>,
    table: &Vec<QuantRecipe>,
) -> (changed: bool)
    requires
        old(g).wf(),
        rules_wf(old(rules)@),
        table_wf(table@),
    ensures
        rounded(old(rules)@, final(rules)@, *s, cs@, table@, *old(g), *final(g)),
        !changed ==> at_rest(*old(g), *final(g)) && final(g).len() == old(g).len(),
        rules_wf(final(rules)@),
        stepped(*old(g), *final(g)),
        follows(*old(g), *final(g), background(old(rules)@, cs@, table@)),
{
    let ghost g0 = *g;
    let ghost rs = rules@;
    let ghost b = background(rs, cs@, table@);
    let mut changed: bool = run_fold(g, Ghost(b));
    let ghost mut trail: Seq<Graph> = seq![*g];
    let ghost start = *g;
    let mut k: usize = 0;
    proof {
        lemma_same_rules_refl(rs);
        assert(rs.take(0) =~= Seq::empty());
    }
    while k < rules.len()
        invariant
            k <= rules@.len(),
            trail.len() == k + 1,
            trail[0] == start,
            trail.last() == *g,
            !changed ==> keeps_classes(g0, *g) && g.len() == g0.len(),
            forall|j: int| k <= j < rs.len() ==> rules@[j] == #[trigger] rs[j],
            forall|j: int|
                0 <= j < k ==> #[trigger] swept(
                    rs[j],
                    rules@[j],
                    *s,
                    cs@,
                    table@,
                    trail[j],
                    trail[j + 1],
                ),
            rules_wf(rules@),
            table_wf(table@),
            same_rules(rs, rules@),
            stepped(g0, *g),
            b == background(rs, cs@, table@),
            follows(g0, *g, b),
        decreases rules.len() - k,
    {
        let ghost before = *g;
        let ghost now = rules@;
        let ghost had = trail;
        let more = run_rule(rules, k, s, g, cs, table);
        proof {
            if !changed && !more {
                lemma_keeps_trans(g0, before, *g);
            }
        }
        if more {
            changed = true;
        }
        proof {
            lemma_same_rules_trans(rs, now, rules@);
            let c = background(now, cs@, table@);
            assert forall|m: Model| #[trigger] b(m) implies c(m) by {
                lemma_same_rules_hold(rs, now, cs@, table@, m);
            }
            lemma_follows_weaken(before, *g, c, b);
            lemma_follows_trans(g0, before, *g, b);
            lemma_stepped_trans(g0, before, *g);
            trail = had.push(*g);
            assert(now[k as int] == rs[k as int]);
            assert forall|j: int| 0 <= j < k + 1 implies #[trigger] swept(
                rs[j],
                rules@[j],
                *s,
                cs@,
                table@,
                trail[j],
                trail[j + 1],
            ) by {
                if j < k {
                    assert(swept(rs[j], now[j], *s, cs@, table@, had[j], had[j + 1]));
                    assert(trail[j] == had[j] && trail[j + 1] == had[j + 1]);
                    assert(rules@[j] == now[j]);
                }
            }
        }
        k += 1;
    }
    let ghost before = *g;
    g.rebuild();
    proof {
        lemma_follows_same(before, *g, b);
        lemma_follows_trans(g0, before, *g, b);
        lemma_stepped_trans(g0, before, *g);
        assert(rule_trail(rs, rules@, *s, cs@, table@, trail));
        assert(rebuilt(before, *g));
    }
    changed
}

/// One round of a run.
pub open spec fn run_step(
    hs: Seq<Graph>,
    rss: Seq<Seq<Rule>>,
    s: Scopes,
    cs: Seq<Ctor>,
    table: Seq<QuantRecipe>,
    i: int,
) -> bool {
    rounded(rss[i], rss[i + 1], s, cs, table, hs[i], hs[i + 1])
}

/// The graphs and rules that `n` rounds lead through.
pub open spec fn run_trail(
    hs: Seq<Graph>,
    rss: Seq<Seq<Rule>>,
    s: Scopes,
    cs: Seq<Ctor>,
    table: Seq<QuantRecipe>,
    n: nat,
) -> bool {
    &&& hs.len() == n + 1
    &&& rss.len() == n + 1
    &&& forall|i: int| 0 <= i < n ==> #[trigger] run_step(hs, rss, s, cs, table, i)
}

/// What `n` rounds make of a graph, congruence restored before the first.
pub open spec fn ran(
    a: Seq<Rule>,
    b: Seq<Rule>,
    s: Scopes,
    cs: Seq<Ctor>,
    table: Seq<QuantRecipe>,
    g: Graph,
    h: Graph,
    n: nat,
) -> bool {
    exists|hs: Seq<Graph>, rss: Seq<Seq<Rule>>| #[trigger]
        run_trail(hs, rss, s, cs, table, n) && rebuilt(g, hs[0]) && hs.last() == h && rss[0] == a
            && rss.last() == b
}

/// After a run the graph is congruent.
pub proof fn lemma_ran_congruent(
    a: Seq<Rule>,
    b: Seq<Rule>,
    s: Scopes,
    cs: Seq<Ctor>,
    table: Seq<QuantRecipe>,
    g: Graph,
    h: Graph,
    n: nat,
)
    requires
        ran(a, b, s, cs, table, g, h, n),
    ensures
        congruent(h),
{
    let (hs, rss) = choose|hs: Seq<Graph>, rss: Seq<Seq<Rule>>| #[trigger]
        run_trail(hs, rss, s, cs, table, n) && rebuilt(g, hs[0]) && hs.last() == h && rss[0] == a
            && rss.last() == b;
    if n > 0 {
        assert(run_step(hs, rss, s, cs, table, n - 1));
    }
}

proof fn lemma_run_push(
    hs: Seq<Graph>,
    rss: Seq<Seq<Rule>>,
    s: Scopes,
    cs: Seq<Ctor>,
    table: Seq<QuantRecipe>,
    n: nat,
    h: Graph,
    rs: Seq<Rule>,
)
    requires
        run_trail(hs, rss, s, cs, table, n),
        rounded(rss.last(), rs, s, cs, table, hs.last(), h),
    ensures
        run_trail(hs.push(h), rss.push(rs), s, cs, table, n + 1),
{
    assert forall|i: int| 0 <= i < n + 1 implies #[trigger] run_step(
        hs.push(h),
        rss.push(rs),
        s,
        cs,
        table,
        i,
    ) by {
        if i < n {
            assert(run_step(hs, rss, s, cs, table, i));
        }
    }
}

/// What `n` rounds make of a graph, where the last of them changed no class but by
/// congruence.
pub open spec fn came_to_rest(
    a: Seq<Rule>,
    b: Seq<Rule>,
    s: Scopes,
    cs: Seq<Ctor>,
    table: Seq<QuantRecipe>,
    g: Graph,
    h: Graph,
    n: nat,
) -> bool {
    exists|hs: Seq<Graph>, rss: Seq<Seq<Rule>>| #[trigger]
        run_trail(hs, rss, s, cs, table, n) && rebuilt(g, hs[0]) && hs.last() == h && rss[0] == a
            && rss.last() == b && n > 0 && at_rest(hs[n - 1], h)
}

/// Runs rounds until one changes nothing or a limit is met; says whether the last
/// round changed nothing.
pub fn run(
    rules: &mut Vec<Rule>,
    s: &Scopes,
    g: &mut Graph,
    cs: &Vec<Ctor>,
    table: &Vec<QuantRecipe>,
) -> (settled: bool)
    requires
        old(g).wf(),
        rules_wf(old(rules)@),
        table_wf(table@),
    ensures
        exists|n: nat| #[trigger]
            ran(old(rules)@, final(rules)@, *s, cs@, table@, *old(g), *final(g), n) && n
                <= ROUND_LIMIT && (settled ==> came_to_rest(
                old(rules)@,
                final(rules)@,
                *s,
                cs@,
                table@,
                *old(g),
                *final(g),
                n,
            )) && (!settled ==> n == ROUND_LIMIT || final(g).len() > NODE_LIMIT),
        same_rules(old(rules)@, final(rules)@),
        rules_wf(final(rules)@),
        stepped(*old(g), *final(g)),
        follows(*old(g), *final(g), background(old(rules)@, cs@, table@)),
{
    let ghost g0 = *g;
    let ghost rs = rules@;
    let ghost b = background(rs, cs@, table@);
    g.rebuild();
    let ghost mut hs: Seq<Graph> = seq![*g];
    let ghost mut rss: Seq<Seq<Rule>> = seq![rs];
    let mut i: usize = 0;
    proof {
        lemma_follows_same(g0, *g, b);
        lemma_same_rules_refl(rs);
    }
    while i < ROUND_LIMIT && g.size() <= NODE_LIMIT
        invariant
            i <= ROUND_LIMIT,
            g0 == *old(g),
            rs == old(rules)@,
            run_trail(hs, rss, *s, cs@, table@, i as nat),
            rebuilt(g0, hs[0]),
            hs.last() == *g,
            rss[0] == rs,
            rss.last() == rules@,
            rules_wf(rules@),
            table_wf(table@),
            same_rules(rs, rules@),
            stepped(g0, *g),
            b == background(rs, cs@, table@),
            follows(g0, *g, b),
        decreases ROUND_LIMIT - i,
    {
        let ghost before = *g;
        let ghost now = rules@;
        let changed = run_round(rules, s, g, cs, table);
        proof {
            lemma_same_rules_trans(rs, now, rules@);
            let c = background(now, cs@, table@);
            assert forall|m: Model| #[trigger] b(m) implies c(m) by {
                lemma_same_rules_hold(rs, now, cs@, table@, m);
            }
            lemma_follows_weaken(before, *g, c, b);
            lemma_follows_trans(g0, before, *g, b);
            lemma_stepped_trans(g0, before, *g);
            lemma_run_push(hs, rss, *s, cs@, table@, i as nat, *g, rules@);
            hs = hs.push(*g);
            rss = rss.push(rules@);
            assert(ran(rs, rules@, *s, cs@, table@, g0, *g, (i + 1) as nat));
            if !changed {
                assert(hs[i as int] == before);
                assert(came_to_rest(rs, rules@, *s, cs@, table@, g0, *g, (i + 1) as nat));
            }
        }
        if !changed {
            return true;
        }
        i += 1;
    }
    proof {
        assert(ran(rs, rules@, *s, cs@, table@, g0, *g, i as nat));
    }
    false
}

} // verus!
