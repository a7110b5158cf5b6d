//! What verification takes for granted.

use crate::context::{
    builds, cube_holds, learns, lemma_background_same, lemma_leads_refl, lemma_leads_trans,
    Context,
};
use crate::graph::Graph;
use crate::lang::Id;
use crate::meaning::calls::decided;
use crate::meaning::heaps::lemma_at;
use crate::meaning::runs::executes;
use crate::meaning::slots::{law_method_executes, lemma_operand_kept, lemma_slots_kept};
use crate::meaning::values::operand;
use crate::method::eval::{at_address, lits_for};
use crate::method::resource::{true_on, Env};
use crate::method::run::{asserted_on, assumed, heap_insts, inst_ok, insts_ok, pures, stepped};
use crate::method::unit::{inst_ran, method_verified, ran, read_checked, Trail};
use crate::model::{equation_holds, lemma_tm_lit, t_bool, t_classes, theory, Model, Tm};
use crate::program::{Inst, InstKind, Method, PureInst};
use crate::prove::{
    cube_bools, goal_fact, law_guard_value, law_shown, run_to, runs_fit, shown, tried,
};
use crate::rewrite::gather::all_hold;
use crate::rewrite::pins::asserted;
use crate::rewrite::recipe::{guards_ok, val_ok, val_tm};
use crate::rewrite::sound::{follows, lemma_sorted_prefix, well_sorted};
use crate::terms::{group_grows, written};
use crate::vmir::{Polarity, Val, Value};
use vstd::prelude::*;

verus! {

/// An instruction that touches no heap.
pub open spec fn heap_free(inst: Inst) -> bool {
    match inst.kind {
        InstKind::Pure(_, PureInst::Deref(_, _)) => false,
        InstKind::Heap(_) => false,
        _ => true,
    }
}

/// The terms that the rules build along the way have values that fit a model.
pub open spec fn fits_along(t: Trail, m: Model) -> bool {
    forall|c: Context| #[trigger]
        t.ctxs[0].leads_to(c) && c.leads_to(t.ctxs.last()) && c.graph.models(m) ==> runs_fit(c, m)
}

/// An interpretation of terms that were defined later is one of those defined before.
proof fn lemma_theory_before(g: Graph, h: Graph, facts: Seq<(Tm, Tm)>, m: Model)
    requires
        g.grows_to(h),
        theory(h.defs(), Seq::empty(), m),
        forall|k: int| 0 <= k < facts.len() ==> equation_holds(m, #[trigger] facts[k]),
    ensures
        theory(g.defs(), facts, m),
{
    assert forall|i: int| 0 <= i < g.defs().len() implies crate::model::term_value(
        m,
        #[trigger] g.defs()[i],
    ) == Some(m.at(i as Id)) by {
        assert(h.defs()[i] == g.defs()[i]);
    }
}

/// Terms were added: what held before still holds.
proof fn lemma_built_holds(a: Context, b: Context, last: Graph, m: Model)
    requires
        builds(a, b),
        a.graph.models(m),
        b.graph.grows_to(last),
        theory(last.defs(), Seq::empty(), m),
    ensures
        b.graph.models(m),
{
    lemma_theory_before(b.graph, last, b.graph.facts(), m);
}

proof fn lemma_assumed_holds(
    a: Context,
    b: Context,
    vals: Seq<Id>,
    v: Val,
    last: Graph,
    m: Model,
)
    requires
        assumed(a, b, vals, v),
        a.graph.models(m),
        (a.background())(m),
        b.graph.grows_to(last),
        !last.full(),
        theory(last.defs(), Seq::empty(), m),
        well_sorted(last.defs(), m),
        val_ok(v, vals.len()),
        operand(m.all(vals), v) == Value::Bool(true),
    ensures
        b.graph.models(m),
{
    broadcast use group_grows;

    let (mid, id) = choose|mid: Context, id: Id|
        {
            &&& #[trigger] a.leads_to(mid)
            &&& builds(a, mid)
            &&& #[trigger] at_address(mid.graph, vals, v, id)
            &&& crate::heap::facts::reaches(
                mid,
                b,
                crate::heap::facts::only((Tm::Class(id), t_bool(true))),
            )
            &&& learns(mid, b, seq![(Tm::Class(id), t_bool(true))])
        };
    assert(mid.leads_to(b));
    lemma_built_holds(a, mid, last, m);
    lemma_at(mid.graph, m, vals, v, id);
    lemma_background_same(a, mid, m);
    let facts = seq![(Tm::Class(id), t_bool(true))];
    lemma_tm_lit(m, Value::Bool(true));
    assert(all_hold(m, facts)) by {
        assert forall|i: int| 0 <= i < facts.len() implies equation_holds(m, #[trigger] facts[i]) by {
        }
    }
    lemma_theory_before(b.graph, last, mid.graph.facts(), m);
    lemma_sorted_prefix(b.graph.defs(), last.defs(), m);
}

#[verifier::rlimit(40)]
#[verifier::spinoff_prover]
proof fn lemma_asserted_holds(
    a: Context,
    b: Context,
    vals: Seq<Id>,
    conds: Seq<(Val, Polarity)>,
    v: Val,
    first: Context,
    end: Context,
    m: Model,
)
    requires
        asserted_on(a, b, vals, conds, v),
        a.graph.models(m),
        (a.background())(m),
        first.leads_to(a),
        b.leads_to(end),
        !end.graph.full(),
        theory(end.graph.defs(), Seq::empty(), m),
        well_sorted(end.graph.defs(), m),
        val_ok(v, vals.len()),
        guards_ok(conds, vals.len()),
        decided(m.all(vals), conds),
        forall|c: Context| #[trigger]
            first.leads_to(c) && c.leads_to(end) && c.graph.models(m) ==> runs_fit(c, m),
    ensures
        b.graph.models(m),
{
    broadcast use group_grows;

    let last = end.graph;
    let (mid, id, lits) = choose|mid: Context, id: Id, lits: Seq<(Id, Polarity)>|
        {
            &&& a.leads_to(mid)
            &&& builds(a, mid)
            &&& #[trigger] at_address(mid.graph, vals, v, id)
            &&& #[trigger] lits_for(mid.graph, vals, conds, lits)
            &&& written(mid.graph, id, val_tm(t_classes(vals), v))
            &&& shown(mid, lits, id)
            &&& tried(mid, b, lits, id, true)
            &&& at_address(b.graph, vals, v, id)
            &&& lits_for(b.graph, vals, conds, lits)
            &&& true_on(b.graph, lits, id)
        };
    lemma_leads_trans(mid, b, end);
    lemma_leads_trans(first, a, mid);
    lemma_built_holds(a, mid, last, m);
    lemma_background_same(a, mid, m);
    assert(runs_fit(mid, m));
    assert(cube_bools(m, lits)) by {
        assert forall|k: int| 0 <= k < lits.len() implies m.at((#[trigger] lits[k]).0) is Bool by {
            assert(operand(m.all(vals), conds[k].0) is Bool);
            assert(val_ok(conds[k].0, vals.len()));
            crate::meaning::slots::lemma_classes_hold(m, vals);
            crate::meaning::values::lemma_operand(m, t_classes(vals), m.all(vals), conds[k].0);
        }
    }
    let fact = goal_fact(lits, id);
    law_guard_value(m, lits, Tm::Class(id));
    lemma_tm_lit(m, Value::Bool(true));
    if cube_holds(m, lits) {
        law_shown(mid, lits, id, m);
    }
    assert(equation_holds(m, fact));
    let g = choose|g: Graph| #[trigger]
        run_to(mid, g) && asserted(g, b.graph, seq![goal_fact(lits, id)]);
    lemma_run_holds(mid, g, last, m);
    let facts = g.facts() + seq![fact];
    assert forall|k: int| 0 <= k < facts.len() implies equation_holds(m, #[trigger] facts[k]) by {
        if k < g.facts().len() {
            assert(facts[k] == g.facts()[k]);
        }
    }
    lemma_theory_before(b.graph, last, facts, m);
}

proof fn lemma_run_holds(c: Context, g: Graph, last: Graph, m: Model)
    requires
        run_to(c, g),
        c.graph.models(m),
        (c.background())(m),
        g.grows_to(last),
        !last.full(),
        theory(last.defs(), Seq::empty(), m),
        well_sorted(last.defs(), m),
    ensures
        g.models(m),
{
    if g != c.graph {
        let d = choose|d: Context| #[trigger] crate::context::saturated(c, d) && d.graph == g;
        lemma_theory_before(g, last, c.graph.facts(), m);
        lemma_sorted_prefix(g.defs(), last.defs(), m);
        assert(follows(c.graph, g, c.background()));
    }
}

/// One instruction without heaps: what held before it holds after it, where an assumption
/// is true.
proof fn lemma_inst_sound(
    env: Env,
    insts: Seq<Inst>,
    t: Trail,
    m: Model,
    i: int,
)
    requires
        ran(t, env, insts, insts.len() as int),
        t.slots[0].vals.len() == 0,
        insts_ok(insts, 0, 0),
        0 <= i < insts.len(),
        heap_free(insts[i]),
        t.ctxs[0].wf(),
        t.ctxs.last().wf(),
        !t.ctxs.last().graph.full(),
        theory(t.ctxs.last().graph.defs(), Seq::empty(), m),
        well_sorted(t.ctxs.last().graph.defs(), m),
        (t.ctxs[0].background())(m),
        fits_along(t, m),
        t.ctxs[i].graph.models(m),
        decided(m.all(t.slots.last().vals), insts[i].pc.conds@),
        insts[i].kind matches InstKind::Assume(v) ==> operand(m.all(t.slots.last().vals), v)
            == Value::Bool(true),
    ensures
        t.ctxs[i + 1].graph.models(m),
{
    let n = insts.len() as int;
    let inst = insts[i];
    let end = t.ctxs[n];
    lemma_slots_kept(t, env, insts, n, i);
    lemma_slots_kept(t, env, insts, n, 0);
    lemma_slots_kept(t, env, insts, n, i + 1);
    assert(insts.take(0) =~= Seq::empty());
    let s = t.slots[i];
    assert(s.vals.len() == pures(insts.take(i)));
    assert(inst_ok(inst, 0 + pures(insts.take(i)), 0 + heap_insts(insts.take(i))));
    assert(inst_ran(t.ctxs[i], t.ctxs[i + 1], env, s, t.slots[i + 1], inst));
    let b = t.ctxs[i + 1];
    let mid = choose|mid: Context|
        {
            &&& #[trigger] t.ctxs[i].leads_to(mid)
            &&& read_checked(t.ctxs[i], mid, s, inst)
            &&& mid.leads_to(b)
            &&& stepped(mid, b, env, s, t.slots[i + 1], inst)
        };
    let a = t.ctxs[i];
    assert(mid == a);
    if i + 1 == n {
        lemma_leads_refl(end);
    }
    assert(b.leads_to(end));
    if i == 0 {
        lemma_leads_refl(a);
    } else {
        lemma_prefix_leads(t, env, insts, i);
    }
    lemma_background_same(t.ctxs[0], a, m);
    match inst.kind {
        InstKind::Pure(_, _) => {
            lemma_built_holds(a, b, end.graph, m);
        },
        InstKind::Assume(v) => {
            lemma_operand_kept(m, s.vals, t.slots[n].vals, v);
            lemma_assumed_holds(a, b, s.vals, v, end.graph, m);
        },
        InstKind::Assert(v) => {
            let conds = inst.pc.conds@;
            assert forall|k: int| 0 <= k < conds.len() implies operand(
                m.all(s.vals),
                (#[trigger] conds[k]).0,
            ) is Bool by {
                assert(val_ok(conds[k].0, s.vals.len()));
                lemma_operand_kept(m, s.vals, t.slots[n].vals, conds[k].0);
            }
            lemma_asserted_holds(a, b, s.vals, conds, v, t.ctxs[0], end, m);
        },
        InstKind::Heap(_) => {},
    }
}

proof fn lemma_prefix_leads(t: Trail, env: Env, insts: Seq<Inst>, i: int)
    requires
        ran(t, env, insts, insts.len() as int),
        0 < i <= insts.len(),
    ensures
        t.ctxs[0].leads_to(t.ctxs[i]),
{
    let u = Trail { ctxs: t.ctxs.take(i + 1), slots: t.slots.take(i + 1) };
    assert(ran(u, env, insts, i)) by {
        assert forall|j: int| 0 <= j < i implies #[trigger] inst_ran(
            u.ctxs[j],
            u.ctxs[j + 1],
            env,
            u.slots[j],
            u.slots[j + 1],
            insts[j],
        ) by {
            assert(inst_ran(
                t.ctxs[j],
                t.ctxs[j + 1],
                env,
                t.slots[j],
                t.slots[j + 1],
                insts[j],
            ));
        }
    }
    lemma_slots_kept(u, env, insts, i, 0);
}

proof fn lemma_sound_upto(env: Env, insts: Seq<Inst>, t: Trail, m: Model, n: int)
    requires
        ran(t, env, insts, insts.len() as int),
        t.slots[0].vals.len() == 0,
        insts_ok(insts, 0, 0),
        0 <= n <= insts.len(),
        forall|i: int| 0 <= i < insts.len() ==> heap_free(#[trigger] insts[i]),
        t.ctxs[0].wf(),
        t.ctxs[0].graph.models(m),
        t.ctxs.last().wf(),
        !t.ctxs.last().graph.full(),
        theory(t.ctxs.last().graph.defs(), Seq::empty(), m),
        well_sorted(t.ctxs.last().graph.defs(), m),
        (t.ctxs[0].background())(m),
        fits_along(t, m),
        forall|i: int|
            0 <= i < insts.len() ==> decided(
                m.all(t.slots.last().vals),
                (#[trigger] insts[i]).pc.conds@,
            ),
        forall|i: int|
            0 <= i < insts.len() ==> ((#[trigger] insts[i]).kind matches InstKind::Assume(v)
                ==> operand(m.all(t.slots.last().vals), v) == Value::Bool(true)),
    ensures
        t.ctxs[n].graph.models(m),
    decreases n,
{
    if n > 0 {
        lemma_sound_upto(env, insts, t, m, n - 1);
        assert(heap_free(insts[n - 1]));
        assert(decided(m.all(t.slots.last().vals), insts[n - 1].pc.conds@));
        lemma_inst_sound(env, insts, t, m, n - 1);
    }
}

/// Verifying a method without heaps takes nothing for granted but what it assumes and what
/// its rules rest on: wherever its terms have values, its assumptions are true and its
/// paths are decided, its slots are an execution, so that every assertion on a path that is
/// taken is true.
pub proof fn law_nothing_else_assumed(
    env: Env,
    drop: Seq<String>,
    method: Method,
    t: Trail,
    m: Model,
)
    requires
        method_verified(env, drop, method, t),
        insts_ok(method.insts@, 0, 0),
        forall|i: int| 0 <= i < method.insts@.len() ==> heap_free(#[trigger] method.insts@[i]),
        !t.ctxs.last().graph.full(),
        theory(t.ctxs.last().graph.defs(), Seq::empty(), m),
        well_sorted(t.ctxs.last().graph.defs(), m),
        (t.ctxs[0].background())(m),
        fits_along(t, m),
        forall|i: int|
            0 <= i < method.insts@.len() ==> decided(
                m.all(t.slots.last().vals),
                (#[trigger] method.insts@[i]).pc.conds@,
            ),
        forall|i: int|
            0 <= i < method.insts@.len() ==> ((
            #[trigger] method.insts@[i]).kind matches InstKind::Assume(v) ==> operand(
                m.all(t.slots.last().vals),
                v,
            ) == Value::Bool(true)),
    ensures
        t.ctxs.last().graph.models(m),
        executes(m, m.all(t.slots.last().vals), method),
{
    let insts = method.insts@;
    let n = insts.len() as int;
    lemma_slots_kept(t, env, insts, n, 0);
    let first = t.ctxs[0];
    crate::graph::lemma_defs_len(first.graph);
    assert(first.graph.models(m));
    lemma_sound_upto(env, insts, t, m, n);
    let x = m.all(t.slots.last().vals);
    assert forall|i: int| 0 <= i < insts.len() implies match (#[trigger] method.insts@[i]).kind {
        InstKind::Pure(_, pi) => pures(method.insts@.take(i)) < x.len()
            && crate::meaning::values::computes(m, x, pi, x[pures(method.insts@.take(i)) as int]),
        InstKind::Assume(v) => operand(x, v) == Value::Bool(true),
        InstKind::Assert(v) => crate::meaning::slots::on_path(x, method.insts@[i].pc.conds@)
            ==> operand(x, v) == Value::Bool(true),
        InstKind::Heap(_) => true,
    } by {
        law_method_executes(env, drop, method, t, m, i);
    }
}

} // verus!
