//! Recipes: the pure form in which a body is recorded, and building an instance of
//! one under a substitution.

use crate::graph::{keeps_classes, Graph};
use crate::lang::{FuncId, Id, OpV, RecipeId, Symbolic};
use crate::model::{t_bin, t_bool, t_classes, t_ite, t_lit, Tm};
use crate::rewrite::function::copy_ids;
use crate::rewrite::guards::{
    cube_id, cube_tm, class_guards, fold_guards_of, guard_tm, guards_denote,
};
use crate::rewrite::pins::{
    all_merged, asserted, lemma_asserted_trans, lemma_extended_asserted, lemma_merges_before,
    lemma_merges_later, lemma_spelled_later, merged, merges, spelled,
};
use crate::terms::{
    built, denote_all, extended, group_grows, lemma_denote_classes, lemma_denotes_self,
    lemma_grows_denote_all, lemma_grows_denotes, lemma_grows_refl, lemma_keeps_trans, tied,
};
use crate::vmir::{clone_types, types_view, BinOp, Literal, Polarity, Type, TypeV, Val};
use vstd::prelude::*;

verus! {

broadcast use {lemma_merges_before, lemma_merges_later};

/// A pure step of a prepared body.
pub enum AxiomPure {
    Binary(BinOp, Val, Val),
    Ternary(Val, Val, Val),
    RealCast(Val),
    App { func: FuncId, type_args: Vec<Type>, args: Vec<Val> },
}

/// One instruction of a prepared body.
pub enum AxiomInst {
    /// A step that produces a value.
    Val(AxiomPure),
    /// An assumption. It occupies no slot.
    Assume(Val),
    /// A nested quantifier over captured values.
    Forall { recipe: RecipeId, caps: Vec<Val> },
    /// The presence token of a callee, released where the guards hold. It occupies
    /// no slot.
    Token { func: FuncId, args: Vec<Val>, guards: Vec<(Val, Polarity)> },
}

/// A token to release: the slot that holds it, and the guards under which it is.
pub struct TokenStep {
    pub token: Val,
    pub guards: Vec<(Val, Polarity)>,
}

/// What an operand stands for, given what the slots hold.
pub open spec fn val_tm(vals: Seq<Tm>, v: Val) -> Tm {
    match v {
        Val::Temp(n) => vals[n as int],
        Val::Literal(l) => t_lit(l@),
    }
}

pub open spec fn val_tms(vals: Seq<Tm>, vs: Seq<Val>) -> Seq<Tm> {
    Seq::new(vs.len(), |i: int| val_tm(vals, vs[i]))
}

pub open spec fn guard_tms(vals: Seq<Tm>, gs: Seq<(Val, Polarity)>) -> Seq<(Tm, Polarity)> {
    Seq::new(gs.len(), |i: int| (val_tm(vals, gs[i].0), gs[i].1))
}

/// The term of a pure step.
pub open spec fn pure_tm(vals: Seq<Tm>, p: AxiomPure) -> Tm {
    match p {
        AxiomPure::Binary(op, l, r) => t_bin(op, val_tm(vals, l), val_tm(vals, r)),
        AxiomPure::Ternary(c, t, e) => t_ite(val_tm(vals, c), val_tm(vals, t), val_tm(vals, e)),
        AxiomPure::RealCast(v) => Tm::App(OpV::RealCast, seq![val_tm(vals, v)]),
        AxiomPure::App { func, type_args, args } => Tm::App(
            OpV::FuncApp(func, types_view(type_args@)),
            val_tms(vals, args@),
        ),
    }
}

/// What the slots hold after instructions: the seed, and one term for each
/// instruction that produces a value.
pub open spec fn inst_vals(insts: Seq<AxiomInst>, seed: Seq<Tm>) -> Seq<Tm>
    decreases insts.len(),
{
    if insts.len() == 0 {
        seed
    } else {
        let vals = inst_vals(insts.drop_last(), seed);
        match insts.last() {
            AxiomInst::Val(p) => vals.push(pure_tm(vals, p)),
            AxiomInst::Forall { recipe, caps } => vals.push(
                Tm::App(OpV::Forall(recipe), val_tms(vals, caps@)),
            ),
            _ => vals,
        }
    }
}

/// A term released behind a gate, if there is one.
pub open spec fn gated(gate: Option<Tm>, t: Tm) -> Tm {
    match gate {
        Some(g) => t_ite(g, t, t_bool(true)),
        None => t,
    }
}

/// What one instruction asserts.
pub open spec fn inst_fact(inst: AxiomInst, vals: Seq<Tm>, gate: Option<Tm>) -> Seq<(Tm, Tm)> {
    match inst {
        AxiomInst::Assume(v) => seq![(val_tm(vals, v), t_bool(true))],
        AxiomInst::Token { func, args, guards } => seq![
            (
                gated(
                    gate,
                    guard_tm(
                        guard_tms(vals, guards@),
                        Tm::App(OpV::FuncApp(func, Seq::empty()), val_tms(vals, args@)),
                    ),
                ),
                t_bool(true),
            ),
        ],
        _ => Seq::empty(),
    }
}

/// What instructions assert.
pub open spec fn inst_facts(insts: Seq<AxiomInst>, seed: Seq<Tm>, gate: Option<Tm>) -> Seq<(Tm, Tm)>
    decreases insts.len(),
{
    if insts.len() == 0 {
        Seq::empty()
    } else {
        inst_facts(insts.drop_last(), seed, gate) + inst_fact(
            insts.last(),
            inst_vals(insts.drop_last(), seed),
            gate,
        )
    }
}

/// An operand names one of `n` slots.
pub open spec fn val_ok(v: Val, n: nat) -> bool {
    v matches Val::Temp(i) ==> i < n
}

pub open spec fn vals_ok(vs: Seq<Val>, n: nat) -> bool {
    forall|i: int| 0 <= i < vs.len() ==> val_ok(#[trigger] vs[i], n)
}

pub open spec fn guards_ok(gs: Seq<(Val, Polarity)>, n: nat) -> bool {
    forall|i: int| 0 <= i < gs.len() ==> val_ok((#[trigger] gs[i]).0, n)
}

pub open spec fn inst_ok(inst: AxiomInst, n: nat) -> bool {
    match inst {
        AxiomInst::Val(p) => match p {
            AxiomPure::Binary(_, l, r) => val_ok(l, n) && val_ok(r, n),
            AxiomPure::Ternary(c, t, e) => val_ok(c, n) && val_ok(t, n) && val_ok(e, n),
            AxiomPure::RealCast(v) => val_ok(v, n),
            AxiomPure::App { func, type_args, args } => vals_ok(args@, n),
        },
        AxiomInst::Assume(v) => val_ok(v, n),
        AxiomInst::Forall { recipe, caps } => vals_ok(caps@, n),
        AxiomInst::Token { func, args, guards } => vals_ok(args@, n) && guards_ok(guards@, n),
    }
}

/// The number of slots after instructions that start with `n`.
pub open spec fn slots(insts: Seq<AxiomInst>, n: nat) -> nat
    decreases insts.len(),
{
    if insts.len() == 0 {
        n
    } else {
        let before = slots(insts.drop_last(), n);
        match insts.last() {
            AxiomInst::Val(_) => before + 1,
            AxiomInst::Forall { recipe, caps } => before + 1,
            _ => before,
        }
    }
}

/// Every instruction names only slots that were filled before it.
pub open spec fn insts_ok(insts: Seq<AxiomInst>, n: nat) -> bool {
    forall|i: int|
        0 <= i < insts.len() ==> inst_ok(#[trigger] insts[i], slots(insts.take(i), n))
}

pub proof fn lemma_slots(insts: Seq<AxiomInst>, seed: Seq<Tm>)
    ensures
        inst_vals(insts, seed).len() == slots(insts, seed.len()),
    decreases insts.len(),
{
    if insts.len() > 0 {
        lemma_slots(insts.drop_last(), seed);
    }
}

/// The class of an operand.
pub(crate) fn resolve_val(
    g: &mut Graph,
    vals: &Vec<Id>,
    v: &Val,
    Ghost(ts): Ghost<Seq<Tm>>,
) -> (r: Id)
    requires
        old(g).wf(),
        denote_all(*old(g), vals@, ts),
        val_ok(*v, vals@.len()),
    ensures
        built(*old(g), *final(g), r, val_tm(ts, *v)),
        tied(r, val_tm(ts, *v)),
{
    match v {
        Val::Temp(n) => {
            proof {
                lemma_grows_refl(*g);
                assert(g.has(vals@[*n as int]));
            }
            vals[*n]
        },
        Val::Literal(l) => g.literal(l),
    }
}

/// The classes of operands.
pub(crate) fn resolve_vals(
    g: &mut Graph,
    vals: &Vec<Id>,
    vs: &Vec<Val>,
    Ghost(ts): Ghost<Seq<Tm>>,
) -> (r: Vec<Id>)
    requires
        old(g).wf(),
        denote_all(*old(g), vals@, ts),
        vals_ok(vs@, vals@.len()),
    ensures
        extended(*old(g), *final(g)),
        denote_all(*final(g), r@, val_tms(ts, vs@)),
{
    let ghost g0 = *g;
    let mut out: Vec<Id> = Vec::new();
    let mut i: usize = 0;
    proof {
        lemma_grows_refl(g0);
    }
    while i < vs.len()
        invariant
            i <= vs@.len(),
            g.wf(),
            g0.grows_to(*g),
            keeps_classes(g0, *g),
            g.facts() == g0.facts(),
            denote_all(g0, vals@, ts),
            vals_ok(vs@, vals@.len()),
            denote_all(*g, out@, val_tms(ts, vs@.take(i as int))),
        decreases vs.len() - i,
    {
        let ghost before = *g;
        let ghost had = out@;
        proof {
            lemma_grows_denote_all(g0, *g, vals@, ts);
            assert(val_ok(vs@[i as int], vals@.len()));
        }
        let id = resolve_val(g, vals, &vs[i], Ghost(ts));
        proof {
            crate::terms::lemma_grows_trans(g0, before, *g);
            lemma_keeps_trans(g0, before, *g);
            lemma_grows_denote_all(before, *g, had, val_tms(ts, vs@.take(i as int)));
            lemma_denote_push(*g, had, val_tms(ts, vs@.take(i as int)), id, val_tm(ts, vs@[i as int]));
            assert(val_tms(ts, vs@.take(i + 1)) =~= val_tms(ts, vs@.take(i as int)).push(
                val_tm(ts, vs@[i as int]),
            ));
        }
        out.push(id);
        i += 1;
    }
    proof {
        assert(vs@.take(vs@.len() as int) =~= vs@);
    }
    out
}

pub proof fn lemma_denote_push(g: Graph, ids: Seq<Id>, ts: Seq<Tm>, id: Id, t: Tm)
    requires
        denote_all(g, ids, ts),
        g.has(id),
        g.denotes(id, t),
        tied(id, t),
    ensures
        denote_all(g, ids.push(id), ts.push(t)),
{
    let a = ids.push(id);
    let b = ts.push(t);
    assert forall|j: int| 0 <= j < a.len() implies g.has(#[trigger] a[j]) && g.denotes(
        a[j],
        b[j],
    ) && tied(a[j], b[j]) by {
        if j < ids.len() {
            assert(a[j] == ids[j]);
        }
    }
}

/// The class of `guards ==> inner`, the guards being operands.
pub(crate) fn fold_guards(
    g: &mut Graph,
    vals: &Vec<Id>,
    guards: &Vec<(Val, Polarity)>,
    inner: Id,
    Ghost(ts): Ghost<Seq<Tm>>,
    Ghost(t): Ghost<Tm>,
) -> (r: Id)
    requires
        old(g).wf(),
        denote_all(*old(g), vals@, ts),
        guards_ok(guards@, vals@.len()),
        old(g).has(inner),
        old(g).denotes(inner, t),
    ensures
        built(*old(g), *final(g), r, guard_tm(guard_tms(ts, guards@), t)),
        tied(inner, t) ==> tied(r, guard_tm(guard_tms(ts, guards@), t)),
{
    broadcast use group_grows;

    let ghost g0 = *g;
    let mut out: Vec<(Id, Polarity)> = Vec::new();
    let mut i: usize = 0;
    proof {
        lemma_grows_refl(g0);
        assert(guard_tms(ts, guards@).take(0) =~= Seq::empty());
    }
    while i < guards.len()
        invariant
            i <= guards@.len(),
            g.wf(),
            g0.grows_to(*g),
            keeps_classes(g0, *g),
            g.facts() == g0.facts(),
            denote_all(g0, vals@, ts),
            guards_ok(guards@, vals@.len()),
            guards_denote(*g, out@, guard_tms(ts, guards@).take(i as int)),
        decreases guards.len() - i,
    {
        let ghost before = *g;
        let ghost had = out@;
        let ghost all = guard_tms(ts, guards@);
        proof {
            lemma_grows_denote_all(g0, *g, vals@, ts);
            assert(val_ok(guards@[i as int].0, vals@.len()));
        }
        let id = resolve_val(g, vals, &guards[i].0, Ghost(ts));
        proof {
            lemma_keeps_trans(g0, before, *g);
            assert forall|j: int| 0 <= j < i implies g.has((#[trigger] had[j]).0) && g.denotes(
                had[j].0,
                all[j].0,
            ) && had[j].1 == all[j].1 by {
                assert(all.take(i as int)[j] == all[j]);
                lemma_grows_denotes(before, *g, had[j].0, all[j].0);
            }
        }
        out.push((id, guards[i].1));
        proof {
            assert forall|j: int| 0 <= j < out@.len() implies g.has((#[trigger] out@[j]).0)
                && g.denotes(out@[j].0, all.take(i + 1)[j].0) && out@[j].1 == all.take(i + 1)[j].1 by {
                if j < i {
                    assert(out@[j] == had[j]);
                }
            }
        }
        i += 1;
    }
    let ghost before = *g;
    proof {
        let all = guard_tms(ts, guards@);
        assert(all.take(guards@.len() as int) =~= all);
        lemma_grows_denotes(g0, *g, inner, t);
    }
    let r = fold_guards_of(g, &out, inner, Ghost(guard_tms(ts, guards@)), Ghost(t));
    proof {
        lemma_keeps_trans(g0, before, *g);
    }
    r
}

/// Equates two classes that denote terms, and notes the class where that was news.
pub(crate) fn equate(
    g: &mut Graph,
    a: Id,
    b: Id,
    Ghost(ta): Ghost<Tm>,
    Ghost(tb): Ghost<Tm>,
    changed: &mut Vec<Id>,
)
    requires
        old(g).wf(),
        spelled(*old(g), a, ta),
        spelled(*old(g), b, tb),
    ensures
        asserted(*old(g), *final(g), seq![(ta, tb)]),
        old(changed)@.is_prefix_of(final(changed)@),
        old(changed)@.len() == final(changed)@.len() ==> keeps_classes(*old(g), *final(g)),
        old(changed)@.len() != final(changed)@.len() ==> merges(*old(g), *final(g)),
{
    let ghost g0 = *g;
    let news = g.state(a, b, Ghost(ta), Ghost(tb));
    if news {
        changed.push(g.find(a));
    }
    proof {
        assert(g0.facts().push((ta, tb)) =~= g0.facts() + seq![(ta, tb)]);
        if news {
            assert(crate::rewrite::pins::merged_ids(g0, *g, a, b));
        }
        if !g.full() {
            reveal(all_merged);
            lemma_spelled_later(g0, *g, a, ta);
            lemma_spelled_later(g0, *g, b, tb);
            let f = (ta, tb);
            assert(spelled(*g, a, f.0) && spelled(*g, b, f.1));
            assert(g.canon(a) == g.canon(b));
            assert(merged(*g, f));
            assert(seq![f][0] == f);
        }
    }
}

/// Equates a class with `true`.
pub(crate) fn release(g: &mut Graph, id: Id, Ghost(t): Ghost<Tm>, changed: &mut Vec<Id>)
    requires
        old(g).wf(),
        spelled(*old(g), id, t),
    ensures
        asserted(*old(g), *final(g), seq![(t, t_bool(true))]),
        old(changed)@.is_prefix_of(final(changed)@),
        old(changed)@.len() == final(changed)@.len() ==> keeps_classes(*old(g), *final(g)),
        old(changed)@.len() != final(changed)@.len() ==> merges(*old(g), *final(g)),
{
    broadcast use group_grows;

    let ghost g0 = *g;
    let yes = g.boolean(true);
    let ghost g1 = *g;
    equate(g, id, yes, Ghost(t), Ghost(t_bool(true)), changed);
    proof {
        lemma_extended_asserted(g0, g1);
        lemma_asserted_trans(g0, g1, *g, Seq::empty(), seq![(t, t_bool(true))]);
        assert(Seq::<(Tm, Tm)>::empty() + seq![(t, t_bool(true))] =~= seq![(t, t_bool(true))]);
        if old(changed)@.len() == changed@.len() {
            lemma_keeps_trans(g0, g1, *g);
        }
    }
}

/// The class of a term behind a gate, if there is one.
pub(crate) fn gate_of(
    g: &mut Graph,
    gate: Option<Id>,
    id: Id,
    Ghost(tg): Ghost<Option<Tm>>,
    Ghost(t): Ghost<Tm>,
) -> (r: Id)
    requires
        old(g).wf(),
        old(g).has(id),
        old(g).denotes(id, t),
        gate is Some == tg is Some,
        gate matches Some(c) ==> old(g).has(c) && old(g).denotes(c, tg.unwrap()),
    ensures
        built(*old(g), *final(g), r, gated(tg, t)),
        tied(id, t) ==> tied(r, gated(tg, t)),
{
    broadcast use group_grows;

    let ghost g0 = *g;
    match gate {
        Some(c) => {
            let yes = g.boolean(true);
            let ghost g1 = *g;
            let r = g.ite_of(c, id, yes, Ghost(tg.unwrap()), Ghost(t), Ghost(t_bool(true)));
            proof {
                lemma_keeps_trans(g0, g1, *g);
            }
            r
        },
        None => {
            proof {
                lemma_grows_refl(g0);
            }
            id
        },
    }
}

/// The class of a pure step.
pub(crate) fn pure_step(
    g: &mut Graph,
    p: &AxiomPure,
    vals: &Vec<Id>,
    Ghost(ts): Ghost<Seq<Tm>>,
) -> (r: Id)
    requires
        old(g).wf(),
        denote_all(*old(g), vals@, ts),
        inst_ok(AxiomInst::Val(*p), vals@.len()),
    ensures
        built(*old(g), *final(g), r, pure_tm(ts, *p)),
        tied(r, pure_tm(ts, *p)),
{
    broadcast use group_grows;

    let ghost g0 = *g;
    match p {
        AxiomPure::Binary(op, l, r) => {
            let a = resolve_val(g, vals, l, Ghost(ts));
            let ghost g1 = *g;
            proof {
                lemma_grows_denote_all(g0, g1, vals@, ts);
            }
            let b = resolve_val(g, vals, r, Ghost(ts));
            let ghost g2 = *g;
            let id = g.binary_of(*op, a, b, Ghost(val_tm(ts, *l)), Ghost(val_tm(ts, *r)));
            proof {
                lemma_keeps_trans(g0, g1, g2);
                lemma_keeps_trans(g0, g2, *g);
            }
            id
        },
        AxiomPure::Ternary(c, t, e) => {
            let a = resolve_val(g, vals, c, Ghost(ts));
            let ghost g1 = *g;
            proof {
                lemma_grows_denote_all(g0, g1, vals@, ts);
            }
            let b = resolve_val(g, vals, t, Ghost(ts));
            let ghost g2 = *g;
            proof {
                lemma_grows_denote_all(g0, g2, vals@, ts);
            }
            let d = resolve_val(g, vals, e, Ghost(ts));
            let ghost g3 = *g;
            let id = g.ite_of(
                a,
                b,
                d,
                Ghost(val_tm(ts, *c)),
                Ghost(val_tm(ts, *t)),
                Ghost(val_tm(ts, *e)),
            );
            proof {
                lemma_keeps_trans(g0, g1, g2);
                lemma_keeps_trans(g0, g2, g3);
                lemma_keeps_trans(g0, g3, *g);
            }
            id
        },
        AxiomPure::RealCast(v) => {
            let a = resolve_val(g, vals, v, Ghost(ts));
            let ghost g1 = *g;
            let n = Symbolic::RealCast(a);
            proof {
                assert forall|j: int| 0 <= j < n@.args.len() implies g.has(#[trigger] n@.args[j])
                    && g.denotes(n@.args[j], seq![val_tm(ts, *v)][j]) && tied(
                    n@.args[j],
                    seq![val_tm(ts, *v)][j],
                ) by {}
            }
            let ghost one = seq![val_tm(ts, *v)];
            let id = g.apply_of(&n, Ghost(one));
            proof {
                lemma_keeps_trans(g0, g1, *g);
            }
            id
        },
        AxiomPure::App { func, type_args, args } => {
            let ids = resolve_vals(g, vals, args, Ghost(ts));
            let ghost g1 = *g;
            let n = Symbolic::FuncApp(*func, clone_types(type_args), ids);
            let id = g.apply_of(&n, Ghost(val_tms(ts, args@)));
            proof {
                lemma_keeps_trans(g0, g1, *g);
            }
            id
        },
    }
}

/// Builds an instance of a body: the class of each slot, seeded with `vals_seed`.
/// What the body assumes is asserted; a token it carries is released behind the
/// gate, if there is one.
#[verifier::rlimit(60)]
#[verifier::spinoff_prover]
pub(crate) fn build_instance_vals_of(
    g: &mut Graph,
    insts: &Vec<AxiomInst>,
    vals_seed: &Vec<Id>,
    changed: &mut Vec<Id>,
    token_guard: Option<Id>,
    Ghost(seed): Ghost<Seq<Tm>>,
    Ghost(gate): Ghost<Option<Tm>>,
) -> (vals: Vec<Id>)
    requires
        old(g).wf(),
        denote_all(*old(g), vals_seed@, seed),
        insts_ok(insts@, vals_seed@.len()),
        token_guard is Some == gate is Some,
        token_guard matches Some(c) ==> old(g).has(c) && old(g).denotes(c, gate.unwrap()),
    ensures
        asserted(*old(g), *final(g), inst_facts(insts@, seed, gate)),
        denote_all(*final(g), vals@, inst_vals(insts@, seed)),
        vals_seed@.is_prefix_of(vals@),
        old(changed)@.is_prefix_of(final(changed)@),
        old(changed)@.len() == final(changed)@.len() ==> keeps_classes(*old(g), *final(g)),
        old(changed)@.len() != final(changed)@.len() ==> merges(*old(g), *final(g)),
{
    let ghost g0 = *g;
    let ghost was = changed@;
    let ghost c0 = changed@.len();
    let mut vals = copy_ids(vals_seed);
    let mut i: usize = 0;
    proof {
        lemma_grows_refl(g0);
        lemma_extended_asserted(g0, g0);
        assert(insts@.take(0) =~= Seq::empty());
    }
    while i < insts.len()
        invariant
            i <= insts@.len(),
            g0.wf(),
            g.wf(),
            insts_ok(insts@, seed.len()),
            token_guard is Some == gate is Some,
            token_guard matches Some(c) ==> g0.has(c) && g0.denotes(c, gate.unwrap()),
            asserted(g0, *g, inst_facts(insts@.take(i as int), seed, gate)),
            denote_all(*g, vals@, inst_vals(insts@.take(i as int), seed)),
            vals_seed@.is_prefix_of(vals@),
            c0 <= changed@.len(),
            was.is_prefix_of(changed@),
            c0 == changed@.len() ==> keeps_classes(g0, *g),
            c0 != changed@.len() ==> merges(g0, *g),
        decreases insts.len() - i,
    {
        let ghost before = *g;
        let ghost done = insts@.take(i as int);
        let ghost c1 = changed@.len();
        proof {
            lemma_slots(done, seed);
            assert(inst_ok(insts@[i as int], slots(insts@.take(i as int), seed.len())));
            if token_guard is Some {
                lemma_grows_denotes(g0, before, token_guard.unwrap(), gate.unwrap());
            }
        }
        build_step(g, &insts[i], &mut vals, changed, token_guard, Ghost(inst_vals(done, seed)), Ghost(gate));
        proof {
            assert(insts@.take(i + 1).drop_last() =~= done);
            assert(insts@.take(i + 1).last() == insts@[i as int]);
            lemma_asserted_trans(
                g0,
                before,
                *g,
                inst_facts(done, seed, gate),
                inst_fact(insts@[i as int], inst_vals(done, seed), gate),
            );
            if c0 == changed@.len() {
                lemma_keeps_trans(g0, before, *g);
            }
        }
        i += 1;
    }
    proof {
        assert(insts@.take(insts@.len() as int) =~= insts@);
    }
    vals
}

/// What the slots hold after one more instruction.
pub open spec fn step_vals(inst: AxiomInst, vals: Seq<Tm>) -> Seq<Tm> {
    match inst {
        AxiomInst::Val(p) => vals.push(pure_tm(vals, p)),
        AxiomInst::Forall { recipe, caps } => vals.push(
            Tm::App(OpV::Forall(recipe), val_tms(vals, caps@)),
        ),
        _ => vals,
    }
}

/// Builds one instruction.
fn build_step(
    g: &mut Graph,
    inst: &AxiomInst,
    vals: &mut Vec<Id>,
    changed: &mut Vec<Id>,
    token_guard: Option<Id>,
    Ghost(ts): Ghost<Seq<Tm>>,
    Ghost(gate): Ghost<Option<Tm>>,
)
    requires
        old(g).wf(),
        denote_all(*old(g), old(vals)@, ts),
        inst_ok(*inst, old(vals)@.len()),
        token_guard is Some == gate is Some,
        token_guard matches Some(c) ==> old(g).has(c) && old(g).denotes(c, gate.unwrap()),
    ensures
        asserted(*old(g), *final(g), inst_fact(*inst, ts, gate)),
        denote_all(*final(g), final(vals)@, step_vals(*inst, ts)),
        old(vals)@.is_prefix_of(final(vals)@),
        old(changed)@.is_prefix_of(final(changed)@),
        old(changed)@.len() == final(changed)@.len() ==> keeps_classes(*old(g), *final(g)),
        old(changed)@.len() != final(changed)@.len() ==> merges(*old(g), *final(g)),
{
    let ghost g0 = *g;
    let ghost had = vals@;
    match inst {
        AxiomInst::Val(p) => {
            let id = pure_step(g, p, vals, Ghost(ts));
            proof {
                lemma_extended_asserted(g0, *g);
                lemma_grows_denote_all(g0, *g, had, ts);
                lemma_denote_push(*g, had, ts, id, pure_tm(ts, *p));
            }
            vals.push(id);
        },
        AxiomInst::Assume(v) => {
            let id = resolve_val(g, vals, v, Ghost(ts));
            let ghost g1 = *g;
            let ghost fact = seq![(val_tm(ts, *v), t_bool(true))];
            release(g, id, Ghost(val_tm(ts, *v)), changed);
            proof {
                lemma_extended_asserted(g0, g1);
                lemma_asserted_trans(g0, g1, *g, Seq::empty(), fact);
                assert(Seq::<(Tm, Tm)>::empty() + fact =~= fact);
                lemma_grows_denote_all(g0, *g, had, ts);
                if old(changed)@.len() == changed@.len() {
                    lemma_keeps_trans(g0, g1, *g);
                }
            }
        },
        AxiomInst::Forall { recipe, caps } => {
            let ids = resolve_vals(g, vals, caps, Ghost(ts));
            let ghost g1 = *g;
            let n = Symbolic::Forall(*recipe, ids);
            let ghost t = Tm::App(OpV::Forall(*recipe), val_tms(ts, caps@));
            let id = g.apply_of(&n, Ghost(val_tms(ts, caps@)));
            proof {
                crate::terms::lemma_grows_trans(g0, g1, *g);
                lemma_keeps_trans(g0, g1, *g);
                lemma_extended_asserted(g0, *g);
                lemma_grows_denote_all(g0, *g, had, ts);
                lemma_denote_push(*g, had, ts, id, t);
            }
            vals.push(id);
        },
        AxiomInst::Token { func, args, guards } => {
            token_step(g, *func, args, guards, vals, changed, token_guard, Ghost(ts), Ghost(gate));
            proof {
                lemma_grows_denote_all(g0, *g, had, ts);
            }
        },
    }
}

/// Releases a token behind its guards and its gating class.
fn token_step(
    g: &mut Graph,
    func: FuncId,
    args: &Vec<Val>,
    guards: &Vec<(Val, Polarity)>,
    vals: &Vec<Id>,
    changed: &mut Vec<Id>,
    token_guard: Option<Id>,
    Ghost(ts): Ghost<Seq<Tm>>,
    Ghost(gate): Ghost<Option<Tm>>,
)
    requires
        old(g).wf(),
        denote_all(*old(g), vals@, ts),
        vals_ok(args@, vals@.len()),
        guards_ok(guards@, vals@.len()),
        token_guard is Some == gate is Some,
        token_guard matches Some(c) ==> old(g).has(c) && old(g).denotes(c, gate.unwrap()),
    ensures
        asserted(
            *old(g),
            *final(g),
            seq![
                (
                    gated(
                        gate,
                        guard_tm(
                            guard_tms(ts, guards@),
                            Tm::App(OpV::FuncApp(func, Seq::empty()), val_tms(ts, args@)),
                        ),
                    ),
                    t_bool(true),
                ),
            ],
        ),
        old(changed)@.is_prefix_of(final(changed)@),
        old(changed)@.len() == final(changed)@.len() ==> keeps_classes(*old(g), *final(g)),
        old(changed)@.len() != final(changed)@.len() ==> merges(*old(g), *final(g)),
{
    let ghost g0 = *g;
    let ids = resolve_vals(g, vals, args, Ghost(ts));
    let ghost g1 = *g;
    let no_types: Vec<Type> = Vec::new();
    let n = Symbolic::FuncApp(func, no_types, ids);
    let ghost tok_tm = Tm::App(OpV::FuncApp(func, Seq::empty()), val_tms(ts, args@));
    proof {
        assert(types_view(no_types@) =~= Seq::<TypeV>::empty());
    }
    let tok = g.apply_of(&n, Ghost(val_tms(ts, args@)));
    let ghost g2 = *g;
    proof {
        crate::terms::lemma_grows_trans(g0, g1, g2);
        lemma_keeps_trans(g0, g1, g2);
        lemma_extended_asserted(g0, g2);
        lemma_grows_denote_all(g0, g2, vals@, ts);
        if token_guard is Some {
            lemma_grows_denotes(g0, g2, token_guard.unwrap(), gate.unwrap());
        }
    }
    release_guarded(g, tok, guards, vals, changed, token_guard, Ghost(ts), Ghost(gate), Ghost(tok_tm));
    proof {
        let t = gated(gate, guard_tm(guard_tms(ts, guards@), tok_tm));
        let fact = seq![(t, t_bool(true))];
        lemma_asserted_trans(g0, g2, *g, Seq::empty(), fact);
        assert(Seq::<(Tm, Tm)>::empty() + fact =~= fact);
        if old(changed)@.len() == changed@.len() {
            lemma_keeps_trans(g0, g2, *g);
        }
    }
}

/// Equates `guards ==> id`, behind a gating class if there is one, with `true`.
pub(crate) fn release_guarded(
    g: &mut Graph,
    id: Id,
    guards: &Vec<(Val, Polarity)>,
    vals: &Vec<Id>,
    changed: &mut Vec<Id>,
    token_guard: Option<Id>,
    Ghost(ts): Ghost<Seq<Tm>>,
    Ghost(gate): Ghost<Option<Tm>>,
    Ghost(t): Ghost<Tm>,
)
    requires
        old(g).wf(),
        denote_all(*old(g), vals@, ts),
        guards_ok(guards@, vals@.len()),
        spelled(*old(g), id, t),
        token_guard is Some == gate is Some,
        token_guard matches Some(c) ==> old(g).has(c) && old(g).denotes(c, gate.unwrap()),
    ensures
        asserted(
            *old(g),
            *final(g),
            seq![(gated(gate, guard_tm(guard_tms(ts, guards@), t)), t_bool(true))],
        ),
        old(changed)@.is_prefix_of(final(changed)@),
        old(changed)@.len() == final(changed)@.len() ==> keeps_classes(*old(g), *final(g)),
        old(changed)@.len() != final(changed)@.len() ==> merges(*old(g), *final(g)),
{
    let ghost g0 = *g;
    let ghost inner = guard_tm(guard_tms(ts, guards@), t);
    let guarded = fold_guards(g, vals, guards, id, Ghost(ts), Ghost(t));
    let ghost g1 = *g;
    proof {
        if token_guard is Some {
            lemma_grows_denotes(g0, g1, token_guard.unwrap(), gate.unwrap());
        }
    }
    let rel = gate_of(g, token_guard, guarded, Ghost(gate), Ghost(inner));
    let ghost g2 = *g;
    release(g, rel, Ghost(gated(gate, inner)), changed);
    proof {
        let fact = seq![(gated(gate, inner), t_bool(true))];
        crate::terms::lemma_grows_trans(g0, g1, g2);
        lemma_keeps_trans(g0, g1, g2);
        lemma_extended_asserted(g0, g2);
        lemma_asserted_trans(g0, g2, *g, Seq::empty(), fact);
        assert(Seq::<(Tm, Tm)>::empty() + fact =~= fact);
        if old(changed)@.len() == changed@.len() {
            lemma_keeps_trans(g0, g2, *g);
        }
    }
}

/// What releasing token steps asserts.
pub open spec fn token_facts(
    vals: Seq<Tm>,
    steps: Seq<TokenStep>,
    gate: Option<Tm>,
) -> Seq<(Tm, Tm)> {
    Seq::new(
        steps.len(),
        |i: int|
            (
                gated(
                    gate,
                    guard_tm(guard_tms(vals, steps[i].guards@), val_tm(vals, steps[i].token)),
                ),
                t_bool(true),
            ),
    )
}

pub open spec fn steps_ok(steps: Seq<TokenStep>, n: nat) -> bool {
    forall|i: int|
        0 <= i < steps.len() ==> val_ok((#[trigger] steps[i]).token, n) && guards_ok(
            steps[i].guards@,
            n,
        )
}

/// Releases the tokens that an instance holds in its slots.
pub(crate) fn release_tokens(
    g: &mut Graph,
    steps: &Vec<TokenStep>,
    vals: &Vec<Id>,
    changed: &mut Vec<Id>,
    token_guard: Option<Id>,
    Ghost(ts): Ghost<Seq<Tm>>,
    Ghost(gate): Ghost<Option<Tm>>,
)
    requires
        old(g).wf(),
        denote_all(*old(g), vals@, ts),
        steps_ok(steps@, vals@.len()),
        token_guard is Some == gate is Some,
        token_guard matches Some(c) ==> old(g).has(c) && old(g).denotes(c, gate.unwrap()),
    ensures
        asserted(*old(g), *final(g), token_facts(ts, steps@, gate)),
        old(changed)@.is_prefix_of(final(changed)@),
        old(changed)@.len() == final(changed)@.len() ==> keeps_classes(*old(g), *final(g)),
        old(changed)@.len() != final(changed)@.len() ==> merges(*old(g), *final(g)),
{
    let ghost g0 = *g;
    let ghost was = changed@;
    let ghost c0 = changed@.len();
    let mut i: usize = 0;
    proof {
        lemma_grows_refl(g0);
        lemma_extended_asserted(g0, g0);
        assert(token_facts(ts, steps@, gate).take(0) =~= Seq::empty());
    }
    while i < steps.len()
        invariant
            i <= steps@.len(),
            g0.wf(),
            g.wf(),
            denote_all(g0, vals@, ts),
            steps_ok(steps@, vals@.len()),
            token_guard is Some == gate is Some,
            token_guard matches Some(c) ==> g0.has(c) && g0.denotes(c, gate.unwrap()),
            asserted(g0, *g, token_facts(ts, steps@, gate).take(i as int)),
            c0 <= changed@.len(),
            was.is_prefix_of(changed@),
            c0 == changed@.len() ==> keeps_classes(g0, *g),
            c0 != changed@.len() ==> merges(g0, *g),
        decreases steps.len() - i,
    {
        let ghost before = *g;
        let ghost all = token_facts(ts, steps@, gate);
        let ghost t = val_tm(ts, steps@[i as int].token);
        proof {
            lemma_grows_denote_all(g0, before, vals@, ts);
            assert(val_ok(steps@[i as int].token, vals@.len()));
        }
        let tok = resolve_val(g, vals, &steps[i].token, Ghost(ts));
        let ghost g1 = *g;
        proof {
            lemma_grows_denote_all(before, g1, vals@, ts);
            if token_guard is Some {
                lemma_grows_denotes(g0, before, token_guard.unwrap(), gate.unwrap());
                lemma_grows_denotes(before, g1, token_guard.unwrap(), gate.unwrap());
            }
            lemma_extended_asserted(before, g1);
            lemma_asserted_trans(g0, before, g1, all.take(i as int), Seq::empty());
            assert(all.take(i as int) + Seq::<(Tm, Tm)>::empty() =~= all.take(i as int));
        }
        release_guarded(
            g,
            tok,
            &steps[i].guards,
            vals,
            changed,
            token_guard,
            Ghost(ts),
            Ghost(gate),
            Ghost(t),
        );
        proof {
            lemma_asserted_trans(g0, g1, *g, all.take(i as int), seq![all[i as int]]);
            assert(all.take(i + 1) =~= all.take(i as int) + seq![all[i as int]]);
            if c0 == changed@.len() {
                lemma_keeps_trans(g0, before, g1);
                lemma_keeps_trans(g0, g1, *g);
            }
        }
        i += 1;
    }
    proof {
        let all = token_facts(ts, steps@, gate);
        assert(all.take(steps@.len() as int) =~= all);
    }
}

/// Builds an instance of a body over classes, and gives the class of each slot.
pub fn build_instance_vals(
    g: &mut Graph,
    insts: &Vec<AxiomInst>,
    vals_seed: &Vec<Id>,
    changed: &mut Vec<Id>,
) -> (vals: Vec<Id>)
    requires
        old(g).wf(),
        old(g).has_all(vals_seed@),
        insts_ok(insts@, vals_seed@.len()),
    ensures
        asserted(*old(g), *final(g), inst_facts(insts@, t_classes(vals_seed@), None)),
        denote_all(*final(g), vals@, inst_vals(insts@, t_classes(vals_seed@))),
        vals_seed@.is_prefix_of(vals@),
        old(changed)@.is_prefix_of(final(changed)@),
        old(changed)@.len() == final(changed)@.len() ==> keeps_classes(*old(g), *final(g)),
        old(changed)@.len() != final(changed)@.len() ==> merges(*old(g), *final(g)),
{
    build_instance_vals_guarded(g, insts, vals_seed, changed, None)
}

/// Builds an instance of a body over classes, its tokens released behind a gate.
pub fn build_instance_vals_guarded(
    g: &mut Graph,
    insts: &Vec<AxiomInst>,
    vals_seed: &Vec<Id>,
    changed: &mut Vec<Id>,
    token_guard: Option<Id>,
) -> (vals: Vec<Id>)
    requires
        old(g).wf(),
        old(g).has_all(vals_seed@),
        insts_ok(insts@, vals_seed@.len()),
        token_guard matches Some(c) ==> old(g).has(c),
    ensures
        asserted(
            *old(g),
            *final(g),
            inst_facts(insts@, t_classes(vals_seed@), class_gate(token_guard)),
        ),
        denote_all(*final(g), vals@, inst_vals(insts@, t_classes(vals_seed@))),
        vals_seed@.is_prefix_of(vals@),
        old(changed)@.is_prefix_of(final(changed)@),
        old(changed)@.len() == final(changed)@.len() ==> keeps_classes(*old(g), *final(g)),
        old(changed)@.len() != final(changed)@.len() ==> merges(*old(g), *final(g)),
{
    proof {
        lemma_denote_classes(*g, vals_seed@);
        if token_guard is Some {
            lemma_denotes_self(*g, token_guard.unwrap());
        }
    }
    build_instance_vals_of(
        g,
        insts,
        vals_seed,
        changed,
        token_guard,
        Ghost(t_classes(vals_seed@)),
        Ghost(class_gate(token_guard)),
    )
}

/// A gate that is a class.
pub open spec fn class_gate(gate: Option<Id>) -> Option<Tm> {
    match gate {
        Some(c) => Some(Tm::Class(c)),
        None => None,
    }
}

/// Builds an instance of a body over classes, and gives the class of its result.
pub fn build_instance(
    g: &mut Graph,
    insts: &Vec<AxiomInst>,
    res: &Val,
    vals_seed: &Vec<Id>,
    changed: &mut Vec<Id>,
) -> (r: Id)
    requires
        old(g).wf(),
        old(g).has_all(vals_seed@),
        insts_ok(insts@, vals_seed@.len()),
        val_ok(*res, slots(insts@, vals_seed@.len())),
    ensures
        asserted(*old(g), *final(g), inst_facts(insts@, t_classes(vals_seed@), None)),
        final(g).has(r),
        final(g).denotes(r, val_tm(inst_vals(insts@, t_classes(vals_seed@)), *res)),
        old(changed)@.is_prefix_of(final(changed)@),
        old(changed)@.len() == final(changed)@.len() ==> keeps_classes(*old(g), *final(g)),
        old(changed)@.len() != final(changed)@.len() ==> merges(*old(g), *final(g)),
{
    let no_steps: Vec<TokenStep> = Vec::new();
    let no_guards: Vec<(Id, Polarity)> = Vec::new();
    let ghost facts = inst_facts(insts@, t_classes(vals_seed@), None);
    proof {
        let ts = inst_vals(insts@, t_classes(vals_seed@));
        assert(token_facts(ts, no_steps@, None) =~= Seq::empty());
        assert(facts + Seq::<(Tm, Tm)>::empty() =~= facts);
    }
    build_instance_releasing_tokens(g, insts, res, vals_seed, &no_steps, &no_guards, changed)
}

/// Builds an instance of a body over classes, releases the tokens in its slots
/// where the outer guards and their own hold, and gives the class of its result.
/// The outer guards are one conjunction, shared by the tokens.
pub fn build_instance_releasing_tokens(
    g: &mut Graph,
    insts: &Vec<AxiomInst>,
    res: &Val,
    vals_seed: &Vec<Id>,
    token_steps: &Vec<TokenStep>,
    outer: &Vec<(Id, Polarity)>,
    changed: &mut Vec<Id>,
) -> (r: Id)
    requires
        old(g).wf(),
        old(g).has_all(vals_seed@),
        insts_ok(insts@, vals_seed@.len()),
        val_ok(*res, slots(insts@, vals_seed@.len())),
        steps_ok(token_steps@, slots(insts@, vals_seed@.len())),
        forall|i: int| 0 <= i < outer@.len() ==> old(g).has((#[trigger] outer@[i]).0),
    ensures
        asserted(
            *old(g),
            *final(g),
            inst_facts(insts@, t_classes(vals_seed@), None) + token_facts(
                inst_vals(insts@, t_classes(vals_seed@)),
                token_steps@,
                if outer@.len() == 0 {
                    None
                } else {
                    Some(cube_tm(class_guards(outer@)))
                },
            ),
        ),
        final(g).has(r),
        final(g).denotes(r, val_tm(inst_vals(insts@, t_classes(vals_seed@)), *res)),
        old(changed)@.is_prefix_of(final(changed)@),
        old(changed)@.len() == final(changed)@.len() ==> keeps_classes(*old(g), *final(g)),
        old(changed)@.len() != final(changed)@.len() ==> merges(*old(g), *final(g)),
{
    let ghost g0 = *g;
    let ghost c0 = changed@.len();
    let ghost ts = inst_vals(insts@, t_classes(vals_seed@));
    let ghost gate = if outer@.len() == 0 {
        None
    } else {
        Some(cube_tm(class_guards(outer@)))
    };
    let ghost first = inst_facts(insts@, t_classes(vals_seed@), None);
    let ghost second = token_facts(ts, token_steps@, gate);
    let vals = build_instance_vals(g, insts, vals_seed, changed);
    let ghost g1 = *g;
    proof {
        lemma_slots(insts@, t_classes(vals_seed@));
    }
    if token_steps.len() > 0 {
        let cube = cube_id(g, outer);
        let ghost g2 = *g;
        proof {
            if cube is None {
                lemma_grows_refl(g1);
            }
            lemma_extended_asserted(g1, g2);
            lemma_asserted_trans(g0, g1, g2, first, Seq::empty());
            assert(first + Seq::<(Tm, Tm)>::empty() =~= first);
            lemma_grows_denote_all(g1, g2, vals@, ts);
        }
        release_tokens(g, token_steps, &vals, changed, cube, Ghost(ts), Ghost(gate));
        proof {
            lemma_asserted_trans(g0, g2, *g, first, second);
            lemma_grows_denote_all(g2, *g, vals@, ts);
            if c0 == changed@.len() {
                lemma_keeps_trans(g0, g1, g2);
                lemma_keeps_trans(g0, g2, *g);
            }
        }
    } else {
        proof {
            assert(second =~= Seq::empty());
            assert(first + second =~= first);
        }
    }
    let ghost g3 = *g;
    let r = resolve_val(g, &vals, res, Ghost(ts));
    proof {
        lemma_extended_asserted(g3, *g);
        lemma_asserted_trans(g0, g3, *g, first + second, Seq::empty());
        assert((first + second) + Seq::<(Tm, Tm)>::empty() =~= first + second);
        if c0 == changed@.len() {
            lemma_keeps_trans(g0, g3, *g);
        }
    }
    r
}

} // verus!
