//! What quantifiers mean: what their instances say of the values that are bound.

use crate::lang::{Id, RecipeId};
use crate::meaning::values::{
    computes, hold_values, lemma_cast, lemma_operates, operand, operates, picked,
};
use crate::method::run::pures;
use crate::model::{
    equation_holds, lemma_tm_bin, lemma_tm_ite, lemma_tm_lit, t_bool, t_classes, tm_value,
    tms_value, Model, Tm,
};
use crate::program::{Forall, Inst, InstKind, PureInst};
use crate::quant::{
    all_prepared, compiled, covers, covers_all, covers_insts, entry_at, free_of, inst_renamed,
    insts_renamed, law_free_covers, operands, prepared, renamed, renamed_all, temps_view,
    trigger_views, Entry,
};
use crate::recipes::{guards_view, step_view, steps_view, vals_view, StepV};
use crate::rewrite::gather::all_hold;
use crate::rewrite::instantiate::{instance_facts, quantifies, InstV, QuantRecipe};
use crate::rewrite::recipe::{
    inst_facts, inst_ok, inst_vals, insts_ok, pure_tm, slots, val_ok, val_tm, val_tms, vals_ok,
    AxiomInst, AxiomPure,
};
use crate::vmir::{Val, ValV, Value};
use vstd::prelude::*;

verus! {

/// The value of an operand of a recipe, where its slots hold `y`.
pub open spec fn operand_v(y: Seq<Value>, v: ValV) -> Value {
    match v {
        ValV::Temp(n) => y[n as int],
        ValV::Literal(l) => l,
    }
}

/// What a step of a recipe computes of its slots.
pub open spec fn step_computes(m: Model, y: Seq<Value>, step: StepV, v: Value) -> bool {
    match step {
        StepV::Binary(op, a, b) => operates(m, op, operand_v(y, a), operand_v(y, b), v),
        StepV::Ternary(c, t, e) => picked(operand_v(y, c), operand_v(y, t), operand_v(y, e), v),
        StepV::RealCast(n) => operand_v(y, n) matches Value::Int(k) && v == Value::Real(k as real),
        StepV::App(f, tys, args) => v == (m.func)(
            f,
            tys,
            Seq::new(args.len(), |i: int| operand_v(y, args[i])),
        ),
        StepV::Forall(r, caps) => v == Value::Bool(
            (m.quant)(r, Seq::new(caps.len(), |i: int| operand_v(y, caps[i]))),
        ),
        StepV::Assume(_) | StepV::Token(_, _, _) => true,
    }
}

/// The values that steps leave: none for an assumption or a token.
pub open spec fn yields(steps: Seq<StepV>) -> nat
    decreases steps.len(),
{
    if steps.len() == 0 {
        0
    } else {
        yields(steps.drop_last()) + match steps.last() {
            StepV::Assume(_) | StepV::Token(_, _, _) => 0nat,
            _ => 1nat,
        }
    }
}

/// Slots that hold what steps compute, after `n` that are given.
pub open spec fn steps_run(m: Model, steps: Seq<StepV>, y: Seq<Value>, n: nat) -> bool {
    &&& y.len() == n + yields(steps)
    &&& forall|i: int|
        0 <= i < steps.len() ==> step_computes(
            m,
            y,
            #[trigger] steps[i],
            y[(n + yields(steps.take(i))) as int],
        )
}

pub proof fn lemma_yields(insts: Seq<AxiomInst>, n: nat)
    ensures
        n + yields(steps_view(insts)) == slots(insts, n),
    decreases insts.len(),
{
    if insts.len() > 0 {
        lemma_yields(insts.drop_last(), n);
        assert(steps_view(insts).drop_last() =~= steps_view(insts.drop_last()));
    }
}

pub proof fn lemma_operand_v(m: Model, ts: Seq<Tm>, y: Seq<Value>, v: Val)
    requires
        hold_values(m, ts, y.take(ts.len() as int)),
        ts.len() <= y.len(),
        val_ok(v, ts.len()),
    ensures
        tm_value(m, val_tm(ts, v)) == Some(operand_v(y, v@)),
{
    match v {
        Val::Temp(n) => {
            assert(tm_value(m, ts[n as int]) == Some(y.take(ts.len() as int)[n as int]));
        },
        Val::Literal(l) => {
            lemma_tm_lit(m, l@);
        },
    }
}

pub proof fn lemma_operands_v(m: Model, ts: Seq<Tm>, y: Seq<Value>, vs: Seq<Val>)
    requires
        hold_values(m, ts, y.take(ts.len() as int)),
        ts.len() <= y.len(),
        vals_ok(vs, ts.len()),
    ensures
        tms_value(m, val_tms(ts, vs)) == Some(
            Seq::new(vals_view(vs).len(), |i: int| operand_v(y, vals_view(vs)[i])),
        ),
    decreases vs.len(),
{
    let all = Seq::new(vals_view(vs).len(), |i: int| operand_v(y, vals_view(vs)[i]));
    if vs.len() > 0 {
        let front = vs.drop_last();
        assert forall|i: int| 0 <= i < front.len() implies val_ok(#[trigger] front[i], ts.len()) by {
            assert(front[i] == vs[i]);
        }
        lemma_operands_v(m, ts, y, front);
        assert(val_tms(ts, vs).drop_last() =~= val_tms(ts, front));
        assert(val_ok(vs[vs.len() - 1], ts.len()));
        lemma_operand_v(m, ts, y, vs.last());
        let fs = Seq::new(vals_view(front).len(), |i: int| operand_v(y, vals_view(front)[i]));
        assert(fs.push(operand_v(y, vs.last()@)) =~= all);
    } else {
        assert(all =~= Seq::<Value>::empty());
    }
}

/// The value of the slot that a step fills is what the step computes: an operation of its
/// left and its right operand, a choice of what its condition picks, a call of the values
/// of its arguments.
pub proof fn law_step_value(m: Model, ts: Seq<Tm>, y: Seq<Value>, p: AxiomPure, v: Value)
    requires
        hold_values(m, ts, y.take(ts.len() as int)),
        ts.len() <= y.len(),
        inst_ok(AxiomInst::Val(p), ts.len()),
    ensures
        tm_value(m, pure_tm(ts, p)) == Some(v) <==> step_computes(
            m,
            y,
            step_view(AxiomInst::Val(p)),
            v,
        ),
{
    match p {
        AxiomPure::Binary(op, a, b) => {
            lemma_operand_v(m, ts, y, a);
            lemma_operand_v(m, ts, y, b);
            lemma_tm_bin(m, op, val_tm(ts, a), val_tm(ts, b));
            lemma_operates(m, op, operand_v(y, a@), operand_v(y, b@), v);
        },
        AxiomPure::Ternary(c, t, e) => {
            lemma_operand_v(m, ts, y, c);
            lemma_operand_v(m, ts, y, t);
            lemma_operand_v(m, ts, y, e);
            lemma_tm_ite(m, val_tm(ts, c), val_tm(ts, t), val_tm(ts, e));
        },
        AxiomPure::RealCast(n) => {
            lemma_operand_v(m, ts, y, n);
            lemma_cast(m, val_tm(ts, n));
        },
        AxiomPure::App { func, type_args, args } => {
            lemma_operands_v(m, ts, y, args@);
        },
    }
}

/// Where slots hold what the steps of a recipe compute, the terms of an instance have the
/// values of the slots.
pub proof fn law_steps_values(m: Model, insts: Seq<AxiomInst>, seed: Seq<Tm>, y: Seq<Value>)
    requires
        insts_ok(insts, seed.len()),
        seed.len() <= y.len(),
        hold_values(m, seed, y.take(seed.len() as int)),
        steps_run(m, steps_view(insts), y, seed.len()),
    ensures
        hold_values(m, inst_vals(insts, seed), y),
    decreases insts.len(),
{
    lemma_steps_upto(m, insts, seed, y, insts.len());
    assert(insts.take(insts.len() as int) =~= insts);
    crate::rewrite::recipe::lemma_slots(insts, seed);
    lemma_yields(insts, seed.len());
    assert(y.take(y.len() as int) =~= y);
}

proof fn lemma_slots_rise(insts: Seq<AxiomInst>, i: int, n: nat)
    requires
        0 <= i <= insts.len(),
    ensures
        slots(insts.take(i), n) <= slots(insts, n),
        i < insts.len() && !(insts[i] is Assume || insts[i] is Token) ==> slots(insts.take(i), n)
            < slots(insts, n),
    decreases insts.len() - i,
{
    if i < insts.len() {
        lemma_slots_rise(insts, i + 1, n);
        assert(insts.take(i + 1).drop_last() =~= insts.take(i));
        assert(insts.take(i + 1).last() == insts[i]);
    } else {
        assert(insts.take(i) =~= insts);
    }
}

pub proof fn lemma_steps_upto(m: Model, insts: Seq<AxiomInst>, seed: Seq<Tm>, y: Seq<Value>, k: nat)
    requires
        k <= insts.len(),
        insts_ok(insts, seed.len()),
        seed.len() <= y.len(),
        hold_values(m, seed, y.take(seed.len() as int)),
        steps_run(m, steps_view(insts), y, seed.len()),
    ensures
        inst_vals(insts.take(k as int), seed).len() <= y.len(),
        hold_values(
            m,
            inst_vals(insts.take(k as int), seed),
            y.take(inst_vals(insts.take(k as int), seed).len() as int),
        ),
    decreases k,
{
    let now = insts.take(k as int);
    if k == 0 {
        assert(now =~= Seq::empty());
    } else {
        let i = k - 1;
        lemma_steps_upto(m, insts, seed, y, i as nat);
        let before = insts.take(i);
        assert(now.drop_last() =~= before);
        assert(now.last() == insts[i]);
        let ts = inst_vals(before, seed);
        crate::rewrite::recipe::lemma_slots(before, seed);
        crate::rewrite::recipe::lemma_slots(now, seed);
        lemma_yields(before, seed.len());
        lemma_yields(insts, seed.len());
        lemma_slots_rise(insts, i, seed.len());
        lemma_slots_rise(insts, k as int, seed.len());
        assert(steps_view(insts).take(i) =~= steps_view(before));
        let at = ts.len() as int;
        assert(step_computes(m, y, steps_view(insts)[i], y[at]));
        assert(inst_ok(insts[i], slots(insts.take(i), seed.len())));
        let after = inst_vals(now, seed);
        match insts[i] {
            AxiomInst::Val(p) => {
                law_step_value(m, ts, y, p, y[at]);
                assert(after == ts.push(pure_tm(ts, p)));
                lemma_hold_push(m, ts, pure_tm(ts, p), y);
            },
            AxiomInst::Forall { recipe, caps } => {
                lemma_operands_v(m, ts, y, caps@);
                let t = Tm::App(crate::lang::OpV::Forall(recipe), val_tms(ts, caps@));
                assert(tm_value(m, t) == Some(y[at]));
                assert(after == ts.push(t));
                lemma_hold_push(m, ts, t, y);
            },
            _ => {},
        }
    }
}

proof fn lemma_hold_push(m: Model, ts: Seq<Tm>, t: Tm, y: Seq<Value>)
    requires
        ts.len() < y.len(),
        hold_values(m, ts, y.take(ts.len() as int)),
        tm_value(m, t) == Some(y[ts.len() as int]),
    ensures
        hold_values(m, ts.push(t), y.take((ts.len() + 1) as int)),
{
    let us = ts.push(t);
    assert forall|i: int| 0 <= i < us.len() implies tm_value(m, #[trigger] us[i]) == Some(
        y.take((ts.len() + 1) as int)[i],
    ) by {
        if i < ts.len() {
            assert(us[i] == ts[i]);
            assert(tm_value(m, ts[i]) == Some(y.take(ts.len() as int)[i]));
        }
    }
}

/// Slots that hold what the instructions in the body of a quantifier compute, after `n`
/// that are given. What a quantifier inside it says of the slots that it captures, the
/// model tells.
pub open spec fn body_runs(
    m: Model,
    es: Seq<Entry>,
    insts: Seq<Inst>,
    x: Seq<Value>,
    n: nat,
) -> bool {
    &&& x.len() == n + pures(insts)
    &&& forall|i: int|
        0 <= i < insts.len() ==> inst_runs(
            m,
            es,
            #[trigger] insts[i],
            x,
            x[(n + pures(insts.take(i))) as int],
        )
}

/// The slot of an instruction in the body of a quantifier holds what it computes.
pub open spec fn inst_runs(m: Model, es: Seq<Entry>, inst: Inst, x: Seq<Value>, v: Value) -> bool {
    match inst.kind {
        InstKind::Pure(_, PureInst::Forall(q)) => entry_at(es, q.label) matches Some(j) && v
            == Value::Bool((m.quant)(es[j].recipe, captured_values(x, es[j].free@))),
        InstKind::Pure(_, pi) => computes(m, x, pi, v),
        _ => true,
    }
}

/// The values that captured slots hold.
pub open spec fn captured_values(x: Seq<Value>, free: Seq<usize>) -> Seq<Value> {
    Seq::new(free.len(), |k: int| x[free[k] as int])
}

/// The slots of a recipe, where those of its quantifier hold `x`: the captured ones, then
/// the binders and what is computed.
pub open spec fn recipe_slots(x: Seq<Value>, base: usize, free: Seq<usize>) -> Seq<Value> {
    captured_values(x, free) + x.skip(base as int)
}

proof fn lemma_renamed_operand(x: Seq<Value>, base: usize, free: Seq<usize>, v: Val, w: ValV, n: nat)
    requires
        base <= x.len(),
        covers(free, base, v@),
        w == renamed(v@, base, free),
        w matches ValV::Temp(k) ==> k < n,
        n <= free.len() + (x.len() - base),
    ensures
        operand(x, v) == operand_v(recipe_slots(x, base, free), w),
{
    if let Val::Temp(k) = v {
        if k < base {
            crate::quant::lemma_place(free, k);
        }
    }
}

proof fn lemma_renamed_operands(
    x: Seq<Value>,
    base: usize,
    free: Seq<usize>,
    vs: Seq<Val>,
    ws: Seq<Val>,
    n: nat,
)
    requires
        base <= x.len(),
        covers_all(free, base, vs),
        renamed_all(vs, ws, base, free),
        vals_ok(ws, n),
        n <= free.len() + (x.len() - base),
    ensures
        Seq::new(vs.len(), |i: int| operand(x, vs[i])) == Seq::new(
            vals_view(ws).len(),
            |i: int| operand_v(recipe_slots(x, base, free), vals_view(ws)[i]),
        ),
{
    let y = recipe_slots(x, base, free);
    assert forall|i: int| 0 <= i < vs.len() implies operand(x, vs[i]) == operand_v(
        y,
        vals_view(ws)[i],
    ) by {
        assert(covers(free, base, vs[i]@));
        assert(ws[i]@ == renamed(vs[i]@, base, free));
        assert(val_ok(ws[i], n));
        lemma_renamed_operand(x, base, free, vs[i], ws[i]@, n);
    }
    assert(Seq::new(vs.len(), |i: int| operand(x, vs[i])) =~= Seq::new(
        vals_view(ws).len(),
        |i: int| operand_v(y, vals_view(ws)[i]),
    ));
}

/// A step of a recipe computes what the instruction that it was made of computes.
proof fn lemma_step_means(
    m: Model,
    es: Seq<Entry>,
    inst: Inst,
    raw: AxiomInst,
    step: AxiomInst,
    x: Seq<Value>,
    base: usize,
    free: Seq<usize>,
    v: Value,
    n: nat,
)
    requires
        prepared(inst, raw, es),
        inst_renamed(raw, step, base, free),
        base <= x.len(),
        covers_all(free, base, operands(raw)),
        inst_ok(step, n),
        n <= free.len() + (x.len() - base),
        inst_runs(m, es, inst, x, v),
    ensures
        step_computes(m, recipe_slots(x, base, free), step_view(step), v),
{
    let y = recipe_slots(x, base, free);
    let ops = operands(raw);
    match (raw, step) {
        (AxiomInst::Val(p), AxiomInst::Val(s)) => match (p, s) {
            (AxiomPure::Binary(_, a, b), AxiomPure::Binary(_, c, d)) => {
                assert(ops[0] == a && ops[1] == b);
                assert(covers(free, base, ops[0]@) && covers(free, base, ops[1]@));
                lemma_renamed_operand(x, base, free, a, c@, n);
                lemma_renamed_operand(x, base, free, b, d@, n);
                lemma_same_operand(inst, raw, es, x);
            },
            (AxiomPure::Ternary(a, b, c), AxiomPure::Ternary(d, e, f)) => {
                assert(ops[0] == a && ops[1] == b && ops[2] == c);
                assert(covers(free, base, ops[0]@) && covers(free, base, ops[1]@) && covers(
                    free,
                    base,
                    ops[2]@,
                ));
                lemma_renamed_operand(x, base, free, a, d@, n);
                lemma_renamed_operand(x, base, free, b, e@, n);
                lemma_renamed_operand(x, base, free, c, f@, n);
                lemma_same_operand(inst, raw, es, x);
            },
            (AxiomPure::RealCast(a), AxiomPure::RealCast(b)) => {
                assert(ops[0] == a);
                assert(covers(free, base, ops[0]@));
                lemma_renamed_operand(x, base, free, a, b@, n);
                lemma_same_operand(inst, raw, es, x);
            },
            (
                AxiomPure::App { func: _, type_args: _, args: vs },
                AxiomPure::App { func: _, type_args: _, args: ws },
            ) => {
                lemma_renamed_operands(x, base, free, vs@, ws@, n);
                if let InstKind::Pure(_, PureInst::FunctionCall(fc)) = inst.kind {
                    lemma_same_operands(x, vs@, fc.args@);
                }
            },
            _ => {},
        },
        (
            AxiomInst::Forall { recipe: _, caps: vs },
            AxiomInst::Forall { recipe: _, caps: ws },
        ) => {
            lemma_renamed_operands(x, base, free, vs@, ws@, n);
            if let InstKind::Pure(_, PureInst::Forall(q)) = inst.kind {
                let j = entry_at(es, q.label).unwrap();
                let caps = es[j].free@;
                assert(Seq::new(vs@.len(), |i: int| operand(x, vs@[i])) =~= captured_values(x, caps))
                    by {
                    assert(vals_view(vs@).len() == caps.len());
                    assert forall|i: int| 0 <= i < caps.len() implies operand(x, vs@[i])
                        == x[caps[i] as int] by {
                        assert(vals_view(vs@)[i] == temps_view(caps)[i]);
                    }
                }
            }
        },
        _ => {},
    }
}

proof fn lemma_same_operand(inst: Inst, raw: AxiomInst, es: Seq<Entry>, x: Seq<Value>)
    requires
        prepared(inst, raw, es),
    ensures
        match (inst.kind, raw) {
            (
                InstKind::Pure(_, PureInst::Binary(_, l, r)),
                AxiomInst::Val(AxiomPure::Binary(_, a, b)),
            ) => operand(x, l) == operand(x, a) && operand(x, r) == operand(x, b),
            (
                InstKind::Pure(_, PureInst::Ternary(c, t, e)),
                AxiomInst::Val(AxiomPure::Ternary(a, b, d)),
            ) => operand(x, c) == operand(x, a) && operand(x, t) == operand(x, b) && operand(x, e)
                == operand(x, d),
            (InstKind::Pure(_, PureInst::RealCast(n)), AxiomInst::Val(AxiomPure::RealCast(a))) =>
            operand(x, n) == operand(x, a),
            _ => true,
        },
{
}

proof fn lemma_same_operands(x: Seq<Value>, a: Seq<Val>, b: Seq<Val>)
    requires
        vals_view(a) == vals_view(b),
    ensures
        Seq::new(a.len(), |i: int| operand(x, a[i])) == crate::meaning::values::operands_of(x, b),
{
    assert(vals_view(a).len() == a.len());
    assert(vals_view(b).len() == b.len());
    assert forall|i: int| 0 <= i < a.len() implies operand(x, a[i]) == operand(x, b[i]) by {
        assert(vals_view(a)[i] == vals_view(b)[i]);
        assert(vals_view(a)[i] == a[i]@);
        assert(vals_view(b)[i] == b[i]@);
    }
    assert(Seq::new(a.len(), |i: int| operand(x, a[i]))
        =~= crate::meaning::values::operands_of(x, b));
}

proof fn lemma_ok_same(a: AxiomInst, b: AxiomInst, n: nat)
    requires
        step_view(a) == step_view(b),
        inst_ok(a, n),
    ensures
        inst_ok(b, n),
{
    match (a, b) {
        (
            AxiomInst::Val(AxiomPure::App { func: _, type_args: _, args: vs }),
            AxiomInst::Val(AxiomPure::App { func: _, type_args: _, args: ws }),
        ) => {
            lemma_vals_same(vs@, ws@, n);
        },
        (
            AxiomInst::Forall { recipe: _, caps: vs },
            AxiomInst::Forall { recipe: _, caps: ws },
        ) => {
            lemma_vals_same(vs@, ws@, n);
        },
        (
            AxiomInst::Token { func: _, args: vs, guards: gs },
            AxiomInst::Token { func: _, args: ws, guards: hs },
        ) => {
            lemma_vals_same(vs@, ws@, n);
            assert(guards_view(gs@).len() == guards_view(hs@).len());
            assert forall|i: int| 0 <= i < hs@.len() implies val_ok((#[trigger] hs@[i]).0, n) by {
                assert(guards_view(gs@)[i] == guards_view(hs@)[i]);
                assert(val_ok(gs@[i].0, n));
            }
        },
        _ => {},
    }
}

proof fn lemma_vals_same(a: Seq<Val>, b: Seq<Val>, n: nat)
    requires
        vals_view(a) == vals_view(b),
        vals_ok(a, n),
    ensures
        vals_ok(b, n),
{
    assert(vals_view(a).len() == a.len());
    assert(vals_view(b).len() == b.len());
    assert forall|i: int| 0 <= i < b.len() implies val_ok(#[trigger] b[i], n) by {
        assert(vals_view(a)[i] == vals_view(b)[i]);
        assert(vals_view(a)[i] == a[i]@);
        assert(vals_view(b)[i] == b[i]@);
        assert(val_ok(a[i], n));
    }
}

proof fn lemma_yields_pures(
    insts: Seq<Inst>,
    raw: Seq<AxiomInst>,
    steps: Seq<AxiomInst>,
    es: Seq<Entry>,
    base: usize,
    free: Seq<usize>,
    i: nat,
)
    requires
        all_prepared(insts, raw, es),
        insts_renamed(raw, steps, base, free),
        i <= insts.len(),
    ensures
        yields(steps_view(steps).take(i as int)) == pures(insts.take(i as int)),
    decreases i,
{
    if i > 0 {
        let k = i - 1;
        lemma_yields_pures(insts, raw, steps, es, base, free, k as nat);
        assert(steps_view(steps).take(i as int).drop_last() =~= steps_view(steps).take(k));
        assert(insts.take(i as int).drop_last() =~= insts.take(k));
        assert(prepared(insts[k], raw[k], es));
        assert(inst_renamed(raw[k], steps[k], base, free));
        assert(steps_view(steps).take(i as int).last() == step_view(steps[k]));
        assert(insts.take(i as int).last() == insts[k]);
    }
}

proof fn lemma_pures_rise(insts: Seq<Inst>, i: int)
    requires
        0 <= i <= insts.len(),
    ensures
        pures(insts.take(i)) <= pures(insts),
        i < insts.len() && insts[i].kind is Pure ==> pures(insts.take(i)) < pures(insts),
    decreases insts.len() - i,
{
    if i < insts.len() {
        lemma_pures_rise(insts, i + 1);
        assert(insts.take(i + 1).drop_last() =~= insts.take(i));
        assert(insts.take(i + 1).last() == insts[i]);
    } else {
        assert(insts.take(i) =~= insts);
    }
}

/// A recipe was made of a quantifier by way of steps that still name its slots.
pub open spec fn made(
    q: Forall,
    es: Seq<Entry>,
    recipe: QuantRecipe,
    free: Seq<usize>,
    raw: Seq<AxiomInst>,
    steps: Seq<AxiomInst>,
) -> bool {
    &&& all_prepared(q.body.insts@, raw, es)
    &&& insts_renamed(raw, steps, q.binder_base, free)
    &&& covers_insts(free, q.binder_base, raw)
    &&& covers(free, q.binder_base, q.body.res@)
    &&& steps_view(recipe.insts@) == steps_view(steps)
    &&& recipe.res@ == renamed(q.body.res@, q.binder_base, free)
    &&& recipe.n_caps == free.len()
    &&& recipe.n_bound == q.bound@.len()
}

proof fn lemma_made(q: Forall, es: Seq<Entry>, recipe: QuantRecipe, free: Seq<usize>) -> (r: (
    Seq<AxiomInst>,
    Seq<AxiomInst>,
))
    requires
        compiled(q, es, recipe@, free),
    ensures
        made(q, es, recipe, free, r.0, r.1),
{
    let (raw, steps) = choose|raw: Seq<AxiomInst>, steps: Seq<AxiomInst>|
        {
            &&& #[trigger] all_prepared(q.body.insts@, raw, es)
            &&& #[trigger] insts_renamed(raw, steps, q.binder_base, free)
            &&& free == free_of(q, raw)
            &&& recipe@.steps == steps_view(steps)
            &&& recipe@.res == renamed(q.body.res@, q.binder_base, free)
            &&& recipe@.n_caps == free.len()
            &&& recipe@.n_bound == q.bound@.len()
            &&& recipe@.groups == trigger_views(q.triggers@, q.binder_base, free)
        };
    law_free_covers(q, raw);
    (raw, steps)
}

/// The `i`-th step names slots that exist before it.
proof fn lemma_made_step(
    q: Forall,
    es: Seq<Entry>,
    recipe: QuantRecipe,
    free: Seq<usize>,
    raw: Seq<AxiomInst>,
    steps: Seq<AxiomInst>,
    i: int,
)
    requires
        recipe.wf(),
        made(q, es, recipe, free, raw, steps),
        0 <= i < q.body.insts@.len(),
    ensures
        recipe.insts@.len() == q.body.insts@.len(),
        prepared(q.body.insts@[i], raw[i], es),
        inst_renamed(raw[i], steps[i], q.binder_base, free),
        covers_all(free, q.binder_base, operands(raw[i])),
        step_view(steps[i]) == step_view(recipe.insts@[i]),
        yields(steps_view(recipe.insts@).take(i)) == pures(q.body.insts@.take(i)),
        inst_ok(
            recipe.insts@[i],
            (free.len() + q.bound@.len() + pures(q.body.insts@.take(i))) as nat,
        ),
        inst_ok(steps[i], (free.len() + q.bound@.len() + pures(q.body.insts@.take(i))) as nat),
        pures(q.body.insts@.take(i)) <= pures(q.body.insts@),
        q.body.insts@[i].kind is Pure ==> pures(q.body.insts@.take(i)) < pures(q.body.insts@),
{
    let insts = q.body.insts@;
    let k = (free.len() + q.bound@.len()) as nat;
    let all = recipe.insts@;
    assert(steps_view(steps).len() == steps.len());
    assert(steps_view(all).len() == all.len());
    assert(prepared(insts[i], raw[i], es));
    assert(inst_renamed(raw[i], steps[i], q.binder_base, free));
    assert(covers_all(free, q.binder_base, operands(raw[i])));
    assert(steps_view(all)[i] == step_view(all[i]));
    assert(steps_view(steps)[i] == step_view(steps[i]));
    lemma_yields_pures(insts, raw, steps, es, q.binder_base, free, i as nat);
    lemma_pures_rise(insts, i);
    lemma_yields(all.take(i), k);
    assert(steps_view(all).take(i) =~= steps_view(all.take(i)));
    assert(inst_ok(all[i], slots(all.take(i), k)));
    lemma_ok_same(all[i], steps[i], slots(all.take(i), k));
}

/// A recipe computes in its slots what the instructions of its quantifier compute in theirs,
/// and its result is that of the quantifier's body.
#[verifier::rlimit(40)]
#[verifier::spinoff_prover]
pub proof fn law_recipe_runs(
    m: Model,
    q: Forall,
    es: Seq<Entry>,
    recipe: QuantRecipe,
    free: Seq<usize>,
    x: Seq<Value>,
)
    requires
        recipe.wf(),
        compiled(q, es, recipe@, free),
        body_runs(m, es, q.body.insts@, x, (q.binder_base + q.bound@.len()) as nat),
    ensures
        recipe.n_caps == free.len(),
        recipe.n_bound == q.bound@.len(),
        steps_run(
            m,
            recipe@.steps,
            recipe_slots(x, q.binder_base, free),
            (recipe.n_caps + recipe.n_bound) as nat,
        ),
        operand_v(recipe_slots(x, q.binder_base, free), recipe.res@) == operand(x, q.body.res),
{
    let base = q.binder_base;
    let insts = q.body.insts@;
    let (raw, steps) = lemma_made(q, es, recipe, free);
    let y = recipe_slots(x, base, free);
    let n = (base + q.bound@.len()) as nat;
    let k = (free.len() + q.bound@.len()) as nat;
    let all = recipe.insts@;
    lemma_yields_pures(insts, raw, steps, es, base, free, insts.len());
    assert(steps_view(steps).len() == steps.len());
    assert(steps_view(steps).take(insts.len() as int) =~= steps_view(steps));
    assert(insts.take(insts.len() as int) =~= insts);
    lemma_yields(all, k);
    assert(y.len() == k + yields(steps_view(all)));
    assert forall|i: int| 0 <= i < steps_view(all).len() implies step_computes(
        m,
        y,
        #[trigger] steps_view(all)[i],
        y[(k + yields(steps_view(all).take(i))) as int],
    ) by {
        lemma_made_step(q, es, recipe, free, raw, steps, i);
        lemma_slot_runs(m, q, es, recipe, free, raw, steps, x, i);
    }
    lemma_renamed_operand(x, base, free, q.body.res, recipe.res@, slots(all, k));
}

#[verifier::rlimit(40)]
#[verifier::spinoff_prover]
proof fn lemma_slot_runs(
    m: Model,
    q: Forall,
    es: Seq<Entry>,
    recipe: QuantRecipe,
    free: Seq<usize>,
    raw: Seq<AxiomInst>,
    steps: Seq<AxiomInst>,
    x: Seq<Value>,
    i: int,
)
    requires
        recipe.wf(),
        made(q, es, recipe, free, raw, steps),
        0 <= i < q.body.insts@.len(),
        body_runs(m, es, q.body.insts@, x, (q.binder_base + q.bound@.len()) as nat),
    ensures
        step_computes(
            m,
            recipe_slots(x, q.binder_base, free),
            step_view(recipe.insts@[i]),
            recipe_slots(x, q.binder_base, free)[(free.len() + q.bound@.len() + pures(
                q.body.insts@.take(i),
            )) as int],
        ),
{
    let base = q.binder_base;
    let insts = q.body.insts@;
    lemma_made_step(q, es, recipe, free, raw, steps, i);
    if insts[i].kind is Pure {
        let y = recipe_slots(x, base, free);
        let before = pures(insts.take(i));
        let n = (free.len() + q.bound@.len() + before) as nat;
        let at = x[(base + q.bound@.len() + before) as int];
        assert(inst_runs(m, es, insts[i], x, at));
        assert(y[n as int] == at) by {
            assert(x.skip(base as int)[(q.bound@.len() + before) as int] == at);
        }
        lemma_step_means(m, es, insts[i], raw[i], steps[i], x, base, free, at, n);
    } else {
        assert(steps[i] is Assume);
        assert(step_view(steps[i]) is Assume);
    }
}

/// An assumption in the body of a quantifier is one in its recipe, of the same value.
proof fn lemma_assumption(
    q: Forall,
    es: Seq<Entry>,
    recipe: QuantRecipe,
    free: Seq<usize>,
    x: Seq<Value>,
    i: int,
)
    requires
        recipe.wf(),
        compiled(q, es, recipe@, free),
        x.len() == q.binder_base + q.bound@.len() + pures(q.body.insts@),
        0 <= i < q.body.insts@.len(),
        q.body.insts@[i].kind is Assume,
    ensures
        recipe.insts@.len() == q.body.insts@.len(),
        recipe.insts@[i] is Assume,
        operand_v(recipe_slots(x, q.binder_base, free), recipe.insts@[i]->Assume_0@) == operand(
            x,
            q.body.insts@[i].kind->Assume_0,
        ),
{
    let (raw, steps) = lemma_made(q, es, recipe, free);
    let insts = q.body.insts@;
    lemma_made_step(q, es, recipe, free, raw, steps, i);
    let a = raw[i]->Assume_0;
    assert(operands(raw[i])[0] == a);
    assert(covers(free, q.binder_base, operands(raw[i])[0]@));
    lemma_renamed_operand(
        x,
        q.binder_base,
        free,
        a,
        recipe.insts@[i]->Assume_0@,
        (free.len() + q.bound@.len() + pures(insts.take(i))) as nat,
    );
    assert(operand(x, a) == operand(x, insts[i].kind->Assume_0));
}

pub proof fn lemma_seed(m: Model, vals: Seq<Id>)
    ensures
        hold_values(m, t_classes(vals), m.all(vals)),
{
    assert forall|i: int| 0 <= i < t_classes(vals).len() implies tm_value(
        m,
        #[trigger] t_classes(vals)[i],
    ) == Some(m.all(vals)[i]) by {
    }
}

/// What an instance of a quantifier says, at the values of the slots that it captures and
/// of its binders: where the quantifier is true, the result of its body is true, and where
/// it is false, nothing.
#[verifier::rlimit(40)]
#[verifier::spinoff_prover]
pub proof fn law_instance(
    m: Model,
    table: Seq<QuantRecipe>,
    class: Id,
    v: InstV,
    q: Forall,
    es: Seq<Entry>,
    free: Seq<usize>,
    x: Seq<Value>,
    truth: bool,
)
    requires
        v.recipe.0 < table.len(),
        table[v.recipe.0 as int].wf(),
        compiled(q, es, table[v.recipe.0 as int]@, free),
        body_runs(m, es, q.body.insts@, x, (q.binder_base + q.bound@.len()) as nat),
        m.at(class) == Value::Bool(truth),
        m.all(v.vals) == captured_values(x, free) + x.subrange(
            q.binder_base as int,
            q.binder_base + q.bound@.len(),
        ),
    ensures
        equation_holds(m, instance_facts(table, class, v).last()) <==> (truth ==> operand(
            x,
            q.body.res,
        ) == Value::Bool(true)),
{
    let recipe = table[v.recipe.0 as int];
    let y = recipe_slots(x, q.binder_base, free);
    law_recipe_runs(m, q, es, recipe, free, x);
    let seed = t_classes(v.vals);
    lemma_seed(m, v.vals);
    let k = recipe.n_caps + recipe.n_bound;
    assert(m.all(v.vals).len() == v.vals.len());
    assert(y.take(k) =~= m.all(v.vals));
    law_steps_values(m, recipe.insts@, seed, y);
    let ts = inst_vals(recipe.insts@, seed);
    crate::rewrite::recipe::lemma_slots(recipe.insts@, seed);
    lemma_yields(recipe.insts@, seed.len());
    assert(y.take(ts.len() as int) =~= y);
    lemma_operand_v(m, ts, y, recipe.res);
    lemma_tm_lit(m, Value::Bool(true));
    lemma_tm_ite(m, Tm::Class(class), val_tm(ts, recipe.res), t_bool(true));
}

/// Where an instance of a quantifier holds, the assumptions in its body are true.
#[verifier::rlimit(40)]
#[verifier::spinoff_prover]
pub proof fn law_instance_assumes(
    m: Model,
    table: Seq<QuantRecipe>,
    class: Id,
    v: InstV,
    q: Forall,
    es: Seq<Entry>,
    free: Seq<usize>,
    x: Seq<Value>,
    i: int,
)
    requires
        v.recipe.0 < table.len(),
        table[v.recipe.0 as int].wf(),
        compiled(q, es, table[v.recipe.0 as int]@, free),
        body_runs(m, es, q.body.insts@, x, (q.binder_base + q.bound@.len()) as nat),
        m.all(v.vals) == captured_values(x, free) + x.subrange(
            q.binder_base as int,
            q.binder_base + q.bound@.len(),
        ),
        all_hold(m, instance_facts(table, class, v)),
        0 <= i < q.body.insts@.len(),
        q.body.insts@[i].kind is Assume,
    ensures
        operand(x, q.body.insts@[i].kind->Assume_0) == Value::Bool(true),
{
    let recipe = table[v.recipe.0 as int];
    let all = recipe.insts@;
    let y = recipe_slots(x, q.binder_base, free);
    law_recipe_runs(m, q, es, recipe, free, x);
    lemma_assumption(q, es, recipe, free, x, i);
    let seed = t_classes(v.vals);
    let gate = Some(Tm::Class(class));
    lemma_seed(m, v.vals);
    assert(m.all(v.vals).len() == v.vals.len());
    assert(y.take(seed.len() as int) =~= m.all(v.vals));
    let facts = inst_facts(all, seed, gate);
    assert forall|j: int| 0 <= j < facts.len() implies equation_holds(m, #[trigger] facts[j]) by {
        assert(instance_facts(table, class, v)[j] == facts[j]);
    }
    assert(all.take(all.len() as int) =~= all);
    lemma_facts_assumed(m, all, seed, gate, y, all.len(), i);
}

proof fn lemma_facts_assumed(
    m: Model,
    insts: Seq<AxiomInst>,
    seed: Seq<Tm>,
    gate: Option<Tm>,
    y: Seq<Value>,
    n: nat,
    i: int,
)
    requires
        0 <= i < n <= insts.len(),
        insts_ok(insts, seed.len()),
        seed.len() <= y.len(),
        hold_values(m, seed, y.take(seed.len() as int)),
        steps_run(m, steps_view(insts), y, seed.len()),
        all_hold(m, inst_facts(insts.take(n as int), seed, gate)),
        insts[i] is Assume,
    ensures
        operand_v(y, insts[i]->Assume_0@) == Value::Bool(true),
    decreases n,
{
    let now = insts.take(n as int);
    let before = insts.take(n - 1);
    assert(now.drop_last() =~= before);
    assert(now.last() == insts[n - 1]);
    let facts = inst_facts(now, seed, gate);
    let front = inst_facts(before, seed, gate);
    let ts = inst_vals(before, seed);
    if i == n - 1 {
        lemma_steps_upto(m, insts, seed, y, (n - 1) as nat);
        crate::rewrite::recipe::lemma_slots(before, seed);
        assert(inst_ok(insts[i], slots(insts.take(i), seed.len())));
        let a = insts[i]->Assume_0;
        lemma_operand_v(m, ts, y, a);
        lemma_tm_lit(m, Value::Bool(true));
        assert(facts[front.len() as int] == (val_tm(ts, a), t_bool(true)));
        assert(equation_holds(m, facts[front.len() as int]));
    } else {
        assert forall|j: int| 0 <= j < front.len() implies equation_holds(
            m,
            #[trigger] front[j],
        ) by {
            assert(facts[j] == front[j]);
        }
        lemma_facts_assumed(m, insts, seed, gate, y, (n - 1) as nat, i);
    }
}

/// Where a model holds of all that quantifiers say, a quantifier that is true of the slots
/// that it captures has a true body, whatever its binders are.
#[verifier::rlimit(40)]
#[verifier::spinoff_prover]
pub proof fn law_quantifier(
    m: Model,
    table: Seq<QuantRecipe>,
    recipe: RecipeId,
    q: Forall,
    es: Seq<Entry>,
    free: Seq<usize>,
    x: Seq<Value>,
)
    requires
        quantifies(table, m),
        recipe.0 < table.len(),
        table[recipe.0 as int].wf(),
        compiled(q, es, table[recipe.0 as int]@, free),
        free.len() + q.bound@.len() < Id::MAX,
        body_runs(m, es, q.body.insts@, x, (q.binder_base + q.bound@.len()) as nat),
        (m.quant)(recipe, captured_values(x, free)),
    ensures
        operand(x, q.body.res) == Value::Bool(true),
{
    let base = q.binder_base as int;
    let n = free.len() + q.bound@.len();
    let seeds = captured_values(x, free) + x.subrange(base, base + q.bound@.len());
    let class: Id = n as Id;
    let val = |id: Id|
        if id == class {
            Value::Bool(true)
        } else {
            seeds[id as int]
        };
    let w = Model { val, ..m };
    let vals = Seq::new(n as nat, |i: int| i as Id);
    let v = InstV { recipe, vals };
    law_recipe_runs(m, q, es, table[recipe.0 as int], free, x);
    assert(seeds.len() == n);
    assert(w.all(vals) =~= seeds);
    assert(w.all(vals.take(free.len() as int)) =~= captured_values(x, free));
    assert(body_runs(w, es, q.body.insts@, x, (q.binder_base + q.bound@.len()) as nat)) by {
        assert forall|i: int| 0 <= i < q.body.insts@.len() implies inst_runs(
            w,
            es,
            #[trigger] q.body.insts@[i],
            x,
            x[(q.binder_base + q.bound@.len() + pures(q.body.insts@.take(i))) as int],
        ) by {
            assert(inst_runs(
                m,
                es,
                q.body.insts@[i],
                x,
                x[(q.binder_base + q.bound@.len() + pures(q.body.insts@.take(i))) as int],
            ));
        }
    }
    assert(all_hold(Model { val, ..m }, instance_facts(table, class, v)));
    law_instance(w, table, class, v, q, es, free, x, true);
    let facts = instance_facts(table, class, v);
    assert(facts.last() == facts[facts.len() - 1]);
}

} // verus!
