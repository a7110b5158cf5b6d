//! What the slots of a verified unit hold.

use crate::context::{lemma_leads_trans, Context};
use crate::graph::Graph;
use crate::lang::Id;
use crate::meaning::values::{
    computes, hold_values, lemma_cast, lemma_operand, lemma_operands, lemma_operates, operand,
};
use crate::method::eval::pure_result;
use crate::method::plain::Heap;
use crate::method::resource::Env;
use crate::method::run::{heap_insts, inst_ok, insts_ok, pures, stepped, Slots};
use crate::method::unit::{
    inst_ran, law_assertions_hold, method_verified, path_holds, ran, read_checked, Trail,
};
use crate::model::{lemma_tm_bin, lemma_tm_ite, t_classes, tm_value, Model};
use crate::program::{Inst, InstKind, Method, PureInst};
use crate::quant::Entry;
use crate::rewrite::recipe::{val_ok, val_tm};
use crate::terms::lemma_grows_models;
use crate::vmir::{Polarity, Val, Value};
use vstd::prelude::*;

verus! {

/// The conditions of a path hold of the slots.
pub open spec fn on_path(x: Seq<Value>, conds: Seq<(Val, Polarity)>) -> bool {
    forall|k: int|
        0 <= k < conds.len() ==> operand(x, (#[trigger] conds[k]).0) == Value::Bool(
            conds[k].1 == Polarity::Positive,
        )
}

/// Slots hold the values of their classes.
pub proof fn lemma_classes_hold(m: Model, vals: Seq<Id>)
    ensures
        hold_values(m, t_classes(vals), m.all(vals)),
{
}

/// What a pure instruction leaves in a slot is what it computes of the others.
pub proof fn law_pure_value(
    g: Graph,
    m: Model,
    vals: Seq<Id>,
    heaps: Seq<Heap>,
    es: Seq<Entry>,
    pi: PureInst,
    r: Id,
    nh: nat,
)
    requires
        !g.full(),
        g.models(m),
        crate::method::eval::pure_ok(pi, vals.len(), nh),
        pure_result(g, vals, heaps, es, pi, r),
    ensures
        computes(m, m.all(vals), pi, m.at(r)),
{
    let ts = t_classes(vals);
    let x = m.all(vals);
    lemma_classes_hold(m, vals);
    match pi {
        PureInst::Binary(op, a, b) => {
            lemma_operand(m, ts, x, a);
            lemma_operand(m, ts, x, b);
            lemma_tm_bin(m, op, val_tm(ts, a), val_tm(ts, b));
            lemma_operates(m, op, operand(x, a), operand(x, b), m.at(r));
        },
        PureInst::Ternary(c, t, e) => {
            lemma_operand(m, ts, x, c);
            lemma_operand(m, ts, x, t);
            lemma_operand(m, ts, x, e);
            lemma_tm_ite(m, val_tm(ts, c), val_tm(ts, t), val_tm(ts, e));
        },
        PureInst::RealCast(v) => {
            lemma_operand(m, ts, x, v);
            lemma_cast(m, val_tm(ts, v));
        },
        PureInst::FunctionCall(fc) => {
            assert forall|i: int| 0 <= i < fc.args@.len() implies (
            #[trigger] fc.args@[i] matches Val::Temp(n) ==> n < ts.len()) by {
                assert(val_ok(fc.args@[i], vals.len()));
            }
            lemma_operands(m, ts, x, fc.args@);
        },
        _ => {},
    }
}

/// Later slots keep what earlier ones held, and one is added for each value.
pub proof fn lemma_slots_kept(t: Trail, env: Env, insts: Seq<Inst>, n: int, i: int)
    requires
        ran(t, env, insts, n),
        0 <= i <= n <= insts.len(),
    ensures
        t.slots[i].vals.is_prefix_of(t.slots[n].vals),
        t.slots[n].vals.len() == t.slots[i].vals.len() + pures(insts.take(n)) - pures(
            insts.take(i),
        ),
        i < n ==> t.ctxs[i].leads_to(t.ctxs[n]),
        i < n ==> t.ctxs[n].wf(),
    decreases n - i,
{
    if i < n {
        let k = n - 1;
        let u = Trail { ctxs: t.ctxs.drop_last(), slots: t.slots.drop_last() };
        assert(ran(u, env, insts, k)) by {
            assert forall|j: int| 0 <= j < k implies #[trigger] inst_ran(
                u.ctxs[j],
                u.ctxs[j + 1],
                env,
                u.slots[j],
                u.slots[j + 1],
                insts[j],
            ) by {
                assert(inst_ran(
                    t.ctxs[j],
                    t.ctxs[j + 1],
                    env,
                    t.slots[j],
                    t.slots[j + 1],
                    insts[j],
                ));
            }
        }
        lemma_slots_kept(u, env, insts, k, i);
        assert(inst_ran(t.ctxs[k], t.ctxs[n], env, t.slots[k], t.slots[n], insts[k]));
        let mid = choose|mid: Context|
            {
                &&& #[trigger] t.ctxs[k].leads_to(mid)
                &&& read_checked(t.ctxs[k], mid, t.slots[k], insts[k])
                &&& mid.leads_to(t.ctxs[n])
                &&& stepped(mid, t.ctxs[n], env, t.slots[k], t.slots[n], insts[k])
            };
        lemma_leads_trans(t.ctxs[k], mid, t.ctxs[n]);
        if i < k {
            lemma_leads_trans(t.ctxs[i], t.ctxs[k], t.ctxs[n]);
        }
        assert(insts.take(n).drop_last() =~= insts.take(k));
        assert(insts.take(n).last() == insts[k]);
        assert(t.slots[k].vals.is_prefix_of(t.slots[n].vals)) by {
            if insts[k].kind is Pure {
                assert(t.slots[n].vals.drop_last() == t.slots[k].vals);
            }
        }
    }
}

/// An operand that was filled keeps its value.
pub proof fn lemma_operand_kept(m: Model, a: Seq<Id>, b: Seq<Id>, v: Val)
    requires
        a.is_prefix_of(b),
        val_ok(v, a.len()),
    ensures
        operand(m.all(a), v) == operand(m.all(b), v),
{
    if let Val::Temp(n) = v {
        assert(a[n as int] == b[n as int]);
    }
}

/// What computes a value of some slots computes it of more.
pub proof fn lemma_computes_kept(m: Model, a: Seq<Id>, b: Seq<Id>, pi: PureInst, v: Value, nh: nat)
    requires
        a.is_prefix_of(b),
        crate::method::eval::pure_ok(pi, a.len(), nh),
        computes(m, m.all(a), pi, v),
    ensures
        computes(m, m.all(b), pi, v),
{
    match pi {
        PureInst::Binary(_, l, r) => {
            lemma_operand_kept(m, a, b, l);
            lemma_operand_kept(m, a, b, r);
        },
        PureInst::Ternary(c, t, e) => {
            lemma_operand_kept(m, a, b, c);
            lemma_operand_kept(m, a, b, t);
            lemma_operand_kept(m, a, b, e);
        },
        PureInst::RealCast(n) => {
            lemma_operand_kept(m, a, b, n);
        },
        PureInst::FunctionCall(fc) => {
            assert forall|i: int| 0 <= i < fc.args@.len() implies operand(m.all(a), fc.args@[i])
                == operand(m.all(b), fc.args@[i]) by {
                assert(val_ok(fc.args@[i], a.len()));
                lemma_operand_kept(m, a, b, fc.args@[i]);
            }
            assert(crate::meaning::values::operands_of(m.all(a), fc.args@)
                =~= crate::meaning::values::operands_of(m.all(b), fc.args@));
        },
        _ => {},
    }
}

/// The slots of a verified method are an execution of it: every pure instruction leaves
/// what it computes of the slots that it reads, every assumption is true, and every
/// assertion is true wherever its path is taken.
#[verifier::rlimit(80)]
#[verifier::spinoff_prover]
pub proof fn law_method_executes(
    env: Env,
    drop: Seq<String>,
    method: Method,
    t: Trail,
    m: Model,
    i: int,
)
    requires
        method_verified(env, drop, method, t),
        insts_ok(method.insts@, 0, 0),
        !t.ctxs.last().graph.full(),
        t.ctxs.last().graph.models(m),
        0 <= i < method.insts@.len(),
    ensures
        ({
            let x = m.all(t.slots.last().vals);
            let inst = method.insts@[i];
            match inst.kind {
                InstKind::Pure(_, pi) => {
                    let k = pures(method.insts@.take(i));
                    k < x.len() && computes(m, x, pi, x[k as int])
                },
                InstKind::Assume(v) => operand(x, v) == Value::Bool(true),
                InstKind::Assert(v) => on_path(x, inst.pc.conds@) ==> operand(x, v) == Value::Bool(
                    true,
                ),
                InstKind::Heap(_) => true,
            }
        }),
{
    let insts = method.insts@;
    let n = insts.len() as int;
    let inst = insts[i];
    let s = t.slots[i];
    let last = t.slots[n].vals;
    let x = m.all(last);
    lemma_slots_kept(t, env, insts, n, i);
    lemma_slots_kept(t, env, insts, n, i + 1);
    lemma_slots_kept(t, env, insts, n, 0);
    assert(insts.take(0) =~= Seq::empty());
    assert(insts.take(n) =~= insts);
    assert(s.vals.len() == pures(insts.take(i)));
    let nh = 0 + heap_insts(insts.take(i));
    assert(inst_ok(inst, s.vals.len(), nh));
    assert(inst_ran(t.ctxs[i], t.ctxs[i + 1], env, s, t.slots[i + 1], inst));
    if i + 1 < n {
        lemma_grows_models(t.ctxs[i + 1].graph, t.ctxs[n].graph, m);
    }
    let ts = t_classes(s.vals);
    lemma_classes_hold(m, s.vals);
    match inst.kind {
        InstKind::Pure(_, pi) => {
            lemma_pure_ran(t.ctxs[i], t.ctxs[i + 1], env, s, t.slots[i + 1], inst, m, nh);
            let k = s.vals.len() as int;
            assert(last[k] == t.slots[i + 1].vals[k]);
            lemma_computes_kept(m, s.vals, last, pi, m.at(last[k]), nh);
        },
        InstKind::Assume(v) => {
            lemma_operand_kept(m, s.vals, last, v);
            lemma_operand(m, ts, m.all(s.vals), v);
            lemma_assume_ran(t.ctxs[i], t.ctxs[i + 1], env, s, t.slots[i + 1], inst, m);
        },
        InstKind::Assert(v) => {
            lemma_operand_kept(m, s.vals, last, v);
            lemma_operand(m, ts, m.all(s.vals), v);
            if on_path(x, inst.pc.conds@) {
                lemma_path(m, s.vals, last, inst.pc.conds@);
                law_assertions_hold(env, drop, method, t, i, v, m);
            }
        },
        InstKind::Heap(_) => {},
    }
}

/// A path that is taken by the values of the slots is taken in the model.
pub proof fn lemma_path(m: Model, vals: Seq<Id>, last: Seq<Id>, conds: Seq<(Val, Polarity)>)
    requires
        vals.is_prefix_of(last),
        crate::rewrite::recipe::guards_ok(conds, vals.len()),
        on_path(m.all(last), conds),
    ensures
        path_holds(m, vals, conds),
{
    let ts = t_classes(vals);
    lemma_classes_hold(m, vals);
    assert forall|k: int| 0 <= k < conds.len() implies tm_value(
        m,
        val_tm(ts, (#[trigger] conds[k]).0),
    ) == Some(Value::Bool(conds[k].1 == Polarity::Positive)) by {
        assert(val_ok(conds[k].0, vals.len()));
        lemma_operand_kept(m, vals, last, conds[k].0);
        lemma_operand(m, ts, m.all(vals), conds[k].0);
    }
}

proof fn lemma_pure_ran(
    a: Context,
    b: Context,
    env: Env,
    s: Slots,
    u: Slots,
    inst: Inst,
    m: Model,
    nh: nat,
)
    requires
        inst_ran(a, b, env, s, u, inst),
        inst_ok(inst, s.vals.len(), nh),
        inst.kind is Pure,
        !b.graph.full(),
        b.graph.models(m),
    ensures
        u.vals.len() == s.vals.len() + 1,
        computes(m, m.all(s.vals), inst.kind->Pure_1, m.at(u.vals[s.vals.len() as int])),
{
    let mid = choose|mid: Context|
        {
            &&& #[trigger] a.leads_to(mid)
            &&& read_checked(a, mid, s, inst)
            &&& mid.leads_to(b)
            &&& stepped(mid, b, env, s, u, inst)
        };
    let pi = inst.kind->Pure_1;
    law_pure_value(b.graph, m, s.vals, s.heaps, env.quants.entries@, pi, u.vals.last(), nh);
}

proof fn lemma_assume_ran(a: Context, b: Context, env: Env, s: Slots, u: Slots, inst: Inst, m: Model)
    requires
        inst_ran(a, b, env, s, u, inst),
        inst.kind is Assume,
        !b.graph.full(),
        b.graph.models(m),
    ensures
        tm_value(m, val_tm(t_classes(s.vals), inst.kind->Assume_0)) == Some(Value::Bool(true)),
{
    let mid = choose|mid: Context|
        {
            &&& #[trigger] a.leads_to(mid)
            &&& read_checked(a, mid, s, inst)
            &&& mid.leads_to(b)
            &&& stepped(mid, b, env, s, u, inst)
        };
    crate::method::run::lemma_assumed(mid, b, s.vals, inst.kind->Assume_0, m);
}

} // verus!
