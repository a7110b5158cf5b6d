//! What holds of a resource that was certified: its slots hold what its instructions
//! compute, it never divides by zero, and it never asks for a negative share.

use crate::context::{cube_holds, lemma_leads_trans, Context};
use crate::lang::Id;
use crate::meaning::slots::{
    law_pure_value, lemma_classes_hold, lemma_computes_kept, lemma_operand_kept, lemma_path,
    on_path,
};
use crate::meaning::values::{computes, lemma_operand, operand};
use crate::method::eval::lits_for;
use crate::method::graft::ResourceCertificate;
use crate::method::resource::Env;
use crate::method::run::{body_stepped, heap_insts, inst_ok, insts_ok, pures, Slots};
use crate::method::unit::{
    body_inst_ran, body_ran, certifies, obliged, path_holds, read_checked, CertSteps, Trail,
};
use crate::model::{
    lemma_tm_bin, lemma_tm_lit, lemma_tm_not, t_classes, t_eq, t_lit, t_ltr, t_real, tm_value,
    Model,
};
use crate::program::{HeapInst, Inst, InstKind, PureInst, ResourceBody};
use crate::rewrite::recipe::val_tm;
use crate::terms::lemma_grows_models;
use crate::vmir::{BinOp, Polarity, Type, Value};
use vstd::prelude::*;

verus! {

/// Later slots of a body keep what earlier ones held, and one is added for each value.
pub proof fn lemma_body_kept(t: Trail, env: Env, insts: Seq<Inst>, n: int, i: int)
    requires
        body_ran(t, env, insts, n),
        0 <= i <= n <= insts.len(),
    ensures
        t.slots[i].vals.is_prefix_of(t.slots[n].vals),
        t.slots[n].vals.len() == t.slots[i].vals.len() + pures(insts.take(n)) - pures(
            insts.take(i),
        ),
        i < n ==> t.ctxs[i].leads_to(t.ctxs[n]),
    decreases n - i,
{
    if i < n {
        let k = n - 1;
        let u = Trail { ctxs: t.ctxs.drop_last(), slots: t.slots.drop_last() };
        assert(body_ran(u, env, insts, k)) by {
            assert forall|j: int| 0 <= j < k implies #[trigger] body_inst_ran(
                u.ctxs[j],
                u.ctxs[j + 1],
                env,
                u.slots[j],
                u.slots[j + 1],
                insts[j],
            ) by {
                assert(body_inst_ran(
                    t.ctxs[j],
                    t.ctxs[j + 1],
                    env,
                    t.slots[j],
                    t.slots[j + 1],
                    insts[j],
                ));
            }
        }
        lemma_body_kept(u, env, insts, k, i);
        assert(body_inst_ran(t.ctxs[k], t.ctxs[n], env, t.slots[k], t.slots[n], insts[k]));
        lemma_body_step(t.ctxs[k], t.ctxs[n], env, t.slots[k], t.slots[n], insts[k]);
        if i < k {
            lemma_leads_trans(t.ctxs[i], t.ctxs[k], t.ctxs[n]);
        }
        assert(insts.take(n).drop_last() =~= insts.take(k));
        assert(insts.take(n).last() == insts[k]);
    }
}

proof fn lemma_body_step(a: Context, b: Context, env: Env, s: Slots, u: Slots, inst: Inst)
    requires
        body_inst_ran(a, b, env, s, u, inst),
    ensures
        a.leads_to(b),
        s.vals.is_prefix_of(u.vals),
        u.vals.len() == s.vals.len() + if inst.kind is Pure {
            1nat
        } else {
            0nat
        },
{
    let (read, mid) = choose|read: Context, mid: Context|
        {
            &&& #[trigger] a.leads_to(read)
            &&& read_checked(a, read, s, inst)
            &&& #[trigger] read.leads_to(mid)
            &&& obliged(read, mid, s, inst)
            &&& mid.leads_to(b)
            &&& body_stepped(mid, b, env, s, u, inst)
        };
    lemma_leads_trans(a, read, mid);
    lemma_leads_trans(a, mid, b);
    if inst.kind is Pure {
        assert(u.vals.drop_last() == s.vals);
    }
}

/// An instruction of a body that was run leaves what it computes, in every model of the
/// graph after it. Where its path is taken, a divisor is not the zero of the type, and a
/// share that is put in or taken out is not negative.
#[verifier::rlimit(40)]
#[verifier::spinoff_prover]
pub proof fn law_body_inst(
    a: Context,
    b: Context,
    env: Env,
    s: Slots,
    u: Slots,
    inst: Inst,
    m: Model,
    nh: nat,
)
    requires
        body_inst_ran(a, b, env, s, u, inst),
        inst_ok(inst, s.vals.len(), nh),
        !b.graph.full(),
        b.graph.models(m),
    ensures
        inst.kind matches InstKind::Pure(_, pi) ==> u.vals.len() == s.vals.len() + 1 && computes(
            m,
            m.all(s.vals),
            pi,
            m.at(u.vals[s.vals.len() as int]),
        ),
        path_holds(m, s.vals, inst.pc.conds@) ==> match inst.kind {
            InstKind::Pure(ty, PureInst::Binary(op, _, d)) => op == BinOp::DivI || op
                == BinOp::DivR ==> operand(m.all(s.vals), d) != if ty is Int {
                Value::Int(0)
            } else {
                Value::Real(0 as real)
            },
            InstKind::Heap(HeapInst::Combine { perm, .. }) => operand(
                m.all(s.vals),
                perm,
            ) matches Value::Real(p) && p >= 0 as real,
            _ => true,
        },
{
    let (read, mid) = choose|read: Context, mid: Context|
        {
            &&& #[trigger] a.leads_to(read)
            &&& read_checked(a, read, s, inst)
            &&& #[trigger] read.leads_to(mid)
            &&& obliged(read, mid, s, inst)
            &&& mid.leads_to(b)
            &&& body_stepped(mid, b, env, s, u, inst)
        };
    lemma_grows_models(mid.graph, b.graph, m);
    let ts = t_classes(s.vals);
    let x = m.all(s.vals);
    lemma_classes_hold(m, s.vals);
    if let InstKind::Pure(_, pi) = inst.kind {
        law_pure_value(b.graph, m, s.vals, s.heaps, env.quants.entries@, pi, u.vals.last(), nh);
    }
    if path_holds(m, s.vals, inst.pc.conds@) {
        match inst.kind {
            InstKind::Pure(ty, PureInst::Binary(op, _, d)) => {
                if op == BinOp::DivI || op == BinOp::DivR {
                    let zero = if ty is Int {
                        Value::Int(0)
                    } else {
                        Value::Real(0 as real)
                    };
                    lemma_operand(m, ts, x, d);
                    lemma_tm_lit(m, zero);
                    lemma_tm_bin(m, BinOp::Eq, val_tm(ts, d), t_lit(zero));
                    lemma_tm_not(m, t_eq(val_tm(ts, d), t_lit(zero)));
                    lemma_duty(read, mid, s, inst, m);
                }
            },
            InstKind::Heap(HeapInst::Combine { perm, .. }) => {
                let zero = Value::Real(0 as real);
                lemma_operand(m, ts, x, perm);
                lemma_tm_lit(m, zero);
                lemma_tm_bin(m, BinOp::LtR, val_tm(ts, perm), t_real(0 as real));
                lemma_tm_not(m, t_ltr(val_tm(ts, perm), t_real(0 as real)));
                lemma_duty(read, mid, s, inst, m);
            },
            _ => {},
        }
    }
}

proof fn lemma_duty(a: Context, mid: Context, s: Slots, inst: Inst, m: Model)
    requires
        obliged(a, mid, s, inst),
        mid.graph.models(m),
        path_holds(m, s.vals, inst.pc.conds@),
    ensures
        crate::method::run::obligation(s.vals, inst.kind) matches Some(goal) ==> tm_value(m, goal.0)
            == Some(Value::Bool(true)),
{
    if let Some(goal) = crate::method::run::obligation(s.vals, inst.kind) {
        let conds = inst.pc.conds@;
        let lits = choose|lits: Seq<(Id, Polarity)>| #[trigger]
            lits_for(mid.graph, s.vals, conds, lits) && crate::prove::shown_tm(a, lits, goal.0)
                && crate::method::unit::term_true_on(mid.graph, lits, goal.0);
        assert forall|k: int| 0 <= k < lits.len() implies crate::context::lit_holds(
            m,
            #[trigger] lits[k],
        ) by {
            assert(mid.graph.denotes(lits[k].0, val_tm(t_classes(s.vals), conds[k].0)));
            assert(tm_value(m, val_tm(t_classes(s.vals), conds[k].0)) == Some(
                Value::Bool(conds[k].1 == Polarity::Positive),
            ));
        }
        assert(cube_holds(m, lits));
    }
}

/// The slots of a certified resource are an execution of its body: every pure instruction
/// leaves what it computes of the slots that it reads. Wherever the path to an instruction
/// is taken, one that divides has a divisor that is not the zero of its type, and one that
/// puts in or takes out permission has a share that is not negative.
#[verifier::rlimit(60)]
#[verifier::spinoff_prover]
pub proof fn law_certified_duties(
    env: Env,
    drop: Seq<String>,
    n_params: nat,
    body: ResourceBody,
    cert: ResourceCertificate,
    s: CertSteps,
    m: Model,
    i: int,
)
    requires
        certifies(env, drop, n_params, body, cert, s),
        insts_ok(body.insts@, n_params, 1),
        !cert.graph.full(),
        cert.graph.models(m),
        0 <= i < body.insts@.len(),
    ensures
        ({
            let x = m.all(s.trail.slots.last().vals);
            let inst = body.insts@[i];
            &&& inst.kind matches InstKind::Pure(_, pi) ==> {
                let k = n_params + pures(body.insts@.take(i));
                k < x.len() && computes(m, x, pi, x[k as int])
            }
            &&& on_path(x, inst.pc.conds@) ==> match inst.kind {
                InstKind::Pure(Type::Int, PureInst::Binary(BinOp::DivI, _, d)) => operand(x, d)
                    != Value::Int(0),
                InstKind::Pure(Type::Real, PureInst::Binary(BinOp::DivR, _, d)) => operand(x, d)
                    != Value::Real(0 as real),
                InstKind::Heap(HeapInst::Combine { perm, .. }) => operand(x, perm) matches Value::Real(
                    p,
                ) && p >= 0 as real,
                _ => true,
            }
        }),
{
    let insts = body.insts@;
    let n = insts.len() as int;
    let t = s.trail;
    let inst = insts[i];
    let at = t.slots[i];
    let last = t.slots[n].vals;
    let x = m.all(last);
    lemma_grows_models(t.ctxs[n].graph, cert.graph, m);
    lemma_body_kept(t, env, insts, n, i);
    lemma_body_kept(t, env, insts, n, i + 1);
    lemma_body_kept(t, env, insts, n, 0);
    assert(insts.take(0) =~= Seq::empty());
    assert(at.vals.len() == n_params + pures(insts.take(i)));
    let nh = 1 + heap_insts(insts.take(i));
    assert(inst_ok(inst, at.vals.len(), nh));
    assert(body_inst_ran(t.ctxs[i], t.ctxs[i + 1], env, at, t.slots[i + 1], inst));
    if i + 1 < n {
        lemma_grows_models(t.ctxs[i + 1].graph, t.ctxs[n].graph, m);
    }
    law_body_inst(t.ctxs[i], t.ctxs[i + 1], env, at, t.slots[i + 1], inst, m, nh);
    if let InstKind::Pure(_, pi) = inst.kind {
        let k = at.vals.len() as int;
        assert(last[k] == t.slots[i + 1].vals[k]);
        lemma_computes_kept(m, at.vals, last, pi, m.at(last[k]), nh);
    }
    if on_path(x, inst.pc.conds@) {
        lemma_path(m, at.vals, last, inst.pc.conds@);
        match inst.kind {
            InstKind::Pure(_, PureInst::Binary(_, _, d)) => {
                lemma_operand_kept(m, at.vals, last, d);
            },
            InstKind::Heap(HeapInst::Combine { perm, .. }) => {
                lemma_operand_kept(m, at.vals, last, perm);
            },
            _ => {},
        }
    }
}

} // verus!
