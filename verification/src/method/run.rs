//! Running the instructions of methods and of resource bodies.

use crate::context::{builds, learns, lemma_leads_refl, lemma_leads_trans, Context};
use crate::graph::Graph;
use crate::heap::facts::{only, reaches};
use crate::lang::Id;
use crate::method::error::VerifyError;
use crate::method::eval::{
    all_temps, at_address, collect_pc_lits, eval_pure_inst, get_val, heap_list, lemma_lits_grow,
    lemma_state_grows, lits_for, pure_known, pure_missing, pure_ok, pure_result, slot_lits,
    state_in, types_noted, EvalState,
};
use crate::method::fold::{
    fold, fold_refused, folded, pred_of, unfold, unfold_refused, unfolded, FoldSteps, UnfoldSteps,
};
use crate::method::heapinst::{eval_heap_inst, heap_inst_ok, heap_refused, heap_result};
use crate::method::plain::{entries_in, Heap};
use crate::method::resource::{
    assume_true, cert_missing, cert_of, combine_resource, resource_combined, resource_refused,
    true_on, CombineSteps, Env,
};
use crate::model::{
    lemma_tm_bin, lemma_tm_not, t_bin, t_bool, t_classes, t_eq, t_lit, t_ltr, t_not, t_real,
    tm_value, Model, Tm,
};
use crate::nums::Int;
use crate::program::{HeapInst, Inst, InstKind, PathConds, PureInst, Sign, Target};
use crate::prove::{left_open, settled, shown, tried};
use crate::quant::Entry;
use crate::rewrite::recipe::{guards_ok, val_ok, val_tm};
use crate::terms::{expr_in, expr_tm, group_grows, lemma_grows_denotes, written, Expr};
use crate::vmir::{BinOp, Literal, Polarity, Type, Val, Value};
use vstd::prelude::*;

verus! {

broadcast use crate::context::lemma_builds_trans;

/// The operands of an instruction name slots that were filled.
pub open spec fn inst_ok(inst: Inst, nv: nat, nh: nat) -> bool {
    &&& guards_ok(inst.pc.conds@, nv)
    &&& match inst.kind {
        InstKind::Pure(_, pi) => pure_ok(pi, nv, nh),
        InstKind::Heap(hi) => heap_inst_ok(hi, nv, nh),
        InstKind::Assume(v) => val_ok(v, nv),
        InstKind::Assert(v) => val_ok(v, nv),
    }
}

/// The values that instructions leave: one for each pure one.
pub open spec fn pures(insts: Seq<Inst>) -> nat
    decreases insts.len(),
{
    if insts.len() == 0 {
        0
    } else {
        pures(insts.drop_last()) + if insts.last().kind is Pure {
            1nat
        } else {
            0nat
        }
    }
}

/// The heaps that instructions leave: one for each heap instruction.
pub open spec fn heap_insts(insts: Seq<Inst>) -> nat
    decreases insts.len(),
{
    if insts.len() == 0 {
        0
    } else {
        heap_insts(insts.drop_last()) + if insts.last().kind is Heap {
            1nat
        } else {
            0nat
        }
    }
}

/// Every instruction refers to the slots that those before it fill, where `nv` values
/// and `nh` heaps are there at first.
pub open spec fn insts_ok(insts: Seq<Inst>, nv: nat, nh: nat) -> bool {
    forall|i: int|
        0 <= i < insts.len() ==> inst_ok(
            #[trigger] insts[i],
            nv + pures(insts.take(i)),
            nh + heap_insts(insts.take(i)),
        )
}

/// A heap instruction of a method was run.
pub open spec fn heap_stepped(
    a: Context,
    b: Context,
    env: Env,
    vals: Seq<Id>,
    heaps: Seq<Heap>,
    hi: HeapInst,
    conds: Seq<(Val, Polarity)>,
    r: Heap,
) -> bool {
    match hi {
        HeapInst::Combine { base, sign, target: Target::Resource(call), perm } => exists|
            s: CombineSteps,
        | #[trigger]
            resource_combined(
                a,
                b,
                cert_of(env, call.resource, call.args@.len()).unwrap(),
                vals,
                heap_list(heaps, base),
                sign,
                call,
                perm,
                conds,
                r,
                s,
            ),
        HeapInst::Fold { base, call, perm } => exists|s: FoldSteps| #[trigger]
            folded(
                a,
                b,
                env,
                cert_of(env, call.resource, call.args@.len()).unwrap(),
                pred_of(env, call.resource).unwrap(),
                vals,
                heap_list(heaps, base),
                call,
                perm,
                conds,
                r,
                s,
            ),
        HeapInst::Unfold { base, call, perm } => exists|s: UnfoldSteps| #[trigger]
            unfolded(
                a,
                b,
                env,
                cert_of(env, call.resource, call.args@.len()).unwrap(),
                pred_of(env, call.resource).unwrap(),
                vals,
                heap_list(heaps, base),
                call,
                perm,
                conds,
                r,
                s,
            ),
        _ => heap_result(a, b, vals, heaps, hi, conds, r),
    }
}

/// A value was assumed to be true.
pub open spec fn assumed(a: Context, b: Context, vals: Seq<Id>, v: Val) -> bool {
    exists|mid: Context, id: Id|
        {
            &&& #[trigger] a.leads_to(mid)
            &&& builds(a, mid)
            &&& #[trigger] at_address(mid.graph, vals, v, id)
            &&& reaches(mid, b, only((Tm::Class(id), t_bool(true))))
            &&& learns(mid, b, seq![(Tm::Class(id), t_bool(true))])
        }
}

/// What was assumed is true.
pub proof fn lemma_assumed(a: Context, b: Context, vals: Seq<Id>, v: Val, m: Model)
    requires
        assumed(a, b, vals, v),
        !b.graph.full(),
        b.graph.models(m),
    ensures
        tm_value(m, val_tm(t_classes(vals), v)) == Some(Value::Bool(true)),
{
    let (mid, id) = choose|mid: Context, id: Id|
        {
            &&& #[trigger] a.leads_to(mid)
            &&& builds(a, mid)
            &&& #[trigger] at_address(mid.graph, vals, v, id)
            &&& reaches(mid, b, only((Tm::Class(id), t_bool(true))))
            &&& learns(mid, b, seq![(Tm::Class(id), t_bool(true))])
        };
    let f = (Tm::Class(id), t_bool(true));
    crate::context::lemma_learns_holds(mid, b, seq![f], m);
    assert(crate::model::equation_holds(m, seq![f][0]));
    crate::model::lemma_tm_lit(m, Value::Bool(true));
    crate::terms::lemma_grows_models(mid.graph, b.graph, m);
}

/// A value was shown to be true on the path, from what was known before.
pub open spec fn asserted_on(
    a: Context,
    b: Context,
    vals: Seq<Id>,
    conds: Seq<(Val, Polarity)>,
    v: Val,
) -> bool {
    exists|mid: Context, id: Id, lits: Seq<(Id, Polarity)>|
        {
            &&& a.leads_to(mid)
            &&& builds(a, mid)
            &&& #[trigger] at_address(mid.graph, vals, v, id)
            &&& #[trigger] lits_for(mid.graph, vals, conds, lits)
            &&& written(mid.graph, id, val_tm(t_classes(vals), v))
            &&& shown(mid, lits, id)
            &&& tried(mid, b, lits, id, true)
            &&& at_address(b.graph, vals, v, id)
            &&& lits_for(b.graph, vals, conds, lits)
            &&& true_on(b.graph, lits, id)
        }
}

/// A value was not shown to be true on the path.
pub open spec fn not_asserted(
    a: Context,
    d: Context,
    vals: Seq<Id>,
    conds: Seq<(Val, Polarity)>,
    v: Val,
) -> bool {
    exists|mid: Context, id: Id, lits: Seq<(Id, Polarity)>|
        {
            &&& a.leads_to(mid)
            &&& builds(a, mid)
            &&& #[trigger] at_address(mid.graph, vals, v, id)
            &&& #[trigger] lits_for(mid.graph, vals, conds, lits)
            &&& written(mid.graph, id, val_tm(t_classes(vals), v))
            &&& left_open(mid, d, lits, id)
            &&& tried(mid, d, lits, id, false)
        }
}

/// Why a heap instruction of a method fails.
pub open spec fn heap_failed(
    a: Context,
    d: Context,
    env: Env,
    vals: Seq<Id>,
    heaps: Seq<Heap>,
    hi: HeapInst,
    conds: Seq<(Val, Polarity)>,
    e: VerifyError,
) -> bool {
    match hi {
        HeapInst::Combine { base, sign, target: Target::Resource(call), perm } => match cert_of(
            env,
            call.resource,
            call.args@.len(),
        ) {
            None => e == cert_missing(env, call.resource),
            Some(cert) => sign == Sign::Sub && exists|s: CombineSteps| #[trigger]
                resource_refused(
                    a,
                    d,
                    cert,
                    vals,
                    heap_list(heaps, base),
                    call,
                    perm,
                    conds,
                    e,
                    s,
                ),
        },
        HeapInst::Fold { base, call, perm } => match (
            pred_of(env, call.resource),
            cert_of(env, call.resource, call.args@.len()),
        ) {
            (None, _) => e == VerifyError::Unimplemented("fold of non-flat/abstract predicate"),
            (Some(_), None) => e == cert_missing(env, call.resource),
            (Some(meta), Some(cert)) => if cert.delta@.len() != meta.snap_projs@.len() {
                e == VerifyError::Unimplemented("predicate footprint shape mismatch")
            } else {
                exists|s: FoldSteps| #[trigger]
                    fold_refused(
                        a,
                        d,
                        env,
                        cert,
                        meta,
                        vals,
                        heap_list(heaps, base),
                        call,
                        perm,
                        conds,
                        e,
                        s,
                    )
            },
        },
        HeapInst::Unfold { base, call, perm } => match (
            pred_of(env, call.resource),
            cert_of(env, call.resource, call.args@.len()),
        ) {
            (None, _) => e == VerifyError::Unimplemented("unfold of non-flat/abstract predicate"),
            (Some(_), None) => e == cert_missing(env, call.resource),
            (Some(meta), Some(cert)) => exists|s: UnfoldSteps| #[trigger]
                unfold_refused(
                    a,
                    d,
                    cert,
                    meta,
                    vals,
                    heap_list(heaps, base),
                    call,
                    perm,
                    conds,
                    e,
                    s,
                ),
        },
        _ => heap_refused(a, d, vals, heaps, hi, conds, e),
    }
}

/// Why an instruction of a method fails.
pub open spec fn step_failed(
    a: Context,
    d: Context,
    env: Env,
    s: Slots,
    inst: Inst,
    e: VerifyError,
) -> bool {
    match inst.kind {
        InstKind::Pure(_, pi) => !pure_known(s.vals, env.quants.entries@, pi) && e == pure_missing(
            env.quants.entries@,
            pi,
        ),
        InstKind::Heap(hi) => heap_failed(a, d, env, s.vals, s.heaps, hi, inst.pc.conds@, e),
        InstKind::Assume(_) => false,
        InstKind::Assert(v) => e == VerifyError::AssertionFailed && not_asserted(
            a,
            d,
            s.vals,
            inst.pc.conds@,
            v,
        ),
    }
}

/// The values and the heaps that instructions have left.
pub ghost struct Slots {
    pub vals: Seq<Id>,
    pub heaps: Seq<Heap>,
}

/// An instruction of a method was run: what it leaves, and what the context knows
/// after it.
pub open spec fn stepped(a: Context, b: Context, env: Env, s: Slots, t: Slots, inst: Inst) -> bool {
    match inst.kind {
        InstKind::Pure(_, pi) => {
            &&& t.heaps == s.heaps
            &&& t.vals.len() == s.vals.len() + 1
            &&& t.vals.drop_last() == s.vals
            &&& builds(a, b)
            &&& pure_result(b.graph, s.vals, s.heaps, env.quants.entries@, pi, t.vals.last())
            &&& pi is Fresh ==> crate::context::coined(a, b, t.vals.last())
        },
        InstKind::Heap(hi) => {
            &&& t.vals == s.vals
            &&& t.heaps.len() == s.heaps.len() + 1
            &&& t.heaps.drop_last() == s.heaps
            &&& heap_stepped(a, b, env, s.vals, s.heaps, hi, inst.pc.conds@, t.heaps.last())
        },
        InstKind::Assume(v) => t == s && assumed(a, b, s.vals, v),
        InstKind::Assert(v) => t == s && asserted_on(a, b, s.vals, inst.pc.conds@, v),
    }
}

impl EvalState {
    pub open spec fn slots(self) -> Slots {
        Slots { vals: self.vals@, heaps: self.heaps@ }
    }
}

/// Runs one instruction of a method.
#[verifier::rlimit(40)]
pub fn eval_method_inst(ctx: &mut Context, env: &Env, state: &mut EvalState, inst: &Inst) -> (r:
    Result<(), VerifyError>)
    requires
        old(ctx).wf(),
        env.wf(),
        state_in(old(ctx).graph, old(state).vals@, old(state).heaps@),
        inst_ok(*inst, old(state).vals@.len(), old(state).heaps@.len()),
    ensures
        old(ctx).leads_to(*final(ctx)),
        r matches Err(e) ==> !(e is AtInst),
        r is Ok ==> state_in(final(ctx).graph, final(state).vals@, final(state).heaps@) && stepped(
            *old(ctx),
            *final(ctx),
            *env,
            old(state).slots(),
            final(state).slots(),
            *inst,
        ),
        match inst.kind {
            InstKind::Pure(_, pi) => r is Ok == pure_known(old(state).vals@, env.quants.entries@, pi),
            InstKind::Assume(_) => r is Ok,
            InstKind::Assert(Val::Temp(n)) => all_temps(inst.pc.conds@) && settled(
                old(ctx).graph,
                slot_lits(old(state).vals@, inst.pc.conds@),
                old(state).vals@[n as int],
            ) && !final(ctx).graph.full() ==> r is Ok,
            _ => true,
        },
        r matches Err(e) ==> step_failed(
            *old(ctx),
            *final(ctx),
            *env,
            old(state).slots(),
            *inst,
            e,
        ),
        r is Err ==> final(state).slots() == old(state).slots(),
        match inst.kind {
            InstKind::Pure(ty, pi) => r is Ok ==> types_noted(
                old(state).types,
                final(state).types,
                *final(ctx),
                ty,
                pi,
            ),
            InstKind::Heap(_) => true,
            _ => final(state).types == old(state).types,
        },
{
    broadcast use group_grows;

    let ghost c0 = *ctx;
    let ghost s0 = state.slots();
    match &inst.kind {
        InstKind::Pure(ty, pi) => {
            let id = match eval_pure_inst(ctx, state, &env.quants.entries, ty, pi) {
                Ok(id) => id,
                Err(e) => {
                    return Err(e);
                },
            };
            proof {
                lemma_state_grows(c0.graph, ctx.graph, state.vals@, state.heaps@);
            }
            state.vals.push(id);
            proof {
                assert(state.vals@.drop_last() =~= s0.vals);
            }
        },
        InstKind::Heap(hi) => {
            let h = match run_heap_inst(ctx, env, state, hi, &inst.pc) {
                Ok(h) => h,
                Err(e) => {
                    return Err(e);
                },
            };
            proof {
                lemma_state_grows(c0.graph, ctx.graph, state.vals@, state.heaps@);
            }
            state.heaps.push(h);
            proof {
                assert(state.heaps@.drop_last() =~= s0.heaps);
            }
        },
        InstKind::Assume(v) => {
            let id = get_val(ctx, &state.vals, v);
            let ghost c1 = *ctx;
            assume_true(ctx, id);
            proof {
                lemma_leads_trans(c0, c1, *ctx);
                lemma_state_grows(c0.graph, ctx.graph, state.vals@, state.heaps@);
                assert(at_address(c1.graph, s0.vals, *v, id));
                assert(c0.leads_to(c1));
            }
        },
        InstKind::Assert(v) => {
            let id = get_val(ctx, &state.vals, v);
            let ghost c1 = *ctx;
            proof {
                lemma_state_grows(c0.graph, c1.graph, state.vals@, state.heaps@);
            }
            let lits = collect_pc_lits(ctx, &state.vals, &inst.pc);
            let ghost c2 = *ctx;
            proof {
                lemma_leads_trans(c0, c1, c2);
                crate::terms::lemma_written_kept(
                    c1.graph,
                    c2.graph,
                    id,
                    val_tm(t_classes(s0.vals), *v),
                );
            }
            let proven = ctx.prove_under_pc(id, &lits);
            proof {
                lemma_leads_trans(c0, c2, *ctx);
                lemma_leads_trans(c1, c2, *ctx);
            }
            if !proven {
                proof {
                    lemma_grows_denotes(c1.graph, c2.graph, id, val_tm(t_classes(s0.vals), *v));
                    assert(at_address(c2.graph, s0.vals, *v, id));
                    assert(lits_for(c2.graph, s0.vals, inst.pc.conds@, lits@));
                    assert(left_open(c2, *ctx, lits@, id));
                }
                return Err(VerifyError::AssertionFailed);
            }
            proof {
                lemma_grows_denotes(c1.graph, c2.graph, id, val_tm(t_classes(s0.vals), *v));
                assert(at_address(c2.graph, s0.vals, *v, id));
                assert(lits_for(c2.graph, s0.vals, inst.pc.conds@, lits@));
                assert(shown(c2, lits@, id));
                lemma_state_grows(c0.graph, ctx.graph, state.vals@, state.heaps@);
                lemma_lits_grow(c2.graph, ctx.graph, s0.vals, inst.pc.conds@, lits@);
                lemma_grows_denotes(c1.graph, ctx.graph, id, val_tm(t_classes(s0.vals), *v));
                assert(at_address(ctx.graph, s0.vals, *v, id));
            }
        },
    }
    Ok(())
}

/// An assertion holds under its own hypothesis: on a path that takes its operand for
/// true, it needs no proof.
pub proof fn law_own_hypothesis(
    g: Graph,
    vals: Seq<Id>,
    conds: Seq<(Val, Polarity)>,
    n: usize,
    i: int,
)
    requires
        !g.full(),
        0 <= i < conds.len(),
        conds[i] == (Val::Temp(n), Polarity::Positive),
    ensures
        settled(g, slot_lits(vals, conds), vals[n as int]),
{
    assert(slot_lits(vals, conds)[i] == (vals[n as int], Polarity::Positive));
}

/// Runs one heap instruction of a method.
fn run_heap_inst(
    ctx: &mut Context,
    env: &Env,
    state: &mut EvalState,
    hi: &HeapInst,
    pc: &PathConds,
) -> (r: Result<Heap, VerifyError>)
    requires
        old(ctx).wf(),
        env.wf(),
        state_in(old(ctx).graph, old(state).vals@, old(state).heaps@),
        heap_inst_ok(*hi, old(state).vals@.len(), old(state).heaps@.len()),
        guards_ok(pc.conds@, old(state).vals@.len()),
    ensures
        old(ctx).leads_to(*final(ctx)),
        final(state).vals == old(state).vals,
        final(state).heaps == old(state).heaps,
        r matches Err(e) ==> !(e is AtInst),
        r matches Ok(h) ==> entries_in(final(ctx).graph, h.list()) && heap_stepped(
            *old(ctx),
            *final(ctx),
            *env,
            old(state).vals@,
            old(state).heaps@,
            *hi,
            pc.conds@,
            h,
        ),
        r matches Err(e) ==> heap_failed(
            *old(ctx),
            *final(ctx),
            *env,
            old(state).vals@,
            old(state).heaps@,
            *hi,
            pc.conds@,
            e,
        ),
{
    match hi {
        HeapInst::Combine { base, sign, target, perm } => match target {
            Target::Resource(call) => combine_resource(
                ctx,
                env,
                state,
                *base,
                *sign,
                call,
                perm,
                pc,
            ),
            Target::Loc(_) => eval_heap_inst(ctx, state, hi, pc),
        },
        HeapInst::Fold { base, call, perm } => fold(ctx, env, state, *base, call, perm, pc),
        HeapInst::Unfold { base, call, perm } => unfold(ctx, env, state, *base, call, perm, pc),
        HeapInst::Assign(_, _) => eval_heap_inst(ctx, state, hi, pc),
    }
}

/// The zero of a type. One that is not a number has that of the reals.
pub open spec fn zero_value(ty: Type) -> Value {
    match ty {
        Type::Int => Value::Int(0),
        _ => Value::Real(0 as real),
    }
}

/// The zero of a type.
pub fn zero_of(ty: &Type) -> (r: Expr)
    ensures
        expr_tm(r) == t_lit(zero_value(*ty)),
        forall|g: Graph| #[trigger] expr_in(r, g),
{
    match ty {
        Type::Int => Expr::Lit(Literal::Int(Int::from_i64(0))),
        _ => Expr::zero(),
    }
}

/// What an instruction asks for besides its operands: that the permission is not
/// negative, or that the divisor is not zero.
pub open spec fn obligation(vals: Seq<Id>, kind: InstKind) -> Option<(Tm, &'static str)> {
    let ts = t_classes(vals);
    match kind {
        InstKind::Heap(HeapInst::Combine { perm, .. }) => Some(
            (
                t_not(t_ltr(val_tm(ts, perm), t_real(0 as real))),
                "permission may be negative",
            ),
        ),
        InstKind::Pure(ty, PureInst::Binary(op, _, r)) => if op == BinOp::DivI || op
            == BinOp::DivR {
            Some((t_not(t_eq(val_tm(ts, r), t_lit(zero_value(ty)))), "divisor may be zero"))
        } else {
            None
        },
        _ => None,
    }
}

/// The class of what an instruction asks for besides its operands, and what it is.
pub fn inst_obligations(ctx: &mut Context, vals: &Vec<Id>, kind: &InstKind) -> (r: Option<
    (Id, &'static str),
>)
    requires
        old(ctx).wf(),
        old(ctx).graph.has_all(vals@),
        match *kind {
            InstKind::Pure(_, PureInst::Binary(_, _, v)) => val_ok(v, vals@.len()),
            InstKind::Heap(HeapInst::Combine { perm, .. }) => val_ok(perm, vals@.len()),
            _ => true,
        },
    ensures
        old(ctx).leads_to(*final(ctx)),
        builds(*old(ctx), *final(ctx)),
        r is Some == obligation(vals@, *kind) is Some,
        r matches Some(g) ==> final(ctx).graph.has(g.0) && final(ctx).graph.denotes(
            g.0,
            obligation(vals@, *kind).unwrap().0,
        ) && written(final(ctx).graph, g.0, obligation(vals@, *kind).unwrap().0) && g.1
            == obligation(vals@, *kind).unwrap().1,
{
    let ghost c0 = *ctx;
    let ghost ts = t_classes(vals@);
    proof {
        lemma_leads_refl(c0);
    }
    match kind {
        InstKind::Heap(HeapInst::Combine { perm, .. }) => {
            let p = get_val(ctx, vals, perm);
            let ghost c1 = *ctx;
            let e = Expr::negation(Expr::bin(BinOp::LtR, Expr::Class(p), Expr::zero()));
            let goal = ctx.build(&e);
            proof {
                lemma_leads_trans(c0, c1, *ctx);
                lemma_grows_denotes(c1.graph, ctx.graph, p, val_tm(ts, *perm));
                crate::terms::lemma_written_kept(c1.graph, ctx.graph, p, val_tm(ts, *perm));
                crate::terms::lemma_written_swap(
                    ctx.graph,
                    goal,
                    p,
                    BinOp::LtR,
                    val_tm(ts, *perm),
                    t_real(0 as real),
                );
                lemma_swap_class(
                    ctx.graph,
                    goal,
                    p,
                    val_tm(ts, *perm),
                    BinOp::LtR,
                    t_real(0 as real),
                );
            }
            Some((goal, "permission may be negative"))
        },
        InstKind::Pure(ty, PureInst::Binary(op, _, v)) => {
            if *op == BinOp::DivI || *op == BinOp::DivR {
                let d = get_val(ctx, vals, v);
                let ghost c1 = *ctx;
                let e = Expr::negation(Expr::bin(BinOp::Eq, Expr::Class(d), zero_of(ty)));
                let goal = ctx.build(&e);
                proof {
                    lemma_leads_trans(c0, c1, *ctx);
                    lemma_grows_denotes(c1.graph, ctx.graph, d, val_tm(ts, *v));
                    crate::terms::lemma_written_kept(c1.graph, ctx.graph, d, val_tm(ts, *v));
                    crate::terms::lemma_written_swap(
                        ctx.graph,
                        goal,
                        d,
                        BinOp::Eq,
                        val_tm(ts, *v),
                        t_lit(zero_value(*ty)),
                    );
                    lemma_swap_class(
                        ctx.graph,
                        goal,
                        d,
                        val_tm(ts, *v),
                        BinOp::Eq,
                        t_lit(zero_value(*ty)),
                    );
                }
                Some((goal, "divisor may be zero"))
            } else {
                None
            }
        },
        _ => None,
    }
}

/// A class in a comparison can be spelled as what it denotes.
proof fn lemma_swap_class(g: Graph, goal: Id, x: Id, t: Tm, op: BinOp, zero: Tm)
    requires
        g.denotes(x, t),
        g.denotes(goal, t_not(t_bin(op, Tm::Class(x), zero))),
    ensures
        g.denotes(goal, t_not(t_bin(op, t, zero))),
{
    if !g.full() {
        assert forall|m: Model| #[trigger] g.models(m) implies tm_value(
            m,
            t_not(t_bin(op, t, zero)),
        ) == Some(m.at(goal)) by {
            lemma_tm_bin(m, op, Tm::Class(x), zero);
            lemma_tm_bin(m, op, t, zero);
            lemma_tm_not(m, t_bin(op, Tm::Class(x), zero));
            lemma_tm_not(m, t_bin(op, t, zero));
        }
    }
}

/// An instruction of a resource body was run.
pub open spec fn body_stepped(
    a: Context,
    b: Context,
    env: Env,
    s: Slots,
    t: Slots,
    inst: Inst,
) -> bool {
    stepped(a, b, env, s, t, inst) && match inst.kind {
        InstKind::Pure(_, _) => true,
        InstKind::Heap(HeapInst::Combine { target: Target::Loc(_), .. }) => true,
        InstKind::Heap(HeapInst::Assign(_, _)) => true,
        _ => false,
    }
}

/// Why an instruction of a resource body fails.
pub open spec fn body_step_failed(
    a: Context,
    d: Context,
    es: Seq<Entry>,
    s: Slots,
    inst: Inst,
    e: VerifyError,
) -> bool {
    match inst.kind {
        InstKind::Pure(_, pi) => !pure_known(s.vals, es, pi) && e == pure_missing(es, pi),
        InstKind::Heap(hi) => heap_refused(a, d, s.vals, s.heaps, hi, inst.pc.conds@, e),
        _ => e == VerifyError::Unimplemented("effectful inst in resource body"),
    }
}

/// What comes of an instruction of a resource body.
pub open spec fn body_answer(
    vals: Seq<Id>,
    es: Seq<Entry>,
    kind: InstKind,
    r: Result<(), VerifyError>,
) -> bool {
    match kind {
        InstKind::Pure(_, pi) => r is Ok == pure_known(vals, es, pi),
        InstKind::Assume(_) => r == Err::<(), VerifyError>(
            VerifyError::Unimplemented("effectful inst in resource body"),
        ),
        InstKind::Assert(_) => r == Err::<(), VerifyError>(
            VerifyError::Unimplemented("effectful inst in resource body"),
        ),
        InstKind::Heap(HeapInst::Combine { target: Target::Loc(_), sign, .. }) => r is Err
            ==> r == Err::<(), VerifyError>(VerifyError::InsufficientPermission) && sign
            == Sign::Sub,
        InstKind::Heap(HeapInst::Combine { target: Target::Resource(_), .. }) => r == Err::<
            (),
            VerifyError,
        >(VerifyError::Unimplemented("resource combine outside method body")),
        InstKind::Heap(HeapInst::Assign(_, _)) => r is Err ==> r == Err::<(), VerifyError>(
            VerifyError::InsufficientPermission,
        ),
        InstKind::Heap(_) => r == Err::<(), VerifyError>(
            VerifyError::Unimplemented("fold/unfold outside method body"),
        ),
    }
}

/// Runs one instruction of a resource body.
pub fn eval_resource_body_inst(
    ctx: &mut Context,
    env: &Env,
    state: &mut EvalState,
    inst: &Inst,
) -> (r: Result<(), VerifyError>)
    requires
        old(ctx).wf(),
        state_in(old(ctx).graph, old(state).vals@, old(state).heaps@),
        inst_ok(*inst, old(state).vals@.len(), old(state).heaps@.len()),
    ensures
        old(ctx).leads_to(*final(ctx)),
        r matches Err(e) ==> !(e is AtInst),
        r is Ok ==> state_in(final(ctx).graph, final(state).vals@, final(state).heaps@)
            && body_stepped(
            *old(ctx),
            *final(ctx),
            *env,
            old(state).slots(),
            final(state).slots(),
            *inst,
        ),
        body_answer(old(state).vals@, env.quants.entries@, inst.kind, r),
        r matches Err(e) ==> body_step_failed(
            *old(ctx),
            *final(ctx),
            env.quants.entries@,
            old(state).slots(),
            *inst,
            e,
        ),
        r is Err ==> final(state).slots() == old(state).slots(),
{
    let ghost c0 = *ctx;
    let ghost s0 = state.slots();
    proof {
        lemma_leads_refl(c0);
    }
    match &inst.kind {
        InstKind::Pure(ty, pi) => {
            let id = match eval_pure_inst(ctx, state, &env.quants.entries, ty, pi) {
                Ok(id) => id,
                Err(e) => {
                    return Err(e);
                },
            };
            proof {
                lemma_state_grows(c0.graph, ctx.graph, state.vals@, state.heaps@);
            }
            state.vals.push(id);
            proof {
                assert(state.vals@.drop_last() =~= s0.vals);
            }
            Ok(())
        },
        InstKind::Heap(hi) => {
            let h = match eval_heap_inst(ctx, state, hi, &inst.pc) {
                Ok(h) => h,
                Err(e) => {
                    return Err(e);
                },
            };
            proof {
                lemma_state_grows(c0.graph, ctx.graph, state.vals@, state.heaps@);
            }
            state.heaps.push(h);
            proof {
                assert(state.heaps@.drop_last() =~= s0.heaps);
            }
            Ok(())
        },
        InstKind::Assume(_) => Err(VerifyError::Unimplemented("effectful inst in resource body")),
        InstKind::Assert(_) => Err(VerifyError::Unimplemented("effectful inst in resource body")),
    }
}

} // verus!
