//! Evaluating pure instructions.

use crate::context::{
    builds, cube_holds, cube_in, lemma_cube_grows, lemma_leads_refl, lemma_leads_trans, t_fresh, Context,
};
use crate::graph::Graph;
use crate::heap::facts::{
    deduces, lemma_reaches_extended, lemma_reaches_proof, lemma_reaches_trans,
};
use crate::lang::{FuncId, Id, OpV, Symbolic};
use crate::method::error::VerifyError;
use crate::method::merge::amount;
use crate::method::plain::{chunk_map, entries_in, lemma_entries_grow, Chunk, Heap};
use crate::model::{lemma_tm_bin, lemma_tm_lit, t_bin, t_classes, t_ite, t_ltr, t_real, Model, Tm};
use crate::program::{HeapVal, PathConds, PureInst};
use crate::prove::{
    left_open, lemma_shown_earlier, lemma_unshown_earlier, shown, shown_tm, unshown,
};
use crate::quant::{entry_at, lookup_entry, Entry};
use crate::rewrite::recipe::{guards_ok, val_ok, val_tm, val_tms, vals_ok};
use crate::terms::{
    built, denote_all, group_grows, lemma_denotes_self, lemma_grows_denotes, tied, written, Expr,
};
use crate::types::Oracle;
use crate::vmir::{clone_types, types_view, BinOp, Literal, Polarity, Type, Val, Value};
use vstd::prelude::*;

verus! {

broadcast use {
    vstd::std_specs::hash::group_hash_axioms,
    crate::context::lemma_builds_trans,
};

/// What instructions computed so far: a class per value slot, a heap per heap slot,
/// and the types of symbols and functions.
pub struct EvalState {
    pub vals: Vec<Id>,
    pub heaps: Vec<Heap>,
    pub types: Oracle,
}

/// Every id of a state names a class.
pub open spec fn state_in(g: Graph, vals: Seq<Id>, heaps: Seq<Heap>) -> bool {
    &&& g.has_all(vals)
    &&& forall|i: int| 0 <= i < heaps.len() ==> entries_in(g, (#[trigger] heaps[i]).list())
}

pub proof fn lemma_state_grows(g: Graph, h: Graph, vals: Seq<Id>, heaps: Seq<Heap>)
    requires
        g.grows_to(h),
        state_in(g, vals, heaps),
    ensures
        state_in(h, vals, heaps),
{
    assert forall|j: int| 0 <= j < vals.len() implies h.has(#[trigger] vals[j]) by {
        assert(g.has(vals[j]));
    }
    assert forall|i: int| 0 <= i < heaps.len() implies entries_in(
        h,
        (#[trigger] heaps[i]).list(),
    ) by {
        lemma_entries_grow(g, h, heaps[i].list());
    }
}

impl EvalState {
    pub fn new() -> (r: EvalState)
        ensures
            r.vals@.len() == 0,
            r.heaps@.len() == 0,
    {
        EvalState { vals: Vec::new(), heaps: Vec::new(), types: Oracle::new() }
    }

    /// A state whose first slots hold arguments.
    pub fn with_args(args: Vec<Id>) -> (r: EvalState)
        ensures
            r.vals == args,
            r.heaps@.len() == 0,
    {
        EvalState { vals: args, heaps: Vec::new(), types: Oracle::new() }
    }
}

/// The class of an operand.
pub fn get_val(ctx: &mut Context, vals: &Vec<Id>, v: &Val) -> (r: Id)
    requires
        old(ctx).wf(),
        old(ctx).graph.has_all(vals@),
        val_ok(*v, vals@.len()),
    ensures
        old(ctx).leads_to(*final(ctx)),
        built(old(ctx).graph, final(ctx).graph, r, val_tm(t_classes(vals@), *v)),
        builds(*old(ctx), *final(ctx)),
        written(final(ctx).graph, r, val_tm(t_classes(vals@), *v)),
        v matches Val::Temp(n) ==> r == vals@[n as int] && *final(ctx) == *old(ctx),
{
    match v {
        Val::Temp(n) => {
            proof {
                lemma_leads_refl(*ctx);
                crate::terms::lemma_grows_refl(ctx.graph);
                assert(ctx.graph.has(vals@[*n as int]));
                lemma_denotes_self(ctx.graph, vals@[*n as int]);
            }
            vals[*n]
        },
        Val::Literal(l) => ctx.build(&Expr::Lit(l.clone())),
    }
}

/// The classes of operands.
pub fn get_vals(ctx: &mut Context, vals: &Vec<Id>, vs: &Vec<Val>) -> (r: Vec<Id>)
    requires
        old(ctx).wf(),
        old(ctx).graph.has_all(vals@),
        vals_ok(vs@, vals@.len()),
    ensures
        old(ctx).leads_to(*final(ctx)),
        builds(*old(ctx), *final(ctx)),
        denote_all(final(ctx).graph, r@, val_tms(t_classes(vals@), vs@)),
{
    broadcast use group_grows;

    let ghost c0 = *ctx;
    let mut out: Vec<Id> = Vec::new();
    let mut i: usize = 0;
    proof {
        lemma_leads_refl(c0);
    }
    while i < vs.len()
        invariant
            i <= vs@.len(),
            ctx.wf(),
            c0.leads_to(*ctx),
            c0.graph.has_all(vals@),
            vals_ok(vs@, vals@.len()),
            builds(c0, *ctx),
            out@.len() == i,
            forall|k: int|
                0 <= k < i ==> ctx.graph.has(#[trigger] out@[k]) && ctx.graph.denotes(
                    out@[k],
                    val_tm(t_classes(vals@), vs@[k]),
                ) && tied(out@[k], val_tm(t_classes(vals@), vs@[k])),
        decreases vs.len() - i,
    {
        let ghost c1 = *ctx;
        let ghost before = out@;
        proof {
            assert(val_ok(vs@[i as int], vals@.len()));
            assert forall|j: int| 0 <= j < vals@.len() implies c1.graph.has(#[trigger] vals@[j]) by {
                assert(c0.graph.has(vals@[j]));
            }
        }
        let id = get_val(ctx, vals, &vs[i]);
        out.push(id);
        proof {
            lemma_leads_trans(c0, c1, *ctx);
            assert forall|k: int| 0 <= k < i + 1 implies ctx.graph.has(#[trigger] out@[k])
                && ctx.graph.denotes(out@[k], val_tm(t_classes(vals@), vs@[k])) && tied(
                out@[k],
                val_tm(t_classes(vals@), vs@[k]),
            ) by {
                if k < i {
                    assert(out@[k] == before[k]);
                    lemma_grows_denotes(
                        c1.graph,
                        ctx.graph,
                        before[k],
                        val_tm(t_classes(vals@), vs@[k]),
                    );
                }
            }
        }
        i += 1;
    }
    proof {
        let ts = val_tms(t_classes(vals@), vs@);
        assert forall|j: int| 0 <= j < out@.len() implies ctx.graph.has(#[trigger] out@[j])
            && ctx.graph.denotes(out@[j], ts[j]) && tied(out@[j], ts[j]) by {}
    }
    out
}

/// Literals that stand for the conditions of an instruction.
pub open spec fn lits_for(
    g: Graph,
    vals: Seq<Id>,
    conds: Seq<(Val, Polarity)>,
    lits: Seq<(Id, Polarity)>,
) -> bool {
    &&& lits.len() == conds.len()
    &&& forall|i: int|
        0 <= i < lits.len() ==> g.has((#[trigger] lits[i]).0) && lits[i].1 == conds[i].1
            && g.denotes(lits[i].0, val_tm(t_classes(vals), conds[i].0)) && (
        conds[i].0 matches Val::Temp(n) ==> lits[i].0 == vals[n as int])
}

/// No condition is a literal.
pub open spec fn all_temps(conds: Seq<(Val, Polarity)>) -> bool {
    forall|i: int| 0 <= i < conds.len() ==> (#[trigger] conds[i]).0 is Temp
}

/// The literals of conditions that name slots.
pub open spec fn slot_lits(vals: Seq<Id>, conds: Seq<(Val, Polarity)>) -> Seq<(Id, Polarity)> {
    Seq::new(
        conds.len(),
        |i: int| (vals[conds[i].0->Temp_0 as int], conds[i].1),
    )
}

pub proof fn lemma_lits_grow(
    g: Graph,
    h: Graph,
    vals: Seq<Id>,
    conds: Seq<(Val, Polarity)>,
    lits: Seq<(Id, Polarity)>,
)
    requires
        g.grows_to(h),
        lits_for(g, vals, conds, lits),
    ensures
        lits_for(h, vals, conds, lits),
        cube_in(h, lits),
{
    assert forall|i: int| 0 <= i < lits.len() implies h.has((#[trigger] lits[i]).0) && lits[i].1
        == conds[i].1 && h.denotes(lits[i].0, val_tm(t_classes(vals), conds[i].0)) by {
        lemma_grows_denotes(g, h, lits[i].0, val_tm(t_classes(vals), conds[i].0));
    }
}

/// The conditions of an instruction, as literals over classes.
pub fn collect_pc_lits(ctx: &mut Context, vals: &Vec<Id>, pc: &PathConds) -> (r: Vec<
    (Id, Polarity),
>)
    requires
        old(ctx).wf(),
        old(ctx).graph.has_all(vals@),
        guards_ok(pc.conds@, vals@.len()),
    ensures
        old(ctx).leads_to(*final(ctx)),
        builds(*old(ctx), *final(ctx)),
        lits_for(final(ctx).graph, vals@, pc.conds@, r@),
        cube_in(final(ctx).graph, r@),
        all_temps(pc.conds@) ==> *final(ctx) == *old(ctx) && r@ == slot_lits(vals@, pc.conds@),
{
    let ghost c0 = *ctx;
    let mut out: Vec<(Id, Polarity)> = Vec::new();
    let mut i: usize = 0;
    proof {
        lemma_leads_refl(c0);
    }
    while i < pc.conds.len()
        invariant
            i <= pc.conds@.len(),
            ctx.wf(),
            c0.leads_to(*ctx),
            c0.graph.has_all(vals@),
            guards_ok(pc.conds@, vals@.len()),
            builds(c0, *ctx),
            lits_for(ctx.graph, vals@, pc.conds@.take(i as int), out@),
            all_temps(pc.conds@) ==> *ctx == c0,
        decreases pc.conds.len() - i,
    {
        let ghost c1 = *ctx;
        let ghost before = out@;
        let ghost now = pc.conds@.take(i + 1);
        proof {
            assert(val_ok(pc.conds@[i as int].0, vals@.len()));
            assert forall|j: int| 0 <= j < vals@.len() implies c1.graph.has(#[trigger] vals@[j]) by {
                assert(c0.graph.has(vals@[j]));
            }
        }
        let id = get_val(ctx, vals, &pc.conds[i].0);
        out.push((id, pc.conds[i].1));
        proof {
            lemma_leads_trans(c0, c1, *ctx);
            lemma_lits_grow(
                c1.graph,
                ctx.graph,
                vals@,
                pc.conds@.take(i as int),
                before,
            );
            assert forall|k: int| 0 <= k < out@.len() implies ctx.graph.has((#[trigger] out@[k]).0)
                && out@[k].1 == now[k].1 && ctx.graph.denotes(
                out@[k].0,
                val_tm(t_classes(vals@), now[k].0),
            ) && (now[k].0 matches Val::Temp(n) ==> out@[k].0 == vals@[n as int]) by {
                if k < i {
                    assert(out@[k] == before[k]);
                    assert(now[k] == pc.conds@.take(i as int)[k]);
                }
            }
        }
        i += 1;
    }
    proof {
        assert(pc.conds@.take(pc.conds@.len() as int) =~= pc.conds@);
        crate::terms::lemma_grows_refl(ctx.graph);
        lemma_lits_grow(ctx.graph, ctx.graph, vals@, pc.conds@, out@);
        if all_temps(pc.conds@) {
            assert forall|k: int| 0 <= k < out@.len() implies #[trigger] out@[k] == slot_lits(
                vals@,
                pc.conds@,
            )[k] by {
                assert(pc.conds@[k].0 is Temp);
            }
            assert(out@ =~= slot_lits(vals@, pc.conds@));
        }
    }
    out
}

/// A heap operand names a slot that was filled.
pub open spec fn heap_ok(hv: HeapVal, n: nat) -> bool {
    hv matches HeapVal::Temp(i) ==> i < n
}

/// The entries of a heap operand.
pub open spec fn heap_list(heaps: Seq<Heap>, hv: HeapVal) -> Seq<(Id, Chunk)> {
    match hv {
        HeapVal::Empty => Seq::empty(),
        HeapVal::Temp(n) => heaps[n as int].list(),
    }
}

/// The heap of an operand.
pub fn get_heap(heaps: &Vec<Heap>, hv: HeapVal) -> (r: Heap)
    requires
        heap_ok(hv, heaps@.len()),
    ensures
        r.list() == heap_list(heaps@, hv),
{
    match hv {
        HeapVal::Empty => {
            let r = Heap::empty();
            proof {
                assert(r.list() =~= Seq::empty());
            }
            r
        },
        HeapVal::Temp(n) => heaps[n].copy(),
    }
}

pub proof fn lemma_heap_in(g: Graph, vals: Seq<Id>, heaps: Seq<Heap>, hv: HeapVal)
    requires
        state_in(g, vals, heaps),
        heap_ok(hv, heaps.len()),
    ensures
        entries_in(g, heap_list(heaps, hv)),
{
    if let HeapVal::Temp(n) = hv {
        assert(entries_in(g, heaps[n as int].list()));
    }
}

/// The operands of a pure instruction name slots that were filled.
pub open spec fn pure_ok(pi: PureInst, nv: nat, nh: nat) -> bool {
    match pi {
        PureInst::Fresh => true,
        PureInst::Binary(_, l, r) => val_ok(l, nv) && val_ok(r, nv),
        PureInst::Ternary(c, t, e) => val_ok(c, nv) && val_ok(t, nv) && val_ok(e, nv),
        PureInst::RealCast(v) => val_ok(v, nv),
        PureInst::Deref(hv, loc) => heap_ok(hv, nh) && val_ok(loc, nv),
        PureInst::FunctionCall(fc) => vals_ok(fc.args@, nv),
        PureInst::Perm(hv, loc) => heap_ok(hv, nh) && val_ok(loc, nv),
        PureInst::Forall(_) => true,
    }
}

/// The class of a location operand.
pub open spec fn at_address(g: Graph, vals: Seq<Id>, loc: Val, addr: Id) -> bool {
    &&& g.has(addr)
    &&& g.denotes(addr, val_tm(t_classes(vals), loc))
    &&& loc matches Val::Temp(n) ==> addr == vals[n as int]
}

/// A class that denotes a symbol.
pub open spec fn is_symbol(g: Graph, id: Id) -> bool {
    exists|n: u32| g.denotes(id, #[trigger] t_fresh(n))
}

/// A heap read at an address: the value of the chunk, or a symbol where there is
/// none.
pub open spec fn reads_value(g: Graph, es: Seq<(Id, Chunk)>, addr: Id, r: Id) -> bool {
    if chunk_map(es).dom().contains(addr) {
        r == chunk_map(es)[addr].value
    } else {
        is_symbol(g, r)
    }
}

/// The permission at an address: that of the chunk, or zero where there is none.
pub open spec fn reads_perm(g: Graph, es: Seq<(Id, Chunk)>, addr: Id, r: Id) -> bool {
    if chunk_map(es).dom().contains(addr) {
        r == chunk_map(es)[addr].perm
    } else {
        g.denotes(r, t_real(0 as real))
    }
}

/// What captured slots hold.
pub open spec fn slot_tms(vals: Seq<Id>, free: Seq<usize>) -> Seq<Tm> {
    Seq::new(free.len(), |k: int| Tm::Class(vals[free[k] as int]))
}

/// What a pure instruction computes.
pub open spec fn pure_result(
    g: Graph,
    vals: Seq<Id>,
    heaps: Seq<Heap>,
    es: Seq<Entry>,
    pi: PureInst,
    r: Id,
) -> bool {
    let ts = t_classes(vals);
    match pi {
        PureInst::Fresh => is_symbol(g, r),
        PureInst::Binary(op, a, b) => g.denotes(r, t_bin(op, val_tm(ts, a), val_tm(ts, b))),
        PureInst::Ternary(c, t, e) => g.denotes(
            r,
            t_ite(val_tm(ts, c), val_tm(ts, t), val_tm(ts, e)),
        ),
        PureInst::RealCast(v) => g.denotes(r, Tm::App(OpV::RealCast, seq![val_tm(ts, v)])),
        PureInst::Deref(hv, loc) => exists|addr: Id| #[trigger]
            at_address(g, vals, loc, addr) && reads_value(g, heap_list(heaps, hv), addr, r),
        PureInst::FunctionCall(fc) => g.denotes(
            r,
            Tm::App(
                OpV::FuncApp(FuncId(fc.function), types_view(fc.types@)),
                val_tms(ts, fc.args@),
            ),
        ),
        PureInst::Perm(hv, loc) => exists|addr: Id| #[trigger]
            at_address(g, vals, loc, addr) && reads_perm(g, heap_list(heaps, hv), addr, r),
        PureInst::Forall(q) => entry_at(es, q.label) matches Some(i) && g.denotes(
            r,
            Tm::App(OpV::Forall(es[i].recipe), slot_tms(vals, es[i].free@)),
        ),
    }
}

/// The class of a term over classes.
pub(crate) fn add_app(ctx: &mut Context, n: &Symbolic, Ghost(ts): Ghost<Seq<Tm>>) -> (r: Id)
    requires
        old(ctx).wf(),
        denote_all(old(ctx).graph, n@.args, ts),
    ensures
        old(ctx).leads_to(*final(ctx)),
        built(old(ctx).graph, final(ctx).graph, r, Tm::App(n@.op, ts)),
{
    let ghost c0 = *ctx;
    proof {
        assert forall|j: int| 0 <= j < n@.args.len() implies c0.graph.has(
            #[trigger] n@.args[j],
        ) by {}
    }
    let r = ctx.add(n);
    proof {
        crate::terms::lemma_grows_denote_all(c0.graph, ctx.graph, n@.args, ts);
        crate::terms::lemma_denotes_app(ctx.graph, r, n@, ts);
    }
    r
}

/// The types that are noted for a pure instruction: that of a symbol, where it made one,
/// and that of what a function gives back.
pub open spec fn types_noted(a: Oracle, b: Oracle, c: Context, ty: Type, pi: PureInst) -> bool {
    match pi {
        PureInst::Fresh => noted_symbol(a, b, c.next_fresh, ty),
        PureInst::Deref(_, _) => b == a || noted_symbol(a, b, c.next_fresh, ty),
        PureInst::FunctionCall(fc) => b.fresh_types == a.fresh_types && exists|t: Type|
            t@ == ty@ && b.func_ret_types@ == #[trigger] a.func_ret_types@.insert(fc.function, t),
        _ => b == a,
    }
}

/// A symbol was given a type.
pub open spec fn noted_symbol(a: Oracle, b: Oracle, symbol: u32, ty: Type) -> bool {
    b.func_ret_types == a.func_ret_types && exists|t: Type|
        t@ == ty@ && b.fresh_types@ == #[trigger] a.fresh_types@.insert(symbol, t)
}

/// A symbol of a given type.
pub fn fresh_value(ctx: &mut Context, types: &mut Oracle, ty: Type) -> (r: Id)
    requires
        old(ctx).wf(),
    ensures
        old(ctx).leads_to(*final(ctx)),
        builds(*old(ctx), *final(ctx)),
        final(ctx).graph.has(r),
        is_symbol(final(ctx).graph, r),
        crate::context::coined(*old(ctx), *final(ctx), r),
        final(ctx).graph.denotes(r, crate::context::t_fresh(final(ctx).next_fresh)),
        final(types).fresh_types@ == old(types).fresh_types@.insert(final(ctx).next_fresh, ty),
        final(types).func_ret_types == old(types).func_ret_types,
{
    let r = ctx.fresh();
    types.fresh_types.insert(ctx.next_fresh, ty);
    r
}

fn slot_ids(vals: &Vec<Id>, free: &Vec<usize>) -> (r: Option<Vec<Id>>)
    ensures
        r is Some == forall|k: int| 0 <= k < free@.len() ==> #[trigger] free@[k] < vals@.len(),
        r matches Some(ids) ==> ids@ == Seq::new(free@.len(), |k: int| vals@[free@[k] as int]),
{
    let mut out: Vec<Id> = Vec::new();
    let mut i: usize = 0;
    while i < free.len()
        invariant
            i <= free@.len(),
            out@.len() == i,
            forall|k: int|
                0 <= k < i ==> #[trigger] free@[k] < vals@.len() && out@[k]
                    == vals@[free@[k] as int],
        decreases free.len() - i,
    {
        if free[i] >= vals.len() {
            assert(free@[i as int] >= vals@.len());
            return None;
        }
        out.push(vals[free[i]]);
        i += 1;
    }
    proof {
        assert(out@ =~= Seq::new(free@.len(), |k: int| vals@[free@[k] as int]));
    }
    Some(out)
}

/// Whether a pure instruction can be evaluated: a quantifier needs an entry whose
/// captured slots are filled.
pub open spec fn pure_known(vals: Seq<Id>, es: Seq<Entry>, pi: PureInst) -> bool {
    pi matches PureInst::Forall(q) ==> (entry_at(es, q.label) matches Some(i) && forall|k: int|
        0 <= k < es[i].free@.len() ==> #[trigger] es[i].free@[k] < vals.len())
}

/// Why a quantifier cannot be evaluated: it has no entry, or a slot that it captures is
/// not filled.
pub open spec fn unknown_forall(es: Seq<Entry>, label: usize) -> VerifyError {
    match entry_at(es, label) {
        Some(_) => VerifyError::Unimplemented("forall captures a slot that is not filled"),
        None => VerifyError::Unimplemented("forall recipe not interned"),
    }
}

/// Why a pure instruction that cannot be evaluated fails.
pub open spec fn pure_missing(es: Seq<Entry>, pi: PureInst) -> VerifyError
    recommends
        pi is Forall,
{
    unknown_forall(es, pi->Forall_0.label)
}

fn eval_forall(ctx: &mut Context, vals: &Vec<Id>, es: &Vec<Entry>, label: usize) -> (r: Result<
    Id,
    VerifyError,
>)
    requires
        old(ctx).wf(),
        old(ctx).graph.has_all(vals@),
    ensures
        r matches Err(e) ==> e == unknown_forall(es@, label),
        old(ctx).leads_to(*final(ctx)),
        builds(*old(ctx), *final(ctx)),
        r is Ok == (entry_at(es@, label) matches Some(i) && forall|k: int|
            0 <= k < es@[i].free@.len() ==> #[trigger] es@[i].free@[k] < vals@.len()),
        r matches Ok(id) ==> final(ctx).graph.has(id) && (entry_at(es@, label) matches Some(i)
            && final(ctx).graph.denotes(
            id,
            Tm::App(OpV::Forall(es@[i].recipe), slot_tms(vals@, es@[i].free@)),
        )),
{
    proof {
        lemma_leads_refl(*ctx);
    }
    let e = match lookup_entry(es, label) {
        Ok(e) => e,
        Err(err) => {
            return Err(err);
        },
    };
    match slot_ids(vals, &e.free) {
        Some(caps) => {
            let ghost ts = slot_tms(vals@, e.free@);
            let n = Symbolic::Forall(e.recipe, caps);
            proof {
                assert forall|j: int| 0 <= j < n@.args.len() implies ctx.graph.has(
                    #[trigger] n@.args[j],
                ) && ctx.graph.denotes(n@.args[j], ts[j]) by {
                    assert(e.free@[j] < vals@.len());
                    assert(ctx.graph.has(vals@[e.free@[j] as int]));
                    lemma_denotes_self(ctx.graph, n@.args[j]);
                }
            }
            Ok(add_app(ctx, &n, Ghost(ts)))
        },
        None => Err(VerifyError::Unimplemented("forall captures a slot that is not filled")),
    }
}

/// Evaluates a pure instruction.
pub fn eval_pure_inst(
    ctx: &mut Context,
    state: &mut EvalState,
    es: &Vec<Entry>,
    ty: &Type,
    pi: &PureInst,
) -> (r: Result<Id, VerifyError>)
    requires
        old(ctx).wf(),
        state_in(old(ctx).graph, old(state).vals@, old(state).heaps@),
        pure_ok(*pi, old(state).vals@.len(), old(state).heaps@.len()),
    ensures
        old(ctx).leads_to(*final(ctx)),
        builds(*old(ctx), *final(ctx)),
        final(state).vals == old(state).vals,
        final(state).heaps == old(state).heaps,
        r is Ok ==> types_noted(old(state).types, final(state).types, *final(ctx), *ty, *pi),
        r is Err ==> final(state).types == old(state).types,
        r is Ok == pure_known(old(state).vals@, es@, *pi),
        r matches Err(e) ==> e == pure_missing(es@, *pi),
        r matches Ok(id) ==> final(ctx).graph.has(id) && pure_result(
            final(ctx).graph,
            old(state).vals@,
            old(state).heaps@,
            es@,
            *pi,
            id,
        ),
        r matches Ok(id) ==> *pi is Fresh ==> crate::context::coined(
            *old(ctx),
            *final(ctx),
            id,
        ),
{
    broadcast use {group_grows, crate::terms::lemma_grows_denote_all};

    let ghost c0 = *ctx;
    let ghost ts = t_classes(state.vals@);
    match pi {
        PureInst::Fresh => Ok(fresh_value(ctx, &mut state.types, ty.clone())),
        PureInst::Binary(op, a, b) => {
            let x = get_val(ctx, &state.vals, a);
            let ghost c1 = *ctx;
            proof {
                lemma_state_grows(c0.graph, c1.graph, state.vals@, state.heaps@);
            }
            let y = get_val(ctx, &state.vals, b);
            let ghost c2 = *ctx;
            let n = Symbolic::Binary(*op, [x, y]);
            let ghost args = seq![val_tm(ts, *a), val_tm(ts, *b)];
            proof {
                lemma_leads_trans(c0, c1, c2);
                assert(n@.args =~= seq![x, y]);
                assert(denote_all(c2.graph, n@.args, args));
            }
            let r = add_app(ctx, &n, Ghost(args));
            proof {
                lemma_leads_trans(c0, c2, *ctx);
            }
            Ok(r)
        },
        PureInst::Ternary(c, t, e) => {
            let x = get_val(ctx, &state.vals, c);
            let ghost c1 = *ctx;
            proof {
                lemma_state_grows(c0.graph, c1.graph, state.vals@, state.heaps@);
            }
            let y = get_val(ctx, &state.vals, t);
            let ghost c2 = *ctx;
            proof {
                lemma_leads_trans(c0, c1, c2);
                lemma_state_grows(c0.graph, c2.graph, state.vals@, state.heaps@);
            }
            let z = get_val(ctx, &state.vals, e);
            let ghost c3 = *ctx;
            let n = Symbolic::Ite([x, y, z]);
            let ghost args = seq![val_tm(ts, *c), val_tm(ts, *t), val_tm(ts, *e)];
            proof {
                lemma_leads_trans(c0, c2, c3);
                assert(n@.args =~= seq![x, y, z]);
                assert(denote_all(c3.graph, n@.args, args));
            }
            let r = add_app(ctx, &n, Ghost(args));
            proof {
                lemma_leads_trans(c0, c3, *ctx);
            }
            Ok(r)
        },
        PureInst::RealCast(v) => {
            let x = get_val(ctx, &state.vals, v);
            let ghost c1 = *ctx;
            let n = Symbolic::RealCast(x);
            let ghost args = seq![val_tm(ts, *v)];
            proof {
                assert(denote_all(c1.graph, n@.args, args));
            }
            let r = add_app(ctx, &n, Ghost(args));
            proof {
                lemma_leads_trans(c0, c1, *ctx);
            }
            Ok(r)
        },
        PureInst::FunctionCall(fc) => {
            let args = get_vals(ctx, &state.vals, &fc.args);
            let ghost c1 = *ctx;
            state.types.func_ret_types.insert(fc.function, ty.clone());
            let n = Symbolic::FuncApp(FuncId(fc.function), clone_types(&fc.types), args);
            let r = add_app(ctx, &n, Ghost(val_tms(ts, fc.args@)));
            proof {
                lemma_leads_trans(c0, c1, *ctx);
            }
            Ok(r)
        },
        PureInst::Deref(hv, loc) => {
            let heap = get_heap(&state.heaps, *hv);
            let addr = get_val(ctx, &state.vals, loc);
            let ghost c1 = *ctx;
            proof {
                lemma_heap_in(c0.graph, state.vals@, state.heaps@, *hv);
                lemma_entries_grow(c0.graph, c1.graph, heap.list());
            }
            match heap.value_at(addr) {
                Some(v) => {
                    proof {
                        crate::method::merge::lemma_entry_in(c1.graph, heap, addr);
                        assert(at_address(c1.graph, state.vals@, *loc, addr));
                    }
                    Ok(v)
                },
                None => {
                    let r = fresh_value(ctx, &mut state.types, ty.clone());
                    proof {
                        lemma_leads_trans(c0, c1, *ctx);
                        assert(at_address(ctx.graph, state.vals@, *loc, addr));
                    }
                    Ok(r)
                },
            }
        },
        PureInst::Perm(hv, loc) => {
            let heap = get_heap(&state.heaps, *hv);
            let addr = get_val(ctx, &state.vals, loc);
            let ghost c1 = *ctx;
            proof {
                lemma_heap_in(c0.graph, state.vals@, state.heaps@, *hv);
                lemma_entries_grow(c0.graph, c1.graph, heap.list());
            }
            match heap.perm_at(addr) {
                Some(p) => {
                    proof {
                        crate::method::merge::lemma_entry_in(c1.graph, heap, addr);
                        assert(at_address(c1.graph, state.vals@, *loc, addr));
                    }
                    Ok(p)
                },
                None => {
                    let r = ctx.build(&Expr::zero());
                    proof {
                        lemma_leads_trans(c0, c1, *ctx);
                        assert(at_address(ctx.graph, state.vals@, *loc, addr));
                    }
                    Ok(r)
                },
            }
        },
        PureInst::Forall(q) => eval_forall(ctx, &state.vals, es, q.label),
    }
}

/// It was shown that, on a path, the permission that a heap gives to a location is
/// positive.
pub open spec fn readable(
    c: Context,
    g: Graph,
    vals: Seq<Id>,
    es: Seq<(Id, Chunk)>,
    loc: Val,
    lits: Seq<(Id, Polarity)>,
) -> bool {
    exists|addr: Id, p: Id|
        {
            &&& #[trigger] at_address(g, vals, loc, addr)
            &&& #[trigger] reads_perm(g, es, addr, p)
            &&& shown_tm(c, lits, t_ltr(t_real(0 as real), Tm::Class(p)))
            &&& !g.full() && forall|m: Model| #[trigger]
                g.models(m) && cube_holds(m, lits) ==> amount(m.at(p)) > 0 as real
        }
}

/// It was not shown that, on a path, the permission that a heap gives to a location is
/// positive.
pub open spec fn unreadable(
    c: Context,
    d: Context,
    vals: Seq<Id>,
    es: Seq<(Id, Chunk)>,
    loc: Val,
    lits: Seq<(Id, Polarity)>,
) -> bool {
    exists|addr: Id, p: Id|
        {
            &&& #[trigger] at_address(d.graph, vals, loc, addr)
            &&& #[trigger] reads_perm(d.graph, es, addr, p)
            &&& unshown(c, d, lits, t_ltr(t_real(0 as real), Tm::Class(p)))
        }
}

pub proof fn lemma_readable_earlier(
    a: Context,
    b: Context,
    g: Graph,
    vals: Seq<Id>,
    es: Seq<(Id, Chunk)>,
    loc: Val,
    lits: Seq<(Id, Polarity)>,
)
    requires
        builds(a, b),
        readable(b, g, vals, es, loc, lits),
    ensures
        readable(a, g, vals, es, loc, lits),
{
    let (addr, p) = choose|addr: Id, p: Id|
        {
            &&& #[trigger] at_address(g, vals, loc, addr)
            &&& #[trigger] reads_perm(g, es, addr, p)
            &&& shown_tm(b, lits, t_ltr(t_real(0 as real), Tm::Class(p)))
            &&& !g.full() && forall|m: Model| #[trigger]
                g.models(m) && cube_holds(m, lits) ==> amount(m.at(p)) > 0 as real
        };
    lemma_shown_earlier(a, b, lits, t_ltr(t_real(0 as real), Tm::Class(p)));
    assert(at_address(g, vals, loc, addr) && reads_perm(g, es, addr, p));
}

pub proof fn lemma_unreadable_earlier(
    a: Context,
    b: Context,
    d: Context,
    vals: Seq<Id>,
    es: Seq<(Id, Chunk)>,
    loc: Val,
    lits: Seq<(Id, Polarity)>,
)
    requires
        builds(a, b),
        unreadable(b, d, vals, es, loc, lits),
    ensures
        unreadable(a, d, vals, es, loc, lits),
{
    let (addr, p) = choose|addr: Id, p: Id|
        {
            &&& #[trigger] at_address(d.graph, vals, loc, addr)
            &&& #[trigger] reads_perm(d.graph, es, addr, p)
            &&& unshown(b, d, lits, t_ltr(t_real(0 as real), Tm::Class(p)))
        };
    lemma_unshown_earlier(a, b, d, lits, t_ltr(t_real(0 as real), Tm::Class(p)));
    assert(at_address(d.graph, vals, loc, addr) && reads_perm(d.graph, es, addr, p));
}

/// Checks that a location may be read: on the path, its permission is positive.
pub fn check_deref_permission(
    ctx: &mut Context,
    state: &EvalState,
    lits: &Vec<(Id, Polarity)>,
    hv: HeapVal,
    loc: &Val,
) -> (r: Result<(), VerifyError>)
    requires
        old(ctx).wf(),
        state_in(old(ctx).graph, state.vals@, state.heaps@),
        heap_ok(hv, state.heaps@.len()),
        val_ok(*loc, state.vals@.len()),
        cube_in(old(ctx).graph, lits@),
    ensures
        deduces(*old(ctx), *final(ctx)),
        r matches Err(e) ==> e == VerifyError::InsufficientPermission,
        r is Ok ==> readable(
            *old(ctx),
            final(ctx).graph,
            state.vals@,
            heap_list(state.heaps@, hv),
            *loc,
            lits@,
        ),
        r is Err ==> unreadable(
            *old(ctx),
            *final(ctx),
            state.vals@,
            heap_list(state.heaps@, hv),
            *loc,
            lits@,
        ),
{
    broadcast use group_grows;

    let ghost c0 = *ctx;
    let addr = get_val(ctx, &state.vals, loc);
    let ghost c1 = *ctx;
    let heap = get_heap(&state.heaps, hv);
    proof {
        lemma_heap_in(c0.graph, state.vals@, state.heaps@, hv);
        lemma_entries_grow(c0.graph, c1.graph, heap.list());
    }
    let perm = match heap.perm_at(addr) {
        Some(p) => {
            proof {
                crate::method::merge::lemma_entry_in(c1.graph, heap, addr);
                lemma_leads_refl(c1);
            }
            p
        },
        None => ctx.build(&Expr::zero()),
    };
    let ghost c2 = *ctx;
    let positive = ctx.build(&Expr::bin(BinOp::LtR, Expr::zero(), Expr::Class(perm)));
    let ghost c3 = *ctx;
    proof {
        lemma_leads_trans(c0, c1, c2);
        lemma_leads_trans(c0, c2, c3);
        lemma_cube_grows(c0.graph, c3.graph, lits@);
        crate::context::lemma_builds_refl(c1);
    }
    let ok = ctx.prove_under_pc(positive, lits);
    proof {
        lemma_leads_trans(c0, c3, *ctx);
        lemma_reaches_extended(c0, c3);
        lemma_reaches_proof(c3, *ctx, lits@, positive, ok);
        lemma_reaches_trans(c0, c3, *ctx);
        if ok {
            let zero = t_real(0 as real);
            assert forall|m: Model| #[trigger]
                ctx.graph.models(m) && cube_holds(m, lits@) implies amount(m.at(perm))
                > 0 as real by {
                assert(c3.graph.models(m));
                assert(m.is(positive, true));
                lemma_tm_lit(m, Value::Real(0 as real));
                lemma_tm_bin(m, BinOp::LtR, zero, Tm::Class(perm));
            }
            assert(shown(c3, lits@, positive));
            assert(at_address(ctx.graph, state.vals@, *loc, addr));
            assert(reads_perm(ctx.graph, heap_list(state.heaps@, hv), addr, perm));
        } else {
            assert(left_open(c3, *ctx, lits@, positive));
            assert(at_address(ctx.graph, state.vals@, *loc, addr));
            assert(reads_perm(ctx.graph, heap_list(state.heaps@, hv), addr, perm));
        }
    }
    if ok {
        Ok(())
    } else {
        Err(VerifyError::InsufficientPermission)
    }
}

} // verus!
