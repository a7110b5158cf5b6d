//! Evaluating heap instructions.

use crate::context::{
    builds, cube_holds, cube_in, lemma_cube_grows, lemma_leads_refl, lemma_leads_trans, Context,
};
use crate::graph::Graph;
use crate::heap::facts::reaches;
use crate::lang::Id;
use crate::method::error::VerifyError;
use crate::method::eval::{
    at_address, collect_pc_lits, fresh_value, get_heap, get_val, heap_list, heap_ok, is_symbol,
    lemma_heap_in, lemma_lits_grow, lemma_state_grows, lits_for, reads_perm, state_in, EvalState,
};
use crate::method::merge::{
    adds_up, amount, canonical_list, heap_union, learns_agreements, lemma_entry_in, united, united_values,
};
use crate::method::plain::{chunk_map, entries_in, lemma_entries_grow, Chunk, Heap};
use crate::method::subtract::{
    covers, give_facts, heap_subtract, short_of, subtracted, takes_off,
};
use crate::model::{lemma_tm_bin, lemma_tm_lit, lemma_tm_not, t_ltr, t_not, t_real, Model, Tm};
use crate::nums::{Int, Rat};
use crate::program::{Assign, HeapInst, HeapVal, PathConds, Sign, Target};
use crate::prove::{left_open, shown, shown_tm, unshown};
use crate::rewrite::recipe::{guards_ok, val_ok, vals_ok};
use crate::terms::{expr_tm, group_grows, Expr};
use crate::types::infer_type;
use crate::vmir::{BinOp, Literal, Polarity, Type, Val, Value};
use vstd::prelude::*;

verus! {

broadcast use crate::context::lemma_builds_trans;

/// The operands of a heap instruction name slots that were filled.
pub open spec fn heap_inst_ok(inst: HeapInst, nv: nat, nh: nat) -> bool {
    match inst {
        HeapInst::Combine { base, sign, target, perm } => heap_ok(base, nh) && val_ok(perm, nv)
            && match target {
            Target::Loc(loc) => val_ok(loc, nv),
            Target::Resource(call) => vals_ok(call.args@, nv),
        },
        HeapInst::Fold { base, call, perm } => heap_ok(base, nh) && val_ok(perm, nv) && vals_ok(
            call.args@,
            nv,
        ),
        HeapInst::Unfold { base, call, perm } => heap_ok(base, nh) && val_ok(perm, nv) && vals_ok(
            call.args@,
            nv,
        ),
        HeapInst::Assign(hv, a) => heap_ok(hv, nh) && val_ok(a.loc, nv) && val_ok(a.val, nv),
    }
}

/// A heap with one chunk: the given permission to the given location, and a symbol as
/// its value.
pub open spec fn single(g: Graph, vals: Seq<Id>, loc: Val, perm: Val, one: Heap) -> bool {
    exists|addr: Id, c: Chunk|
        {
            &&& #[trigger] at_address(g, vals, loc, addr)
            &&& #[trigger] at_address(g, vals, perm, c.perm)
            &&& g.has(c.value)
            &&& is_symbol(g, c.value)
            &&& one.list() == seq![(addr, c)]
        }
}

/// The values of a heap are new: no class was one of them before. Where ids or symbols ran
/// out, nothing is said.
pub open spec fn values_new(a: Context, b: Context, es: Seq<(Id, Chunk)>) -> bool {
    b.graph.full() || b.next_fresh == u32::MAX || forall|i: int|
        0 <= i < es.len() ==> !a.graph.has((#[trigger] es[i]).1.value)
}

/// The heap that permission to a location is.
pub fn heap_acc(ctx: &mut Context, state: &mut EvalState, loc: &Val, perm: &Val) -> (r: Heap)
    requires
        old(ctx).wf(),
        state_in(old(ctx).graph, old(state).vals@, old(state).heaps@),
        val_ok(*loc, old(state).vals@.len()),
        val_ok(*perm, old(state).vals@.len()),
    ensures
        old(ctx).leads_to(*final(ctx)),
        builds(*old(ctx), *final(ctx)),
        final(state).vals == old(state).vals,
        final(state).heaps == old(state).heaps,
        single(final(ctx).graph, old(state).vals@, *loc, *perm, r),
        values_new(*old(ctx), *final(ctx), r.list()),
        entries_in(final(ctx).graph, r.list()),
{
    broadcast use group_grows;

    let ghost c0 = *ctx;
    let addr = get_val(ctx, &state.vals, loc);
    let ghost c1 = *ctx;
    proof {
        lemma_state_grows(c0.graph, c1.graph, state.vals@, state.heaps@);
    }
    let p = get_val(ctx, &state.vals, perm);
    let ghost c2 = *ctx;
    let ty = match infer_type(&ctx.graph, &state.types, addr) {
        Some(Type::Addr { group: _, value, bound: _ }) => *value,
        _ => Type::Int,
    };
    let v = fresh_value(ctx, &mut state.types, ty);
    proof {
        lemma_leads_trans(c0, c1, c2);
        lemma_leads_trans(c0, c2, *ctx);
    }
    let none = Heap::empty();
    let c = Chunk::new(p, v);
    let r = none.with_chunk(addr, c);
    proof {
        assert(none.list() =~= Seq::empty());
        assert(!none@.dom().contains(addr));
        assert(r.list() =~= seq![(addr, c)]);
        assert(at_address(ctx.graph, state.vals@, *loc, addr));
        assert(at_address(ctx.graph, state.vals@, *perm, c.perm));
        assert(entries_in(ctx.graph, none.list()));
    }
    r
}

/// A heap put into another on a path.
pub open spec fn put_in(
    a: Context,
    b: Context,
    lits: Seq<(Id, Polarity)>,
    base: Seq<(Id, Chunk)>,
    more: Heap,
    r: Heap,
) -> bool {
    &&& learns_agreements(
        a,
        b,
        lits,
        canonical_list(a.graph, base) + canonical_list(a.graph, more.list()),
    )
    &&& adds_up(b.graph, r.list(), base, more.list())
    &&& united_values(a.graph, b.graph, lits, r@, base, more.list())
    &&& forall|h: Heap| h.list() == base ==> #[trigger] united(a.graph, b.graph, h, more, r)
}

/// A heap taken out of another on a path.
pub open spec fn taken_out(
    a: Context,
    b: Context,
    lits: Seq<(Id, Polarity)>,
    base: Seq<(Id, Chunk)>,
    less: Heap,
    r: Heap,
) -> bool {
    &&& reaches(
        a,
        b,
        give_facts(canonical_list(a.graph, base), canonical_list(a.graph, less.list())),
    )
    &&& covers(a, b, lits, base, less.list())
    &&& takes_off(b.graph, r.list(), base, less.list())
    &&& forall|h: Heap|
        h.list() == base ==> #[trigger] subtracted(a.graph, b.graph, lits, h, less, r)
}

/// A heap put into another, or taken out of it.
pub open spec fn combined(
    a: Context,
    b: Context,
    sign: Sign,
    lits: Seq<(Id, Polarity)>,
    base: Seq<(Id, Chunk)>,
    delta: Heap,
    r: Heap,
) -> bool {
    match sign {
        Sign::Add => put_in(a, b, lits, base, delta, r),
        Sign::Sub => taken_out(a, b, lits, base, delta, r),
    }
}

/// Puts a heap into another, or takes it out.
pub fn combine(
    ctx: &mut Context,
    sign: Sign,
    base: &Heap,
    delta: &Heap,
    lits: &Vec<(Id, Polarity)>,
) -> (r: Result<Heap, VerifyError>)
    requires
        old(ctx).wf(),
        entries_in(old(ctx).graph, base.list()),
        entries_in(old(ctx).graph, delta.list()),
        cube_in(old(ctx).graph, lits@),
    ensures
        old(ctx).leads_to(*final(ctx)),
        r matches Err(e) ==> e == VerifyError::InsufficientPermission && sign == Sign::Sub
            && short_of(*old(ctx), *final(ctx), lits@, base.list(), delta.list()),
        r matches Ok(h) ==> combined(
            *old(ctx),
            *final(ctx),
            sign,
            lits@,
            base.list(),
            *delta,
            h,
        ) && entries_in(final(ctx).graph, h.list()),
{
    match sign {
        Sign::Add => {
            let r = heap_union(ctx, base, delta, lits);
            proof {
                assert forall|h: Heap| h.list() == base.list() implies #[trigger] united(
                    old(ctx).graph,
                    ctx.graph,
                    h,
                    *delta,
                    r,
                ) by {
                    assert(united(old(ctx).graph, ctx.graph, *base, *delta, r));
                }
            }
            Ok(r)
        },
        Sign::Sub => match heap_subtract(ctx, base, delta, lits) {
            Ok(r) => {
                proof {
                    assert forall|h: Heap| h.list() == base.list() implies #[trigger] subtracted(
                        old(ctx).graph,
                        ctx.graph,
                        lits@,
                        h,
                        *delta,
                        r,
                    ) by {
                        assert(subtracted(old(ctx).graph, ctx.graph, lits@, *base, *delta, r));
                    }
                }
                Ok(r)
            },
            Err(e) => Err(e),
        },
    }
}

/// Permission to a location was put in or taken out.
pub open spec fn loc_combined(
    a: Context,
    b: Context,
    vals: Seq<Id>,
    base: Seq<(Id, Chunk)>,
    sign: Sign,
    loc: Val,
    perm: Val,
    conds: Seq<(Val, Polarity)>,
    r: Heap,
) -> bool {
    exists|mid: Context, one: Heap, lits: Seq<(Id, Polarity)>|
        {
            &&& a.leads_to(mid)
            &&& builds(a, mid)
            &&& #[trigger] single(mid.graph, vals, loc, perm, one)
            &&& #[trigger] lits_for(mid.graph, vals, conds, lits)
            &&& values_new(a, mid, one.list())
            &&& combined(mid, b, sign, lits, base, one, r)
        }
}

/// It was not shown that a heap gives the permission to a location that is taken out.
pub open spec fn loc_refused(
    a: Context,
    d: Context,
    vals: Seq<Id>,
    base: Seq<(Id, Chunk)>,
    loc: Val,
    perm: Val,
    conds: Seq<(Val, Polarity)>,
) -> bool {
    exists|mid: Context, one: Heap, lits: Seq<(Id, Polarity)>|
        {
            &&& a.leads_to(mid)
            &&& builds(a, mid)
            &&& #[trigger] single(mid.graph, vals, loc, perm, one)
            &&& #[trigger] lits_for(mid.graph, vals, conds, lits)
            &&& short_of(mid, d, lits, base, one.list())
        }
}

/// Why a heap instruction of a resource body fails.
pub open spec fn heap_refused(
    a: Context,
    d: Context,
    vals: Seq<Id>,
    heaps: Seq<Heap>,
    inst: HeapInst,
    conds: Seq<(Val, Polarity)>,
    e: VerifyError,
) -> bool {
    match inst {
        HeapInst::Combine { base, sign, target: Target::Loc(loc), perm } => e
            == VerifyError::InsufficientPermission && sign == Sign::Sub && loc_refused(
            a,
            d,
            vals,
            heap_list(heaps, base),
            loc,
            perm,
            conds,
        ),
        HeapInst::Combine { target: Target::Resource(_), .. } => e == VerifyError::Unimplemented(
            "resource combine outside method body",
        ),
        HeapInst::Assign(hv, w) => e == VerifyError::InsufficientPermission && unwritable(
            a,
            d,
            vals,
            heap_list(heaps, hv),
            w.loc,
            conds,
        ),
        _ => e == VerifyError::Unimplemented("fold/unfold outside method body"),
    }
}

/// Entries with a chunk at an address, in place of the one that was there.
pub open spec fn rewritten(
    g: Graph,
    es: Seq<(Id, Chunk)>,
    addr: Id,
    c: Chunk,
    r: Seq<(Id, Chunk)>,
) -> bool {
    ||| r == es.push((addr, c)) && g.denotes(c.perm, t_real(0 as real))
    ||| exists|i: int|
        0 <= i < es.len() && (#[trigger] es[i]).0 == addr && es[i].1.perm == c.perm && r
            == es.update(i, (addr, c))
}

/// A value was written to a location: on the path its permission is at least one, and
/// it keeps it.
pub open spec fn written(
    a: Context,
    g: Graph,
    vals: Seq<Id>,
    es: Seq<(Id, Chunk)>,
    loc: Val,
    val: Val,
    lits: Seq<(Id, Polarity)>,
    r: Heap,
) -> bool {
    exists|addr: Id, c: Chunk|
        {
            &&& #[trigger] at_address(g, vals, loc, addr)
            &&& #[trigger] at_address(g, vals, val, c.value)
            &&& reads_perm(g, es, addr, c.perm)
            &&& shown_tm(a, lits, t_not(t_ltr(Tm::Class(c.perm), t_real(1 as real))))
            &&& r@ == chunk_map(es).insert(addr, c)
            &&& rewritten(g, es, addr, c, r.list())
            &&& !g.full() && forall|m: Model| #[trigger]
                g.models(m) && cube_holds(m, lits) ==> amount(m.at(c.perm)) >= 1 as real
        }
}

/// What a heap instruction of a resource body computes.
pub open spec fn heap_result(
    a: Context,
    b: Context,
    vals: Seq<Id>,
    heaps: Seq<Heap>,
    inst: HeapInst,
    conds: Seq<(Val, Polarity)>,
    r: Heap,
) -> bool {
    match inst {
        HeapInst::Combine { base, sign, target: Target::Loc(loc), perm } => loc_combined(
            a,
            b,
            vals,
            heap_list(heaps, base),
            sign,
            loc,
            perm,
            conds,
            r,
        ),
        HeapInst::Assign(hv, w) => exists|lits: Seq<(Id, Polarity)>| #[trigger]
            lits_for(b.graph, vals, conds, lits) && written(
                a,
                b.graph,
                vals,
                heap_list(heaps, hv),
                w.loc,
                w.val,
                lits,
                r,
            ),
        _ => false,
    }
}

fn one_expr() -> (r: Expr)
    ensures
        expr_tm(r) == t_real(1 as real),
        forall|g: Graph| #[trigger] crate::terms::expr_in(r, g),
{
    Expr::Lit(Literal::Real(Rat::from_int(&Int::from_i64(1))))
}

/// It was not shown that, on the path, a heap gives full permission to a location.
pub open spec fn unwritable(
    c: Context,
    d: Context,
    vals: Seq<Id>,
    es: Seq<(Id, Chunk)>,
    loc: Val,
    conds: Seq<(Val, Polarity)>,
) -> bool {
    exists|addr: Id, p: Id, lits: Seq<(Id, Polarity)>|
        {
            &&& #[trigger] at_address(d.graph, vals, loc, addr)
            &&& #[trigger] reads_perm(d.graph, es, addr, p)
            &&& #[trigger] lits_for(d.graph, vals, conds, lits)
            &&& unshown(c, d, lits, t_not(t_ltr(Tm::Class(p), t_real(1 as real))))
        }
}

/// Writes a value to a location. Fails unless full permission can be proven on the
/// path.
fn assign(ctx: &mut Context, state: &EvalState, hv: HeapVal, a: &Assign, pc: &PathConds) -> (r: Result<
    Heap,
    VerifyError,
>)
    requires
        old(ctx).wf(),
        state_in(old(ctx).graph, state.vals@, state.heaps@),
        heap_ok(hv, state.heaps@.len()),
        val_ok(a.loc, state.vals@.len()),
        val_ok(a.val, state.vals@.len()),
        guards_ok(pc.conds@, state.vals@.len()),
    ensures
        old(ctx).leads_to(*final(ctx)),
        r matches Err(e) ==> e == VerifyError::InsufficientPermission && unwritable(
            *old(ctx),
            *final(ctx),
            state.vals@,
            heap_list(state.heaps@, hv),
            a.loc,
            pc.conds@,
        ),
        r matches Ok(h) ==> entries_in(final(ctx).graph, h.list()) && heap_result(
            *old(ctx),
            *final(ctx),
            state.vals@,
            state.heaps@,
            HeapInst::Assign(hv, *a),
            pc.conds@,
            h,
        ),
{
    broadcast use group_grows;

    let ghost c0 = *ctx;
    let heap = get_heap(&state.heaps, hv);
    let addr = get_val(ctx, &state.vals, &a.loc);
    let ghost c1 = *ctx;
    proof {
        lemma_state_grows(c0.graph, c1.graph, state.vals@, state.heaps@);
    }
    let v = get_val(ctx, &state.vals, &a.val);
    let ghost c2 = *ctx;
    proof {
        lemma_leads_trans(c0, c1, c2);
        lemma_state_grows(c0.graph, c2.graph, state.vals@, state.heaps@);
        lemma_heap_in(c2.graph, state.vals@, state.heaps@, hv);
    }
    let perm = match heap.perm_at(addr) {
        Some(p) => {
            proof {
                lemma_entry_in(c2.graph, heap, addr);
                lemma_leads_refl(c2);
            }
            p
        },
        None => ctx.build(&Expr::zero()),
    };
    let ghost c3 = *ctx;
    proof {
        lemma_leads_trans(c0, c2, c3);
        lemma_state_grows(c0.graph, c3.graph, state.vals@, state.heaps@);
    }
    let lits = collect_pc_lits(ctx, &state.vals, pc);
    let ghost c4 = *ctx;
    let below = Expr::bin(BinOp::LtR, Expr::Class(perm), one_expr());
    let goal = ctx.build(&Expr::negation(below));
    let ghost c5 = *ctx;
    proof {
        lemma_leads_trans(c0, c3, c4);
        lemma_leads_trans(c0, c4, c5);
        lemma_cube_grows(c4.graph, c5.graph, lits@);
    }
    if !ctx.prove_under_pc(goal, &lits) {
        proof {
            lemma_leads_trans(c0, c5, *ctx);
            let g = ctx.graph;
            assert(left_open(c5, *ctx, lits@, goal));
            assert(at_address(g, state.vals@, a.loc, addr));
            assert(reads_perm(g, heap_list(state.heaps@, hv), addr, perm));
            lemma_lits_grow(c4.graph, g, state.vals@, pc.conds@, lits@);
        }
        return Err(VerifyError::InsufficientPermission);
    }
    let c = Chunk::new(perm, v);
    let r = heap.with_chunk(addr, c);
    proof {
        lemma_leads_trans(c0, c5, *ctx);
        let g = ctx.graph;
        let one = t_real(1 as real);
        assert forall|m: Model| #[trigger] g.models(m) && cube_holds(m, lits@) implies amount(
            m.at(c.perm),
        ) >= 1 as real by {
            assert(c5.graph.models(m));
            assert(m.is(goal, true));
            lemma_tm_lit(m, Value::Real(1 as real));
            lemma_tm_bin(m, BinOp::LtR, Tm::Class(perm), one);
            lemma_tm_not(m, t_ltr(Tm::Class(perm), one));
        }
        lemma_entries_grow(c2.graph, g, heap.list());
        assert(entries_in(g, heap.list()));
        assert(at_address(g, state.vals@, a.loc, addr));
        assert(at_address(g, state.vals@, a.val, c.value));
        assert(reads_perm(g, heap_list(state.heaps@, hv), addr, c.perm));
        assert(shown(c5, lits@, goal));
        assert(rewritten(g, heap.list(), addr, c, r.list())) by {
            if heap@.dom().contains(addr) {
                let i = choose|i: int|
                    0 <= i < heap.list().len() && (#[trigger] heap.list()[i]) == (addr, heap@[addr])
                        && r.list() == heap.list().update(i, (addr, c));
                assert(heap.list()[i].0 == addr && heap.list()[i].1.perm == c.perm);
            }
        }
        assert(written(
            c0,
            g,
            state.vals@,
            heap_list(state.heaps@, hv),
            a.loc,
            a.val,
            lits@,
            r,
        ));
        lemma_lits_grow(c4.graph, g, state.vals@, pc.conds@, lits@);
    }
    Ok(r)
}

/// Evaluates a heap instruction that needs neither the program nor certificates.
pub fn eval_heap_inst(
    ctx: &mut Context,
    state: &mut EvalState,
    inst: &HeapInst,
    pc: &PathConds,
) -> (r: Result<Heap, VerifyError>)
    requires
        old(ctx).wf(),
        state_in(old(ctx).graph, old(state).vals@, old(state).heaps@),
        heap_inst_ok(*inst, old(state).vals@.len(), old(state).heaps@.len()),
        guards_ok(pc.conds@, old(state).vals@.len()),
    ensures
        old(ctx).leads_to(*final(ctx)),
        final(state).vals == old(state).vals,
        final(state).heaps == old(state).heaps,
        r matches Ok(h) ==> entries_in(final(ctx).graph, h.list()) && heap_result(
            *old(ctx),
            *final(ctx),
            old(state).vals@,
            old(state).heaps@,
            *inst,
            pc.conds@,
            h,
        ),
        r matches Err(e) ==> heap_refused(
            *old(ctx),
            *final(ctx),
            old(state).vals@,
            old(state).heaps@,
            *inst,
            pc.conds@,
            e,
        ),
        match *inst {
            HeapInst::Combine { target: Target::Loc(_), sign, .. } => r is Err ==> r
                == Err::<Heap, VerifyError>(VerifyError::InsufficientPermission) && sign
                == Sign::Sub,
            HeapInst::Combine { target: Target::Resource(_), .. } => r == Err::<
                Heap,
                VerifyError,
            >(VerifyError::Unimplemented("resource combine outside method body")),
            HeapInst::Assign(_, _) => r is Err ==> r == Err::<Heap, VerifyError>(
                VerifyError::InsufficientPermission,
            ),
            _ => r == Err::<Heap, VerifyError>(
                VerifyError::Unimplemented("fold/unfold outside method body"),
            ),
        },
{
    let ghost c0 = *ctx;
    proof {
        lemma_leads_refl(c0);
    }
    match inst {
        HeapInst::Combine { base, sign, target, perm } => match target {
            Target::Loc(loc) => {
                let base_h = get_heap(&state.heaps, *base);
                let one = heap_acc(ctx, state, loc, perm);
                let ghost c1 = *ctx;
                proof {
                    lemma_state_grows(c0.graph, c1.graph, state.vals@, state.heaps@);
                }
                let lits = collect_pc_lits(ctx, &state.vals, pc);
                let ghost c2 = *ctx;
                proof {
                    lemma_leads_trans(c0, c1, c2);
                    lemma_state_grows(c0.graph, c2.graph, state.vals@, state.heaps@);
                    lemma_heap_in(c2.graph, state.vals@, state.heaps@, *base);
                    lemma_entries_grow(c1.graph, c2.graph, one.list());
                    lemma_single_grows(c1.graph, c2.graph, state.vals@, *loc, *perm, one);
                }
                let r = combine(ctx, *sign, &base_h, &one, &lits);
                proof {
                    lemma_leads_trans(c0, c2, *ctx);
                    assert(single(c2.graph, state.vals@, *loc, *perm, one));
                    assert(lits_for(c2.graph, state.vals@, pc.conds@, lits@));
                }
                r
            },
            Target::Resource(_) => Err(
                VerifyError::Unimplemented("resource combine outside method body"),
            ),
        },
        HeapInst::Assign(hv, a) => assign(ctx, state, *hv, a, pc),
        _ => Err(VerifyError::Unimplemented("fold/unfold outside method body")),
    }
}

proof fn lemma_single_grows(g: Graph, h: Graph, vals: Seq<Id>, loc: Val, perm: Val, one: Heap)
    requires
        g.grows_to(h),
        single(g, vals, loc, perm, one),
    ensures
        single(h, vals, loc, perm, one),
{
    broadcast use group_grows;

    let (addr, c) = choose|addr: Id, c: Chunk|
        {
            &&& #[trigger] at_address(g, vals, loc, addr)
            &&& #[trigger] at_address(g, vals, perm, c.perm)
            &&& g.has(c.value)
            &&& is_symbol(g, c.value)
            &&& one.list() == seq![(addr, c)]
        };
    let n = choose|n: u32| g.denotes(c.value, #[trigger] crate::context::t_fresh(n));
    assert(h.denotes(c.value, crate::context::t_fresh(n)));
    assert(at_address(h, vals, loc, addr));
    assert(at_address(h, vals, perm, c.perm));
}

} // verus!
