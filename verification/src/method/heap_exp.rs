//! Putting in what a heap expression describes.

use crate::context::{builds, lemma_leads_refl, lemma_leads_trans, Context};
use crate::graph::Graph;
use crate::lang::Id;
use crate::method::error::VerifyError;
use crate::method::eval::{
    at_address, eval_pure_inst, fresh_value, get_heap, get_val, heap_list, heap_ok, is_symbol,
    lemma_heap_in, lemma_state_grows, pure_known, pure_ok, pure_result, state_in, EvalState,
};
use crate::method::merge::lemma_entry_in;
use crate::method::plain::{chunk_map, entries_in, lemma_entries_grow, Chunk, Heap};
use crate::method::run::Slots;
use crate::model::{t_bin, t_bool, t_classes, Tm};
use crate::program::{HeapVal, PureInst};
use crate::quant::Entry;
use crate::rewrite::recipe::{val_ok, val_tm};
use crate::terms::{group_grows, lemma_grows_denotes, Expr};
use crate::types::infer_type;
use crate::vmir::{BinOp, Literal, Type, TypeV, Val};
use vstd::prelude::*;

verus! {

broadcast use crate::context::lemma_builds_trans;

/// A step of a heap expression.
#[derive(Debug)]
pub enum ExpInst {
    Pure(Type, PureInst),
    /// More permission to an address.
    Acc { heap: HeapVal, addr: Val, perm: Val },
}

/// A heap expression: its steps, a boolean and a heap.
#[derive(Debug)]
pub struct HeapExp {
    pub insts: Vec<ExpInst>,
    pub res_pure: Val,
    pub res_impure: HeapVal,
}

/// The operands of a step name slots that were filled.
pub open spec fn exp_inst_ok(inst: ExpInst, nv: nat, nh: nat) -> bool {
    match inst {
        ExpInst::Pure(_, pi) => pure_ok(pi, nv, nh),
        ExpInst::Acc { heap, addr, perm } => heap_ok(heap, nh) && val_ok(addr, nv) && val_ok(
            perm,
            nv,
        ),
    }
}

pub open spec fn exp_pures(insts: Seq<ExpInst>) -> nat
    decreases insts.len(),
{
    if insts.len() == 0 {
        0
    } else {
        exp_pures(insts.drop_last()) + if insts.last() is Pure {
            1nat
        } else {
            0nat
        }
    }
}

pub open spec fn exp_heaps(insts: Seq<ExpInst>) -> nat
    decreases insts.len(),
{
    if insts.len() == 0 {
        0
    } else {
        exp_heaps(insts.drop_last()) + if insts.last() is Acc {
            1nat
        } else {
            0nat
        }
    }
}

/// A heap expression refers to the slots that it is given and those that it fills.
pub open spec fn heap_exp_ok(e: HeapExp, nv: nat, nh: nat) -> bool {
    &&& forall|i: int|
        0 <= i < e.insts@.len() ==> exp_inst_ok(
            #[trigger] e.insts@[i],
            nv + exp_pures(e.insts@.take(i)),
            nh + exp_heaps(e.insts@.take(i)),
        )
    &&& val_ok(e.res_pure, nv + exp_pures(e.insts@))
    &&& heap_ok(e.res_impure, nh + exp_heaps(e.insts@))
}

/// More permission to an address: added to what the heap holds there, next to the
/// value that it holds, or the permission and a symbol where it holds nothing.
pub open spec fn gained(
    g: Graph,
    before: Map<Id, Chunk>,
    addr: Id,
    perm: Id,
    after: Map<Id, Chunk>,
) -> bool {
    &&& after.dom().contains(addr)
    &&& after == before.insert(addr, after[addr])
    &&& if before.dom().contains(addr) {
        &&& g.denotes(
            after[addr].perm,
            t_bin(BinOp::AddR, Tm::Class(before[addr].perm), Tm::Class(perm)),
        )
        &&& after[addr].value == before[addr].value
    } else {
        &&& after[addr].perm == perm
        &&& is_symbol(g, after[addr].value)
    }
}

/// A step of a heap expression was run.
pub open spec fn exp_stepped(g: Graph, es: Seq<Entry>, s: Slots, t: Slots, inst: ExpInst) -> bool {
    match inst {
        ExpInst::Pure(_, pi) => {
            &&& t.heaps == s.heaps
            &&& t.vals.len() == s.vals.len() + 1
            &&& t.vals.drop_last() == s.vals
            &&& pure_result(g, s.vals, s.heaps, es, pi, t.vals.last())
        },
        ExpInst::Acc { heap, addr, perm } => {
            &&& t.vals == s.vals
            &&& t.heaps.len() == s.heaps.len() + 1
            &&& t.heaps.drop_last() == s.heaps
            &&& exists|a: Id, p: Id|
                {
                    &&& #[trigger] at_address(g, s.vals, addr, a)
                    &&& #[trigger] at_address(g, s.vals, perm, p)
                    &&& gained(g, chunk_map(heap_list(s.heaps, heap)), a, p, t.heaps.last()@)
                }
        },
    }
}

/// Adds permission to an address.
fn gain(ctx: &mut Context, state: &mut EvalState, hv: HeapVal, addr: &Val, perm: &Val) -> (r: Heap)
    requires
        old(ctx).wf(),
        state_in(old(ctx).graph, old(state).vals@, old(state).heaps@),
        heap_ok(hv, old(state).heaps@.len()),
        val_ok(*addr, old(state).vals@.len()),
        val_ok(*perm, old(state).vals@.len()),
    ensures
        old(ctx).leads_to(*final(ctx)),
        builds(*old(ctx), *final(ctx)),
        final(state).vals == old(state).vals,
        final(state).heaps == old(state).heaps,
        entries_in(final(ctx).graph, r.list()),
        exists|a: Id, p: Id|
            {
                &&& #[trigger] at_address(final(ctx).graph, old(state).vals@, *addr, a)
                &&& #[trigger] at_address(final(ctx).graph, old(state).vals@, *perm, p)
                &&& gained(
                    final(ctx).graph,
                    chunk_map(heap_list(old(state).heaps@, hv)),
                    a,
                    p,
                    r@,
                )
            },
{
    broadcast use group_grows;

    let ghost c0 = *ctx;
    let heap = get_heap(&state.heaps, hv);
    let a = get_val(ctx, &state.vals, addr);
    let ghost c1 = *ctx;
    proof {
        lemma_state_grows(c0.graph, c1.graph, state.vals@, state.heaps@);
    }
    let p = get_val(ctx, &state.vals, perm);
    let ghost c2 = *ctx;
    proof {
        lemma_leads_trans(c0, c1, c2);
        lemma_state_grows(c0.graph, c2.graph, state.vals@, state.heaps@);
        lemma_heap_in(c2.graph, state.vals@, state.heaps@, hv);
        assert(heap@ == chunk_map(heap.list()));
    }
    let c = match heap.chunk(a) {
        Some(c) => {
            proof {
                lemma_entry_in(c2.graph, heap, a);
            }
            let sum = ctx.build(&Expr::bin(BinOp::AddR, Expr::Class(c.perm), Expr::Class(p)));
            Chunk::new(sum, c.value)
        },
        None => {
            let ty = match infer_type(&ctx.graph, &state.types, a) {
                Some(Type::Addr { group: _, value, bound: _ }) => *value,
                _ => Type::Int,
            };
            let v = fresh_value(ctx, &mut state.types, ty);
            Chunk::new(p, v)
        },
    };
    proof {
        lemma_leads_trans(c0, c2, *ctx);
        lemma_leads_trans(c1, c2, *ctx);
        lemma_entries_grow(c2.graph, ctx.graph, heap.list());
        lemma_grows_denotes(c1.graph, ctx.graph, a, val_tm(t_classes(state.vals@), *addr));
        lemma_grows_denotes(c2.graph, ctx.graph, p, val_tm(t_classes(state.vals@), *perm));
        assert(at_address(ctx.graph, state.vals@, *addr, a));
        assert(at_address(ctx.graph, state.vals@, *perm, p));
    }
    heap.with_chunk(a, c)
}

/// Runs one step of a heap expression.
fn run_exp_inst(ctx: &mut Context, es: &Vec<Entry>, state: &mut EvalState, inst: &ExpInst) -> (r:
    Result<(), VerifyError>)
    requires
        old(ctx).wf(),
        state_in(old(ctx).graph, old(state).vals@, old(state).heaps@),
        exp_inst_ok(*inst, old(state).vals@.len(), old(state).heaps@.len()),
    ensures
        old(ctx).leads_to(*final(ctx)),
        builds(*old(ctx), *final(ctx)),
        r is Ok == (*inst matches ExpInst::Pure(_, pi) ==> pure_known(old(state).vals@, es@, pi)),
        r is Ok ==> state_in(final(ctx).graph, final(state).vals@, final(state).heaps@)
            && exp_stepped(
            final(ctx).graph,
            es@,
            old(state).slots(),
            final(state).slots(),
            *inst,
        ),
{
    let ghost c0 = *ctx;
    let ghost s0 = state.slots();
    match inst {
        ExpInst::Pure(ty, pi) => {
            let id = match eval_pure_inst(ctx, state, es, ty, pi) {
                Ok(id) => id,
                Err(e) => {
                    return Err(e);
                },
            };
            proof {
                lemma_state_grows(c0.graph, ctx.graph, state.vals@, state.heaps@);
            }
            state.vals.push(id);
            proof {
                assert(state.vals@.drop_last() =~= s0.vals);
            }
        },
        ExpInst::Acc { heap, addr, perm } => {
            let h = gain(ctx, state, *heap, addr, perm);
            proof {
                lemma_state_grows(c0.graph, ctx.graph, state.vals@, state.heaps@);
            }
            state.heaps.push(h);
            proof {
                assert(state.heaps@.drop_last() =~= s0.heaps);
            }
        },
    }
    Ok(())
}

/// What the steps of a heap expression went through: the graph after each, and the
/// slots before and after.
pub ghost struct ExpTrail {
    pub graphs: Seq<Graph>,
    pub slots: Seq<Slots>,
}

/// The first steps of a heap expression were run.
pub open spec fn exp_ran(t: ExpTrail, es: Seq<Entry>, insts: Seq<ExpInst>, n: int) -> bool {
    &&& t.graphs.len() == n
    &&& t.slots.len() == n + 1
    &&& forall|i: int|
        0 <= i < n ==> exp_stepped(
            #[trigger] t.graphs[i],
            es,
            t.slots[i],
            t.slots[i + 1],
            insts[i],
        )
}

/// A heap expression was put in: its steps were run, nothing but its boolean was
/// assumed, and its heap was handed out.
pub open spec fn inhaled(
    a: Context,
    b: Context,
    es: Seq<Entry>,
    e: HeapExp,
    s: Slots,
    r: Heap,
    t: ExpTrail,
    id: Id,
) -> bool {
    let n = e.insts@.len() as int;
    let last = t.slots[n];
    &&& exp_ran(t, es, e.insts@, n)
    &&& t.slots[0] == s
    &&& at_address(b.graph, last.vals, e.res_pure, id)
    &&& a.leads_to(b)
    &&& b.graph.full() || b.graph.facts() == a.graph.facts() + seq![
        (Tm::Class(id), t_bool(true)),
    ]
    &&& r.list() == heap_list(last.heaps, e.res_impure)
}

/// No step of a heap expression is a quantifier.
pub open spec fn unquantified(e: HeapExp) -> bool {
    forall|i: int|
        0 <= i < e.insts@.len() ==> !(#[trigger] e.insts@[i] matches ExpInst::Pure(
            _,
            PureInst::Forall(_),
        ))
}

proof fn lemma_exp_counts(insts: Seq<ExpInst>, n: int)
    requires
        0 <= n < insts.len(),
    ensures
        exp_pures(insts.take(n + 1)) == exp_pures(insts.take(n)) + if insts[n] is Pure {
            1nat
        } else {
            0nat
        },
        exp_heaps(insts.take(n + 1)) == exp_heaps(insts.take(n)) + if insts[n] is Acc {
            1nat
        } else {
            0nat
        },
{
    assert(insts.take(n + 1).drop_last() =~= insts.take(n));
}

/// Runs the steps of a heap expression.
#[verifier::rlimit(40)]
fn run_exp(ctx: &mut Context, es: &Vec<Entry>, e: &HeapExp, state: &mut EvalState) -> (r: Result<
    (),
    VerifyError,
>)
    requires
        old(ctx).wf(),
        state_in(old(ctx).graph, old(state).vals@, old(state).heaps@),
        heap_exp_ok(*e, old(state).vals@.len(), old(state).heaps@.len()),
    ensures
        old(ctx).leads_to(*final(ctx)),
        builds(*old(ctx), *final(ctx)),
        unquantified(*e) ==> r is Ok,
        r is Ok ==> state_in(final(ctx).graph, final(state).vals@, final(state).heaps@)
            && final(state).vals@.len() == old(state).vals@.len() + exp_pures(e.insts@)
            && final(state).heaps@.len() == old(state).heaps@.len() + exp_heaps(e.insts@)
            && exists|t: ExpTrail| #[trigger]
            exp_ran(t, es@, e.insts@, e.insts@.len() as int) && t.slots[0] == old(state).slots()
                && t.slots[e.insts@.len() as int] == final(state).slots(),
{
    let ghost c0 = *ctx;
    let ghost s0 = state.slots();
    let ghost nv = s0.vals.len();
    let ghost nh = s0.heaps.len();
    let ghost mut t = ExpTrail { graphs: Seq::empty(), slots: seq![s0] };
    let mut i: usize = 0;
    proof {
        lemma_leads_refl(c0);
        assert(e.insts@.take(0) =~= Seq::empty());
    }
    while i < e.insts.len()
        invariant
            i <= e.insts@.len(),
            s0 == old(state).slots(),
            ctx.wf(),
            c0 == *old(ctx),
            c0.leads_to(*ctx),
            builds(c0, *ctx),
            nv == s0.vals.len(),
            nh == s0.heaps.len(),
            state_in(ctx.graph, state.vals@, state.heaps@),
            heap_exp_ok(*e, nv, nh),
            state.vals@.len() == nv + exp_pures(e.insts@.take(i as int)),
            state.heaps@.len() == nh + exp_heaps(e.insts@.take(i as int)),
            exp_ran(t, es@, e.insts@, i as int),
            t.slots[0] == s0,
            t.slots[i as int] == state.slots(),
        decreases e.insts.len() - i,
    {
        let ghost c1 = *ctx;
        let ghost t0 = t;
        proof {
            assert(exp_inst_ok(e.insts@[i as int], state.vals@.len(), state.heaps@.len()));
            lemma_exp_counts(e.insts@, i as int);
        }
        let done = run_exp_inst(ctx, es, state, &e.insts[i]);
        proof {
            lemma_leads_trans(c0, c1, *ctx);
        }
        if let Err(err) = done {
            proof {
                assert(e.insts@[i as int] matches ExpInst::Pure(_, PureInst::Forall(_)));
            }
            return Err(err);
        }
        proof {
            t =
            ExpTrail { graphs: t0.graphs.push(ctx.graph), slots: t0.slots.push(state.slots()) };
            assert forall|k: int| 0 <= k < i + 1 implies exp_stepped(
                #[trigger] t.graphs[k],
                es@,
                t.slots[k],
                t.slots[k + 1],
                e.insts@[k],
            ) by {
                if k < i {
                    assert(t.graphs[k] == t0.graphs[k]);
                    assert(t.slots[k] == t0.slots[k] && t.slots[k + 1] == t0.slots[k + 1]);
                }
            }
        }
        i += 1;
    }
    proof {
        assert(e.insts@.take(e.insts@.len() as int) =~= e.insts@);
    }
    Ok(())
}

/// Puts in what a heap expression describes, from the values and the heaps that it is
/// given: runs its steps, assumes its boolean and hands out its heap.
pub fn inhale_heap_exp(ctx: &mut Context, es: &Vec<Entry>, e: &HeapExp, state: &mut EvalState) -> (r:
    Result<Heap, VerifyError>)
    requires
        old(ctx).wf(),
        state_in(old(ctx).graph, old(state).vals@, old(state).heaps@),
        heap_exp_ok(*e, old(state).vals@.len(), old(state).heaps@.len()),
    ensures
        old(ctx).leads_to(*final(ctx)),
        unquantified(*e) ==> r is Ok,
        r matches Ok(h) ==> entries_in(final(ctx).graph, h.list()) && exists|t: ExpTrail, id: Id|
            #[trigger] inhaled(
                *old(ctx),
                *final(ctx),
                es@,
                *e,
                old(state).slots(),
                h,
                t,
                id,
            ),
{
    let ghost c0 = *ctx;
    let ghost s0 = state.slots();
    if let Err(err) = run_exp(ctx, es, e, state) {
        return Err(err);
    }
    let ghost t = choose|t: ExpTrail| #[trigger]
        exp_ran(t, es@, e.insts@, e.insts@.len() as int) && t.slots[0] == s0
            && t.slots[e.insts@.len() as int] == state.slots();
    let ghost c2 = *ctx;
    let id = get_val(ctx, &state.vals, &e.res_pure);
    let ghost c3 = *ctx;
    proof {
        lemma_leads_trans(c0, c2, c3);
        lemma_state_grows(c2.graph, c3.graph, state.vals@, state.heaps@);
    }
    ctx.assume_expr(&Expr::Class(id));
    let h = get_heap(&state.heaps, e.res_impure);
    proof {
        lemma_leads_trans(c0, c3, *ctx);
        lemma_state_grows(c3.graph, ctx.graph, state.vals@, state.heaps@);
        lemma_heap_in(ctx.graph, state.vals@, state.heaps@, e.res_impure);
        lemma_grows_denotes(
            c3.graph,
            ctx.graph,
            id,
            val_tm(t_classes(state.vals@), e.res_pure),
        );
        assert(at_address(ctx.graph, state.vals@, e.res_pure, id));
        assert(inhaled(c0, *ctx, es@, *e, s0, h, t, id));
    }
    Ok(h)
}

/// The type of the value that the `k`th pure step leaves.
pub open spec fn step_type(insts: Seq<ExpInst>, k: nat) -> Option<TypeV>
    decreases insts.len(),
{
    if insts.len() == 0 {
        None
    } else {
        match insts.last() {
            ExpInst::Pure(ty, _) if exp_pures(insts.drop_last()) == k => Some(ty@),
            _ => step_type(insts.drop_last(), k),
        }
    }
}

/// The type of an operand of a heap expression: that of an input, of a step or of a
/// literal.
pub open spec fn operand_type(inputs: Seq<Type>, insts: Seq<ExpInst>, v: Val) -> Option<TypeV> {
    match v {
        Val::Temp(n) => if n < inputs.len() {
            Some(inputs[n as int]@)
        } else {
            step_type(insts, (n - inputs.len()) as nat)
        },
        Val::Literal(Literal::Bool(_)) => Some(TypeV::Bool),
        Val::Literal(Literal::Int(_)) => Some(TypeV::Int),
        Val::Literal(Literal::Real(_)) => Some(TypeV::Real),
        Val::Literal(Literal::Null) => Some(TypeV::Ref),
    }
}

proof fn lemma_step_type(insts: Seq<ExpInst>, n: int, k: nat)
    requires
        0 <= n <= insts.len(),
        step_type(insts.take(n), k) is Some,
    ensures
        step_type(insts, k) == step_type(insts.take(n), k),
        k < exp_pures(insts),
    decreases insts.len(),
{
    if n < insts.len() {
        assert(insts.drop_last().take(n) =~= insts.take(n));
        lemma_step_type(insts.drop_last(), n, k);
    } else {
        assert(insts.take(n) =~= insts);
        if insts.len() > 0 && !(insts.last() is Pure && exp_pures(insts.drop_last()) == k) {
            let front = insts.drop_last();
            assert(front.take(front.len() as int) =~= front);
            lemma_step_type(front, front.len() as int, k);
        }
    }
}

/// The type of an operand of a heap expression; `None` where no step fills its slot.
pub fn value_type_in_heap_exp(inputs: &Vec<Type>, e: &HeapExp, v: &Val) -> (r: Option<Type>)
    ensures
        r is Some == operand_type(inputs@, e.insts@, *v) is Some,
        r matches Some(t) ==> operand_type(inputs@, e.insts@, *v) == Some(t@),
{
    match v {
        Val::Temp(n) => {
            if *n < inputs.len() {
                return Some(inputs[*n].clone());
            }
            let want: usize = *n - inputs.len();
            let mut seen: usize = 0;
            let mut i: usize = 0;
            proof {
                assert(e.insts@.take(0) =~= Seq::empty());
            }
            while i < e.insts.len()
                invariant
                    i <= e.insts@.len(),
                    *v == Val::Temp(*n),
                    *n == want + inputs@.len(),
                    seen <= i,
                    seen == exp_pures(e.insts@.take(i as int)),
                    step_type(e.insts@.take(i as int), want as nat) is None,
                decreases e.insts.len() - i,
            {
                proof {
                    assert(e.insts@.take(i + 1).drop_last() =~= e.insts@.take(i as int));
                }
                if let ExpInst::Pure(ty, _) = &e.insts[i] {
                    if seen == want {
                        proof {
                            assert(e.insts@.take(i + 1).last() == e.insts@[i as int]);
                            lemma_step_type(e.insts@, i + 1, want as nat);
                        }
                        return Some(ty.clone());
                    }
                    seen += 1;
                }
                i += 1;
            }
            proof {
                assert(e.insts@.take(e.insts@.len() as int) =~= e.insts@);
            }
            None
        },
        Val::Literal(l) => match l {
            Literal::Bool(_) => Some(Type::Bool),
            Literal::Int(_) => Some(Type::Int),
            Literal::Real(_) => Some(Type::Real),
            Literal::Null => Some(Type::Ref),
        },
    }
}

} // verus!
