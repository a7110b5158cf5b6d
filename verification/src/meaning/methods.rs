//! What the heaps of a verified method hold.

use crate::context::{fresh_node, Context};
use crate::lang::{Id, OpV, RecipeId};
use crate::graph::Graph;
use crate::context::cube_holds;
use crate::meaning::heaps::{gives, lemma_at};
use crate::meaning::quantified::captured_values;
use crate::meaning::slots::{lemma_operand_kept, lemma_slots_kept, on_path};
use crate::meaning::steps::{
    asked_by, law_heap_enough, law_heap_step, lemma_lits_hold, own_address,
};
use crate::meaning::values::{operand, operands_of};
use crate::method::eval::{
    at_address, heap_list, lits_for, pure_result, readable, reads_perm, reads_value, slot_tms,
};
use crate::method::heapinst::heap_inst_ok;
use crate::method::merge::{amount, held, nonnegative};
use crate::method::plain::{chunk_map, Chunk, Heap};
use crate::method::resource::Env;
use crate::method::run::{heap_insts, heap_stepped, inst_ok, insts_ok, pures, stepped, Slots};
use crate::method::unit::{inst_ran, method_verified, ran, read_checked, Trail};
use crate::model::{t_classes, Model, Tm};
use crate::program::{HeapInst, HeapVal, Inst, InstKind, Method, PureInst, Sign, Target};
use crate::quant::entry_at;
use crate::rewrite::recipe::{guards_ok, val_ok, vals_ok};
use crate::terms::lemma_grows_models;
use crate::vmir::{Polarity, Val, Value};
use vstd::prelude::*;

verus! {

/// Later slots keep the heaps of earlier ones, and one is added for each heap instruction.
proof fn lemma_heaps_kept(t: Trail, env: Env, insts: Seq<Inst>, n: int, i: int)
    requires
        ran(t, env, insts, n),
        0 <= i <= n <= insts.len(),
    ensures
        t.slots[i].heaps.is_prefix_of(t.slots[n].heaps),
        t.slots[n].heaps.len() == t.slots[i].heaps.len() + heap_insts(insts.take(n)) - heap_insts(
            insts.take(i),
        ),
    decreases n - i,
{
    if i < n {
        let k = n - 1;
        let u = Trail { ctxs: t.ctxs.drop_last(), slots: t.slots.drop_last() };
        assert(ran(u, env, insts, k)) by {
            assert forall|j: int| 0 <= j < k implies #[trigger] inst_ran(
                u.ctxs[j],
                u.ctxs[j + 1],
                env,
                u.slots[j],
                u.slots[j + 1],
                insts[j],
            ) by {
                assert(inst_ran(
                    t.ctxs[j],
                    t.ctxs[j + 1],
                    env,
                    t.slots[j],
                    t.slots[j + 1],
                    insts[j],
                ));
            }
        }
        lemma_heaps_kept(u, env, insts, k, i);
        assert(inst_ran(t.ctxs[k], t.ctxs[n], env, t.slots[k], t.slots[n], insts[k]));
        let mid = choose|mid: Context|
            {
                &&& #[trigger] t.ctxs[k].leads_to(mid)
                &&& read_checked(t.ctxs[k], mid, t.slots[k], insts[k])
                &&& mid.leads_to(t.ctxs[n])
                &&& stepped(mid, t.ctxs[n], env, t.slots[k], t.slots[n], insts[k])
            };
        assert(insts.take(n).drop_last() =~= insts.take(k));
        assert(insts.take(n).last() == insts[k]);
        assert(t.slots[k].heaps.is_prefix_of(t.slots[n].heaps)) by {
            if insts[k].kind is Heap {
                assert(t.slots[n].heaps.drop_last() == t.slots[k].heaps);
            }
        }
    }
}

proof fn lemma_args_kept(m: Model, a: Seq<Id>, b: Seq<Id>, vs: Seq<Val>)
    requires
        a.is_prefix_of(b),
        vals_ok(vs, a.len()),
    ensures
        operands_of(m.all(a), vs) == operands_of(m.all(b), vs),
{
    assert forall|i: int| 0 <= i < vs.len() implies operand(m.all(a), vs[i]) == operand(
        m.all(b),
        vs[i],
    ) by {
        assert(val_ok(vs[i], a.len()));
        lemma_operand_kept(m, a, b, vs[i]);
    }
    assert(operands_of(m.all(a), vs) =~= operands_of(m.all(b), vs));
}

/// A heap instruction reads of later slots what it read of its own.
pub proof fn lemma_reads_kept(
    env: Env,
    m: Model,
    a: Seq<Id>,
    b: Seq<Id>,
    hs: Seq<Heap>,
    later: Seq<Heap>,
    hi: HeapInst,
    fp: Seq<(Value, Value)>,
)
    requires
        a.is_prefix_of(b),
        hs.is_prefix_of(later),
        heap_inst_ok(hi, a.len(), hs.len()),
        asked_by(env, m, m.all(b), hi, fp),
    ensures
        asked_by(env, m, m.all(a), hi, fp),
        match hi {
            HeapInst::Combine { base, perm, .. } => heap_list(hs, base) == heap_list(later, base)
                && operand(m.all(a), perm) == operand(m.all(b), perm),
            HeapInst::Fold { base, call, perm } => heap_list(hs, base) == heap_list(later, base)
                && operand(m.all(a), perm) == operand(m.all(b), perm) && own_address(
                env,
                m,
                m.all(a),
                call,
            ) == own_address(env, m, m.all(b), call),
            HeapInst::Unfold { base, call, perm } => heap_list(hs, base) == heap_list(later, base)
                && operand(m.all(a), perm) == operand(m.all(b), perm) && own_address(
                env,
                m,
                m.all(a),
                call,
            ) == own_address(env, m, m.all(b), call),
            HeapInst::Assign(base, w) => heap_list(hs, base) == heap_list(later, base) && operand(
                m.all(a),
                w.loc,
            ) == operand(m.all(b), w.loc) && operand(m.all(a), w.val) == operand(m.all(b), w.val),
        },
{
    match hi {
        HeapInst::Combine { base, sign, target, perm } => {
            lemma_operand_kept(m, a, b, perm);
            match target {
                Target::Loc(l) => {
                    lemma_operand_kept(m, a, b, l);
                },
                Target::Resource(call) => {
                    lemma_args_kept(m, a, b, call.args@);
                },
            }
        },
        HeapInst::Fold { base, call, perm } => {
            lemma_operand_kept(m, a, b, perm);
            lemma_args_kept(m, a, b, call.args@);
        },
        HeapInst::Unfold { base, call, perm } => {
            lemma_operand_kept(m, a, b, perm);
            lemma_args_kept(m, a, b, call.args@);
        },
        HeapInst::Assign(base, w) => {
            lemma_operand_kept(m, a, b, w.loc);
            lemma_operand_kept(m, a, b, w.val);
        },
    }
}

/// The step of a heap instruction in a verified method.
#[verifier::rlimit(40)]
#[verifier::spinoff_prover]
proof fn lemma_heap_ran(
    env: Env,
    drop: Seq<String>,
    method: Method,
    t: Trail,
    m: Model,
    i: int,
) -> (r: Context)
    requires
        method_verified(env, drop, method, t),
        insts_ok(method.insts@, 0, 0),
        !t.ctxs.last().graph.full(),
        t.ctxs.last().graph.models(m),
        0 <= i < method.insts@.len(),
        method.insts@[i].kind is Heap,
    ensures
        heap_stepped(
            r,
            t.ctxs[i + 1],
            env,
            t.slots[i].vals,
            t.slots[i].heaps,
            method.insts@[i].kind->Heap_0,
            method.insts@[i].pc.conds@,
            t.slots[i + 1].heaps.last(),
        ),
        !t.ctxs[i + 1].graph.full(),
        t.ctxs[i + 1].graph.models(m),
        t.slots[i].vals.is_prefix_of(t.slots.last().vals),
        t.slots[i].heaps.is_prefix_of(t.slots.last().heaps),
        inst_ok(method.insts@[i], t.slots[i].vals.len(), t.slots[i].heaps.len()),
        t.slots[i].heaps.len() == heap_insts(method.insts@.take(i)),
        t.slots[i].heaps.len() < t.slots.last().heaps.len(),
        t.slots.last().heaps[t.slots[i].heaps.len() as int] == t.slots[i + 1].heaps.last(),
{
    let insts = method.insts@;
    let n = insts.len() as int;
    lemma_slots_kept(t, env, insts, n, i);
    lemma_slots_kept(t, env, insts, n, i + 1);
    lemma_slots_kept(t, env, insts, n, 0);
    lemma_heaps_kept(t, env, insts, n, i);
    lemma_heaps_kept(t, env, insts, n, i + 1);
    lemma_heaps_kept(t, env, insts, n, 0);
    assert(insts.take(0) =~= Seq::empty());
    assert(insts.take(n) =~= insts);
    assert(inst_ok(insts[i], 0 + pures(insts.take(i)), 0 + heap_insts(insts.take(i))));
    assert(inst_ran(t.ctxs[i], t.ctxs[i + 1], env, t.slots[i], t.slots[i + 1], insts[i]));
    if i + 1 < n {
        lemma_grows_models(t.ctxs[i + 1].graph, t.ctxs[n].graph, m);
    }
    let mid = choose|mid: Context|
        {
            &&& #[trigger] t.ctxs[i].leads_to(mid)
            &&& read_checked(t.ctxs[i], mid, t.slots[i], insts[i])
            &&& mid.leads_to(t.ctxs[i + 1])
            &&& stepped(mid, t.ctxs[i + 1], env, t.slots[i], t.slots[i + 1], insts[i])
        };
    mid
}

/// The heaps of a verified method are an execution of it: each holds of every location
/// what its instruction makes of the heap that it reads.
#[verifier::rlimit(40)]
#[verifier::spinoff_prover]
pub proof fn law_method_heaps(
    env: Env,
    drop: Seq<String>,
    method: Method,
    t: Trail,
    m: Model,
    i: int,
    fp: Seq<(Value, Value)>,
    loc: Value,
)
    requires
        method_verified(env, drop, method, t),
        env.wf(),
        insts_ok(method.insts@, 0, 0),
        !t.ctxs.last().graph.full(),
        t.ctxs.last().graph.models(m),
        0 <= i < method.insts@.len(),
        method.insts@[i].kind is Heap,
        asked_by(env, m, m.all(t.slots.last().vals), method.insts@[i].kind->Heap_0, fp),
    ensures
        ({
            let x = m.all(t.slots.last().vals);
            let hs = t.slots.last().heaps;
            let k = heap_insts(method.insts@.take(i)) as int;
            &&& k < hs.len()
            &&& match method.insts@[i].kind->Heap_0 {
                HeapInst::Combine { base, sign: Sign::Add, perm, .. } => held(m, hs[k].list(), loc)
                    == held(m, heap_list(hs, base), loc) + amount(operand(x, perm)) * gives(fp, loc),
                HeapInst::Combine { base, sign: Sign::Sub, perm, .. } => held(m, hs[k].list(), loc)
                    == held(m, heap_list(hs, base), loc) - amount(operand(x, perm)) * gives(fp, loc),
                HeapInst::Fold { base, call, perm } => held(m, hs[k].list(), loc) == held(
                    m,
                    heap_list(hs, base),
                    loc,
                ) - amount(operand(x, perm)) * gives(fp, loc) + (if loc == own_address(
                    env,
                    m,
                    x,
                    call,
                ) {
                    amount(operand(x, perm))
                } else {
                    0 as real
                }),
                HeapInst::Unfold { base, call, perm } => held(m, hs[k].list(), loc) == held(
                    m,
                    heap_list(hs, base),
                    loc,
                ) - (if loc == own_address(env, m, x, call) {
                    amount(operand(x, perm))
                } else {
                    0 as real
                }) + amount(operand(x, perm)) * gives(fp, loc),
                HeapInst::Assign(base, w) => held(m, hs[k].list(), loc) == held(
                    m,
                    heap_list(hs, base),
                    loc,
                ) && exists|j: int|
                    0 <= j < hs[k].list().len() && m.at((#[trigger] hs[k].list()[j]).0) == operand(
                        x,
                        w.loc,
                    ) && m.at(hs[k].list()[j].1.value) == operand(x, w.val),
            }
        }),
{
    let mid = lemma_heap_ran(env, drop, method, t, m, i);
    let s = t.slots[i];
    let last = t.slots.last();
    let inst = method.insts@[i];
    let hi = inst.kind->Heap_0;
    lemma_reads_kept(env, m, s.vals, last.vals, s.heaps, last.heaps, hi, fp);
    law_heap_step(
        mid,
        t.ctxs[i + 1],
        env,
        s.vals,
        s.heaps,
        hi,
        inst.pc.conds@,
        t.slots[i + 1].heaps.last(),
        m,
        fp,
        loc,
    );
}

/// In a verified method, what an instruction takes on its path is there, and what it
/// writes is held in full, wherever its base holds no negative permission.
#[verifier::rlimit(40)]
#[verifier::spinoff_prover]
pub proof fn law_method_enough(
    env: Env,
    drop: Seq<String>,
    method: Method,
    t: Trail,
    m: Model,
    i: int,
    fp: Seq<(Value, Value)>,
    loc: Value,
)
    requires
        method_verified(env, drop, method, t),
        env.wf(),
        insts_ok(method.insts@, 0, 0),
        !t.ctxs.last().graph.full(),
        t.ctxs.last().graph.models(m),
        0 <= i < method.insts@.len(),
        method.insts@[i].kind is Heap,
        asked_by(env, m, m.all(t.slots.last().vals), method.insts@[i].kind->Heap_0, fp),
        on_path(m.all(t.slots.last().vals), method.insts@[i].pc.conds@),
    ensures
        ({
            let x = m.all(t.slots.last().vals);
            let hs = t.slots.last().heaps;
            match method.insts@[i].kind->Heap_0 {
                HeapInst::Combine { base: HeapVal::Temp(n), sign: Sign::Sub, perm, .. } => {
                    nonnegative(m, hs[n as int].list()) ==> amount(operand(x, perm)) * gives(
                        fp,
                        loc,
                    ) <= held(m, hs[n as int].list(), loc)
                },
                HeapInst::Fold { base, call, perm } => nonnegative(m, heap_list(hs, base))
                    ==> amount(operand(x, perm)) * gives(fp, loc) <= held(
                    m,
                    heap_list(hs, base),
                    loc,
                ),
                HeapInst::Unfold { base, call, perm } => nonnegative(m, heap_list(hs, base))
                    ==> amount(operand(x, perm)) <= held(
                    m,
                    heap_list(hs, base),
                    own_address(env, m, x, call),
                ),
                HeapInst::Assign(base, w) => nonnegative(m, heap_list(hs, base)) ==> held(
                    m,
                    heap_list(hs, base),
                    operand(x, w.loc),
                ) >= 1 as real,
                _ => true,
            }
        }),
{
    let mid = lemma_heap_ran(env, drop, method, t, m, i);
    let s = t.slots[i];
    let last = t.slots.last();
    let inst = method.insts@[i];
    let hi = inst.kind->Heap_0;
    lemma_reads_kept(env, m, s.vals, last.vals, s.heaps, last.heaps, hi, fp);
    assert(on_path(m.all(s.vals), inst.pc.conds@)) by {
        let conds = inst.pc.conds@;
        assert forall|k: int| 0 <= k < conds.len() implies operand(
            m.all(s.vals),
            (#[trigger] conds[k]).0,
        ) == Value::Bool(conds[k].1 == Polarity::Positive) by {
            assert(val_ok(conds[k].0, s.vals.len()));
            lemma_operand_kept(m, s.vals, last.vals, conds[k].0);
        }
    }
    law_heap_enough(
        mid,
        t.ctxs[i + 1],
        env,
        s.vals,
        s.heaps,
        hi,
        inst.pc.conds@,
        t.slots[i + 1].heaps.last(),
        m,
        fp,
        loc,
    );
}

/// An address that the map of entries has is that of an entry.
proof fn lemma_mapped_entry(es: Seq<(Id, Chunk)>, addr: Id) -> (i: int)
    requires
        chunk_map(es).dom().contains(addr),
    ensures
        0 <= i < es.len(),
        es[i] == (addr, chunk_map(es)[addr]),
    decreases es.len(),
{
    if es.last().0 == addr {
        es.len() - 1
    } else {
        lemma_mapped_entry(es.drop_last(), addr)
    }
}

/// What a read of a heap leaves: the permission of an entry of the location, or zero.
pub open spec fn perm_read(m: Model, es: Seq<(Id, Chunk)>, loc: Value, v: Value) -> bool {
    ||| v == Value::Real(0 as real)
    ||| exists|i: int|
        0 <= i < es.len() && m.at((#[trigger] es[i]).0) == loc && m.at(es[i].1.perm) == v
}

/// An entry of the location that holds permission.
pub open spec fn held_entry(m: Model, es: Seq<(Id, Chunk)>, loc: Value, i: int) -> bool {
    &&& 0 <= i < es.len()
    &&& m.at(es[i].0) == loc
    &&& amount(m.at(es[i].1.perm)) > 0 as real
}

proof fn lemma_perm_read(
    g: Graph,
    m: Model,
    vals: Seq<Id>,
    es: Seq<(Id, Chunk)>,
    l: Val,
    addr: Id,
    r: Id,
)
    requires
        !g.full(),
        g.models(m),
        val_ok(l, vals.len()),
        at_address(g, vals, l, addr),
        reads_perm(g, es, addr, r),
    ensures
        perm_read(m, es, operand(m.all(vals), l), m.at(r)),
{
    lemma_at(g, m, vals, l, addr);
    if chunk_map(es).dom().contains(addr) {
        let i = lemma_mapped_entry(es, addr);
        assert(m.at(es[i].0) == operand(m.all(vals), l) && m.at(es[i].1.perm) == m.at(r));
    } else {
        crate::model::lemma_tm_lit(m, Value::Real(0 as real));
    }
}

/// Reading is checked: on the path an entry of the location holds permission.
pub proof fn lemma_deref_checked(
    a: Context,
    mid: Context,
    s: Slots,
    inst: Inst,
    m: Model,
    b: Context,
    r: Id,
) -> (i: int)
    requires
        inst.kind matches InstKind::Pure(_, PureInst::Deref(hv, l)) && val_ok(l, s.vals.len()),
        guards_ok(inst.pc.conds@, s.vals.len()),
        read_checked(a, mid, s, inst),
        mid.leads_to(b),
        !b.graph.full(),
        b.graph.models(m),
        on_path(m.all(s.vals), inst.pc.conds@),
        exists|addr: Id| #[trigger]
            at_address(b.graph, s.vals, inst.kind->Pure_1->Deref_1, addr) && reads_value(
                b.graph,
                heap_list(s.heaps, inst.kind->Pure_1->Deref_0),
                addr,
                r,
            ),
    ensures
        held_entry(
            m,
            heap_list(s.heaps, inst.kind->Pure_1->Deref_0),
            operand(m.all(s.vals), inst.kind->Pure_1->Deref_1),
            i,
        ),
        inst.kind->Pure_1->Deref_1 is Temp ==> m.at(
            heap_list(s.heaps, inst.kind->Pure_1->Deref_0)[i].1.value,
        ) == m.at(r),
{
    broadcast use crate::terms::group_grows;

    let l = inst.kind->Pure_1->Deref_1;
    let es = heap_list(s.heaps, inst.kind->Pure_1->Deref_0);
    let lits = choose|lits: Seq<(Id, Polarity)>| #[trigger]
        lits_for(mid.graph, s.vals, inst.pc.conds@, lits) && readable(
            a,
            mid.graph,
            s.vals,
            es,
            l,
            lits,
        );
    lemma_grows_models(mid.graph, b.graph, m);
    lemma_lits_hold(mid.graph, m, s.vals, inst.pc.conds@, lits);
    let (addr, p) = choose|addr: Id, p: Id|
        {
            &&& #[trigger] at_address(mid.graph, s.vals, l, addr)
            &&& #[trigger] reads_perm(mid.graph, es, addr, p)
            &&& crate::prove::shown_tm(
                a,
                lits,
                crate::model::t_ltr(crate::model::t_real(0 as real), crate::model::Tm::Class(p)),
            )
            &&& !mid.graph.full() && forall|m: Model| #[trigger]
                mid.graph.models(m) && cube_holds(m, lits) ==> amount(m.at(p)) > 0 as real
        };
    assert(amount(m.at(p)) > 0 as real);
    lemma_at(mid.graph, m, s.vals, l, addr);
    crate::model::lemma_tm_lit(m, Value::Real(0 as real));
    assert(chunk_map(es).dom().contains(addr));
    lemma_mapped_entry(es, addr)
}

/// What the pure instructions of a verified method read: a quantifier's slot tells what the
/// model says of it at the slots that it captures; the permission to a location is that of
/// an entry of it, or zero; and a location is only read on the path where an entry of it
/// holds permission, and its value is what is read.
#[verifier::rlimit(60)]
#[verifier::spinoff_prover]
pub proof fn law_method_reads(
    env: Env,
    drop: Seq<String>,
    method: Method,
    t: Trail,
    m: Model,
    i: int,
)
    requires
        method_verified(env, drop, method, t),
        insts_ok(method.insts@, 0, 0),
        !t.ctxs.last().graph.full(),
        t.ctxs.last().graph.models(m),
        0 <= i < method.insts@.len(),
        method.insts@[i].kind is Pure,
    ensures
        ({
            let x = m.all(t.slots.last().vals);
            let hs = t.slots.last().heaps;
            let inst = method.insts@[i];
            let v = x[pures(method.insts@.take(i)) as int];
            let es = env.quants.entries@;
            match inst.kind->Pure_1 {
                PureInst::Forall(q) => entry_at(es, q.label) matches Some(j) && ((forall|k: int|
                    0 <= k < es[j].free@.len() ==> #[trigger] es[j].free@[k] < pures(
                        method.insts@.take(i),
                    )) ==> v == Value::Bool(
                    (m.quant)(es[j].recipe, captured_values(x, es[j].free@)),
                )),
                PureInst::Perm(hv, l) => perm_read(m, heap_list(hs, hv), operand(x, l), v),
                PureInst::Deref(hv, l) => on_path(x, inst.pc.conds@) ==> exists|j: int|
                    #[trigger] held_entry(m, heap_list(hs, hv), operand(x, l), j) && (l is Temp
                        ==> m.at(heap_list(hs, hv)[j].1.value) == v),
                _ => true,
            }
        }),
{
    let insts = method.insts@;
    let n = insts.len() as int;
    lemma_slots_kept(t, env, insts, n, i);
    lemma_slots_kept(t, env, insts, n, i + 1);
    lemma_slots_kept(t, env, insts, n, 0);
    lemma_heaps_kept(t, env, insts, n, i);
    lemma_heaps_kept(t, env, insts, n, 0);
    assert(insts.take(0) =~= Seq::empty());
    assert(insts.take(n) =~= insts);
    let s = t.slots[i];
    let u = t.slots[i + 1];
    let last = t.slots[n];
    let inst = insts[i];
    assert(inst_ok(inst, 0 + pures(insts.take(i)), 0 + heap_insts(insts.take(i))));
    assert(inst_ran(t.ctxs[i], t.ctxs[i + 1], env, s, u, inst));
    if i + 1 < n {
        lemma_grows_models(t.ctxs[i + 1].graph, t.ctxs[n].graph, m);
    }
    let mid = choose|mid: Context|
        {
            &&& #[trigger] t.ctxs[i].leads_to(mid)
            &&& read_checked(t.ctxs[i], mid, s, inst)
            &&& mid.leads_to(t.ctxs[i + 1])
            &&& stepped(mid, t.ctxs[i + 1], env, s, u, inst)
        };
    let b = t.ctxs[i + 1];
    let r = u.vals.last();
    let k = s.vals.len() as int;
    assert(last.vals[k] == u.vals[k] && u.vals[k] == r);
    let es = env.quants.entries@;
    assert(pure_result(b.graph, s.vals, s.heaps, es, inst.kind->Pure_1, r));
    match inst.kind->Pure_1 {
        PureInst::Forall(q) => {
            let j = entry_at(es, q.label).unwrap();
            if forall|k: int|
                0 <= k < es[j].free@.len() ==> #[trigger] es[j].free@[k] < pures(insts.take(i)) {
                lemma_forall_slot(m, s.vals, last.vals, es[j].recipe, es[j].free@, r, b.graph);
            }
        },
        PureInst::Perm(hv, l) => {
            let addr = choose|addr: Id| #[trigger]
                at_address(b.graph, s.vals, l, addr) && reads_perm(
                    b.graph,
                    heap_list(s.heaps, hv),
                    addr,
                    r,
                );
            lemma_perm_read(b.graph, m, s.vals, heap_list(s.heaps, hv), l, addr, r);
            lemma_operand_kept(m, s.vals, last.vals, l);
            assert(heap_list(s.heaps, hv) == heap_list(last.heaps, hv));
        },
        PureInst::Deref(hv, l) => {
            lemma_operand_kept(m, s.vals, last.vals, l);
            assert(heap_list(s.heaps, hv) == heap_list(last.heaps, hv));
            let conds = inst.pc.conds@;
            if on_path(m.all(last.vals), conds) {
                assert forall|k: int| 0 <= k < conds.len() implies operand(
                    m.all(s.vals),
                    (#[trigger] conds[k]).0,
                ) == Value::Bool(conds[k].1 == Polarity::Positive) by {
                    assert(val_ok(conds[k].0, s.vals.len()));
                    lemma_operand_kept(m, s.vals, last.vals, conds[k].0);
                }
                let j = lemma_deref_checked(t.ctxs[i], mid, s, inst, m, b, r);
                assert(held_entry(
                    m,
                    heap_list(last.heaps, hv),
                    operand(m.all(last.vals), l),
                    j,
                ));
            }
        },
        _ => {},
    }
}

proof fn lemma_forall_slot(
    m: Model,
    vals: Seq<Id>,
    last: Seq<Id>,
    recipe: RecipeId,
    free: Seq<usize>,
    r: Id,
    g: Graph,
)
    requires
        vals.is_prefix_of(last),
        forall|k: int| 0 <= k < free.len() ==> #[trigger] free[k] < vals.len(),
        !g.full(),
        g.models(m),
        g.denotes(r, Tm::App(OpV::Forall(recipe), slot_tms(vals, free))),
    ensures
        m.at(r) == Value::Bool((m.quant)(recipe, captured_values(m.all(last), free))),
{
    let ids = Seq::new(free.len(), |k: int| vals[free[k] as int]);
    assert(slot_tms(vals, free) =~= t_classes(ids));
    crate::model::lemma_tms_classes(m, ids);
    assert(m.all(ids) =~= captured_values(m.all(last), free)) by {
        assert forall|k: int| 0 <= k < free.len() implies m.all(ids)[k] == captured_values(
            m.all(last),
            free,
        )[k] by {
            assert(free[k] < vals.len());
            assert(last[free[k] as int] == vals[free[k] as int]);
        }
    }
}

/// The class that an instruction gave a new symbol, in the last slots.
proof fn lemma_fresh_ran(env: Env, drop: Seq<String>, method: Method, t: Trail, i: int)
    requires
        method_verified(env, drop, method, t),
        0 <= i < method.insts@.len(),
        method.insts@[i].kind matches InstKind::Pure(_, PureInst::Fresh),
        !t.ctxs.last().graph.full(),
        t.ctxs.last().next_fresh < u32::MAX,
    ensures
        ({
            let k = pures(method.insts@.take(i)) as int;
            let r = t.slots.last().vals[k];
            let n = t.ctxs[i + 1].next_fresh;
            &&& k < t.slots.last().vals.len()
            &&& r == t.ctxs[i].graph.len()
            &&& t.ctxs[i + 1].graph.len() == r + 1
            &&& t.ctxs[i + 1].graph.defs() == t.ctxs[i].graph.defs().push(fresh_node(n))
            &&& !t.ctxs[i].graph.lists(fresh_node(n))
            &&& i + 1 < method.insts@.len() ==> t.ctxs[i + 1].leads_to(t.ctxs.last())
        }),
{
    let insts = method.insts@;
    let n = insts.len() as int;
    lemma_slots_kept(t, env, insts, n, i);
    lemma_slots_kept(t, env, insts, n, i + 1);
    lemma_slots_kept(t, env, insts, n, 0);
    assert(insts.take(0) =~= Seq::empty());
    let s = t.slots[i];
    let u = t.slots[i + 1];
    let inst = insts[i];
    assert(inst_ran(t.ctxs[i], t.ctxs[i + 1], env, s, u, inst));
    let mid = choose|mid: Context|
        {
            &&& #[trigger] t.ctxs[i].leads_to(mid)
            &&& read_checked(t.ctxs[i], mid, s, inst)
            &&& mid.leads_to(t.ctxs[i + 1])
            &&& stepped(mid, t.ctxs[i + 1], env, s, u, inst)
        };
    assert(mid == t.ctxs[i]);
    assert(u.vals.last() == u.vals[s.vals.len() as int]);
    assert(t.slots[n].vals[s.vals.len() as int] == u.vals[s.vals.len() as int]);
}

/// A symbol that an instruction makes is new: no class was it before, and no two
/// instructions make one class.
pub proof fn law_fresh_slots(
    env: Env,
    drop: Seq<String>,
    method: Method,
    t: Trail,
    m: Model,
    i: int,
    j: int,
)
    requires
        method_verified(env, drop, method, t),
        0 <= i < method.insts@.len(),
        0 <= j < i,
        method.insts@[i].kind matches InstKind::Pure(_, PureInst::Fresh),
        method.insts@[j].kind matches InstKind::Pure(_, PureInst::Fresh),
        !t.ctxs.last().graph.full(),
        t.ctxs.last().next_fresh < u32::MAX,
        t.ctxs.last().graph.models(m),
    ensures
        ({
            let ids = t.slots.last().vals;
            let r = ids[pures(method.insts@.take(i)) as int];
            &&& !t.ctxs[i].graph.has(r)
            &&& r != ids[pures(method.insts@.take(j)) as int]
            &&& exists|n: u32|
                #![trigger fresh_node(n)]
                m.at(r) == (m.fresh)(n) && !t.ctxs[i].graph.lists(fresh_node(n))
        }),
{
    let insts = method.insts@;
    let last = insts.len() as int;
    lemma_fresh_ran(env, drop, method, t, i);
    lemma_fresh_ran(env, drop, method, t, j);
    if j + 1 < i {
        let u = Trail { ctxs: t.ctxs.take(i + 1), slots: t.slots.take(i + 1) };
        assert(ran(u, env, insts, i)) by {
            assert forall|k: int| 0 <= k < i implies #[trigger] inst_ran(
                u.ctxs[k],
                u.ctxs[k + 1],
                env,
                u.slots[k],
                u.slots[k + 1],
                insts[k],
            ) by {
                assert(inst_ran(
                    t.ctxs[k],
                    t.ctxs[k + 1],
                    env,
                    t.slots[k],
                    t.slots[k + 1],
                    insts[k],
                ));
            }
        }
        lemma_slots_kept(u, env, insts, i, j + 1);
    }
    let n = t.ctxs[i + 1].next_fresh;
    let r = t.ctxs[i].graph.len() as int;
    let g = t.ctxs[i + 1].graph;
    if i + 1 < last {
        lemma_grows_models(g, t.ctxs[last].graph, m);
    }
    lemma_slots_kept(t, env, insts, last, i);
    assert(g.models(m));
    if i > 0 {
        lemma_wf_at(t, env, insts, i);
    }
    crate::graph::lemma_defs_len(t.ctxs[i].graph);
    assert(g.defs()[r] == fresh_node(n));
    assert(m.all(Seq::<Id>::empty()) =~= Seq::<Value>::empty());
    assert(crate::model::term_value(m, g.defs()[r]) == Some(m.at(r as Id)));
    assert(m.at(r as Id) == (m.fresh)(n));
}

proof fn lemma_wf_at(t: Trail, env: Env, insts: Seq<Inst>, i: int)
    requires
        ran(t, env, insts, insts.len() as int),
        0 < i <= insts.len(),
    ensures
        t.ctxs[i].wf(),
{
    assert(inst_ran(
        t.ctxs[i - 1],
        t.ctxs[i - 1 + 1],
        env,
        t.slots[i - 1],
        t.slots[i - 1 + 1],
        insts[i - 1],
    ));
}

} // verus!
