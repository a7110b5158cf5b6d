//! What an instruction on heaps does to what is held.

use crate::context::{cube_holds, lemma_leads_trans, lit_holds, Context};
use crate::graph::Graph;
use crate::lang::{FuncId, Id};
use crate::meaning::heaps::{
    asks, gives, law_fold_amounts, law_taken_held, law_unfold_amounts, lemma_args, lemma_at,
    lemma_gives, lemma_images_hold, lemma_nonnegative_held,
};
use crate::meaning::slots::on_path;
use crate::meaning::values::{operand, operands_of};
use crate::method::eval::{at_address, heap_list, lits_for};
use crate::method::fold::{folded, pred_of, unfolded, FoldSteps, UnfoldSteps};
use crate::method::graft::{carried_over, delta_images, graft_result, image_is, learns_graft};
use crate::method::heapinst::{combined, heap_inst_ok, loc_combined, rewritten, single, values_new, written};
use crate::method::merge::{amount, held, lemma_held_update, nonnegative, share};
use crate::method::plain::{Chunk, Heap};
use crate::method::resource::{called, cert_of, law_scaled, resource_combined, CombineSteps, Env};
use crate::method::run::heap_stepped;
use crate::model::{lemma_tm_lit, t_classes, t_real, Model, Tm};
use crate::program::{HeapInst, HeapVal, ResourceCall, Sign, Target};
use crate::rewrite::recipe::{guards_ok, val_ok, val_tms};
use crate::terms::{denote_all, group_grows, lemma_grows_models};
use crate::vmir::{Polarity, Val, Value};
use vstd::prelude::*;

verus! {

/// What an instruction asks for at a permission of one: a location asks for itself, and a
/// resource for what its certificate says of the arguments.
pub open spec fn asked_by(
    env: Env,
    m: Model,
    x: Seq<Value>,
    hi: HeapInst,
    fp: Seq<(Value, Value)>,
) -> bool {
    match hi {
        HeapInst::Combine { target: Target::Loc(l), .. } => fp == seq![
            (operand(x, l), Value::Real(1 as real)),
        ],
        HeapInst::Combine { target: Target::Resource(call), .. } => cert_of(
            env,
            call.resource,
            call.args@.len(),
        ) matches Some(cert) && asks(cert, m, operands_of(x, call.args@), fp),
        HeapInst::Unfold { call, .. } => pred_of(env, call.resource) is Some && (cert_of(
            env,
            call.resource,
            call.args@.len(),
        ) matches Some(cert) && asks(cert, m, operands_of(x, call.args@), fp)),
        HeapInst::Fold { call, .. } => pred_of(env, call.resource) is Some && (cert_of(
            env,
            call.resource,
            call.args@.len(),
        ) matches Some(cert) && asks(cert, m, operands_of(x, call.args@), fp)) && (forall|
            i: int,
            j: int,
        |
            0 <= i < j < fp.len() ==> (#[trigger] fp[i]).0 != (#[trigger] fp[j]).0),
        HeapInst::Assign(_, _) => fp.len() == 0,
    }
}

/// The address of a predicate at arguments.
pub open spec fn own_address(env: Env, m: Model, x: Seq<Value>, call: ResourceCall) -> Value {
    (m.func)(
        FuncId(pred_of(env, call.resource).unwrap().addr_fn),
        Seq::empty(),
        operands_of(x, call.args@),
    )
}

proof fn lemma_one_entry(m: Model, es: Seq<(Id, Chunk)>, loc: Value)
    requires
        es.len() == 1,
    ensures
        held(m, es, loc) == share(m, es[0], loc),
{
    assert(es.drop_last() =~= Seq::empty());
    assert(held(m, es.drop_last(), loc) == 0 as real);
}

proof fn lemma_single(
    g: Graph,
    m: Model,
    vals: Seq<Id>,
    l: Val,
    perm: Val,
    one: Heap,
    fp: Seq<(Value, Value)>,
    loc: Value,
)
    requires
        !g.full(),
        g.models(m),
        val_ok(l, vals.len()),
        val_ok(perm, vals.len()),
        single(g, vals, l, perm, one),
        fp == seq![(operand(m.all(vals), l), Value::Real(1 as real))],
    ensures
        held(m, one.list(), loc) == amount(operand(m.all(vals), perm)) * gives(fp, loc),
{
    let (addr, c) = choose|addr: Id, c: Chunk|
        {
            &&& #[trigger] at_address(g, vals, l, addr)
            &&& #[trigger] at_address(g, vals, perm, c.perm)
            &&& g.has(c.value)
            &&& crate::method::eval::is_symbol(g, c.value)
            &&& one.list() == seq![(addr, c)]
        };
    lemma_at(g, m, vals, l, addr);
    lemma_at(g, m, vals, perm, c.perm);
    lemma_one_entry(m, one.list(), loc);
    let k = amount(operand(m.all(vals), perm));
    assert(fp.drop_last() =~= Seq::empty());
    assert(gives(fp.drop_last(), loc) == 0 as real);
    assert(gives(fp, loc) == if operand(m.all(vals), l) == loc {
        1 as real
    } else {
        0 as real
    });
    assert(k * (0 as real) == 0 as real) by (nonlinear_arith);
    assert(k * (1 as real) == k) by (nonlinear_arith);
}

/// Permission to a location is put in or taken out.
proof fn lemma_loc_step(
    a: Context,
    b: Context,
    vals: Seq<Id>,
    base: Seq<(Id, Chunk)>,
    sign: Sign,
    l: Val,
    perm: Val,
    conds: Seq<(Val, Polarity)>,
    r: Heap,
    m: Model,
    fp: Seq<(Value, Value)>,
    loc: Value,
)
    requires
        loc_combined(a, b, vals, base, sign, l, perm, conds, r),
        !b.graph.full(),
        b.graph.models(m),
        val_ok(l, vals.len()),
        val_ok(perm, vals.len()),
        fp == seq![(operand(m.all(vals), l), Value::Real(1 as real))],
    ensures
        ({
            let p = amount(operand(m.all(vals), perm));
            held(m, r.list(), loc) == match sign {
                Sign::Add => held(m, base, loc) + p * gives(fp, loc),
                Sign::Sub => held(m, base, loc) - p * gives(fp, loc),
            }
        }),
{
    broadcast use group_grows;

    let (mid, one, lits) = choose|mid: Context, one: Heap, lits: Seq<(Id, Polarity)>|
        {
            &&& a.leads_to(mid)
            &&& crate::context::builds(a, mid)
            &&& #[trigger] single(mid.graph, vals, l, perm, one)
            &&& #[trigger] lits_for(mid.graph, vals, conds, lits)
            &&& values_new(a, mid, one.list())
            &&& combined(mid, b, sign, lits, base, one, r)
        };
    lemma_combined_leads(mid, b, sign, lits, base, one, r);
    lemma_grows_models(mid.graph, b.graph, m);
    lemma_single(mid.graph, m, vals, l, perm, one, fp, loc);
}

proof fn lemma_combined_leads(
    a: Context,
    b: Context,
    sign: Sign,
    lits: Seq<(Id, Polarity)>,
    base: Seq<(Id, Chunk)>,
    delta: Heap,
    r: Heap,
)
    requires
        combined(a, b, sign, lits, base, delta, r),
    ensures
        a.leads_to(b),
{
}

/// What a resource asks for is put in or taken out.
#[verifier::rlimit(40)]
#[verifier::spinoff_prover]
proof fn lemma_resource_step(
    a: Context,
    b: Context,
    env: Env,
    vals: Seq<Id>,
    base: Seq<(Id, Chunk)>,
    sign: Sign,
    call: ResourceCall,
    perm: Val,
    conds: Seq<(Val, Polarity)>,
    r: Heap,
    s: CombineSteps,
    m: Model,
    fp: Seq<(Value, Value)>,
    loc: Value,
)
    requires
        env.wf(),
        cert_of(env, call.resource, call.args@.len()) is Some,
        resource_combined(
            a,
            b,
            cert_of(env, call.resource, call.args@.len()).unwrap(),
            vals,
            base,
            sign,
            call,
            perm,
            conds,
            r,
            s,
        ),
        !b.graph.full(),
        b.graph.models(m),
        crate::rewrite::recipe::vals_ok(call.args@, vals.len()),
        val_ok(perm, vals.len()),
        asks(
            cert_of(env, call.resource, call.args@.len()).unwrap(),
            m,
            operands_of(m.all(vals), call.args@),
            fp,
        ),
    ensures
        ({
            let p = amount(operand(m.all(vals), perm));
            &&& held(m, s.scaled.list(), loc) == p * gives(fp, loc)
            &&& held(m, r.list(), loc) == match sign {
                Sign::Add => held(m, base, loc) + p * gives(fp, loc),
                Sign::Sub => held(m, base, loc) - p * gives(fp, loc),
            }
        }),
{
    broadcast use group_grows;

    let cert = cert_of(env, call.resource, call.args@.len()).unwrap();
    assert(cert.wf());
    lemma_combined_leads(s.ready, s.joined, sign, s.lits, base, s.scaled, r);
    lemma_leads_trans(s.ready, s.joined, b);
    lemma_leads_trans(s.called, s.ready, b);
    lemma_grows_models(s.joined.graph, b.graph, m);
    lemma_grows_models(s.ready.graph, b.graph, m);
    lemma_grows_models(s.called.graph, b.graph, m);
    lemma_at(s.ready.graph, m, vals, perm, s.scale);
    law_scaled(s.ready.graph, m, s.scale, s.delta.list(), s.scaled.list(), loc);
    lemma_called(a, s.called, vals, cert, call, s.delta, s.bool_id, m, fp, loc);
}

proof fn lemma_called(
    a: Context,
    b: Context,
    vals: Seq<Id>,
    cert: crate::method::graft::ResourceCertificate,
    call: ResourceCall,
    heap: Heap,
    id: Id,
    m: Model,
    fp: Seq<(Value, Value)>,
    loc: Value,
)
    requires
        cert.wf(),
        cert.params@.len() == call.args@.len(),
        called(a, b, vals, cert, call.args@, heap, id),
        !b.graph.full(),
        b.graph.models(m),
        crate::rewrite::recipe::vals_ok(call.args@, vals.len()),
        asks(cert, m, operands_of(m.all(vals), call.args@), fp),
    ensures
        held(m, heap.list(), loc) == gives(fp, loc),
{
    broadcast use group_grows;

    let (mid, ids) = choose|mid: Context, ids: Seq<Id>|
        {
            &&& a.leads_to(mid)
            &&& crate::context::builds(a, mid)
            &&& #[trigger] denote_all(mid.graph, ids, val_tms(t_classes(vals), call.args@))
            &&& #[trigger] learns_graft(cert, ids, mid, b)
            &&& graft_result(cert, ids, b.graph, heap, id)
        };
    let (map, es) = choose|map: Seq<Option<Id>>, es: Seq<(Id, Chunk)>|
        {
            &&& #[trigger] carried_over(cert, map, b.graph, cert.params@, ids)
            &&& #[trigger] delta_images(cert, map, b.graph, es, cert.delta@.len() as int)
            &&& crate::method::plain::entries_in(b.graph, es)
            &&& crate::method::plain::entries_in(b.graph, heap.list())
            &&& crate::method::merge::holds_joined(b.graph, heap@, Map::empty(), es)
            &&& crate::method::merge::adds_up(b.graph, heap.list(), Seq::empty(), es)
            &&& image_is(cert.graph, map, b.graph, cert.bool_id, id)
        };
    lemma_graft_leads(cert, ids, mid, b);
    lemma_grows_models(mid.graph, b.graph, m);
    lemma_args(mid.graph, m, vals, call.args@, ids);
    lemma_images_hold(cert, map, b.graph, ids, es, m, fp);
    lemma_gives(m, es, fp, loc);
    assert(held(m, heap.list(), loc) == held(m, Seq::empty(), loc) + held(m, es, loc));
}

proof fn lemma_graft_leads(
    cert: crate::method::graft::ResourceCertificate,
    ids: Seq<Id>,
    a: Context,
    b: Context,
)
    requires
        learns_graft(cert, ids, a, b),
    ensures
        a.leads_to(b),
{
}

/// Writing to a location leaves what every location holds.
proof fn lemma_assign_step(
    a: Context,
    g: Graph,
    vals: Seq<Id>,
    es: Seq<(Id, Chunk)>,
    l: Val,
    v: Val,
    lits: Seq<(Id, Polarity)>,
    r: Heap,
    m: Model,
    loc: Value,
)
    requires
        written(a, g, vals, es, l, v, lits, r),
        g.models(m),
        val_ok(l, vals.len()),
        val_ok(v, vals.len()),
    ensures
        held(m, r.list(), loc) == held(m, es, loc),
        exists|i: int|
            0 <= i < r.list().len() && m.at((#[trigger] r.list()[i]).0) == operand(m.all(vals), l)
                && m.at(r.list()[i].1.value) == operand(m.all(vals), v),
        cube_holds(m, lits) && nonnegative(m, es) ==> held(m, es, operand(m.all(vals), l))
            >= 1 as real,
{
    let (addr, c) = choose|addr: Id, c: Chunk|
        {
            &&& #[trigger] at_address(g, vals, l, addr)
            &&& #[trigger] at_address(g, vals, v, c.value)
            &&& crate::method::eval::reads_perm(g, es, addr, c.perm)
            &&& crate::prove::shown_tm(
                a,
                lits,
                crate::model::t_not(crate::model::t_ltr(Tm::Class(c.perm), t_real(1 as real))),
            )
            &&& r@ == crate::method::plain::chunk_map(es).insert(addr, c)
            &&& rewritten(g, es, addr, c, r.list())
            &&& !g.full() && forall|m: Model| #[trigger]
                g.models(m) && cube_holds(m, lits) ==> amount(m.at(c.perm)) >= 1 as real
        };
    lemma_at(g, m, vals, l, addr);
    lemma_at(g, m, vals, v, c.value);
    if r.list() == es.push((addr, c)) && g.denotes(c.perm, t_real(0 as real)) {
        lemma_tm_lit(m, Value::Real(0 as real));
        assert(r.list().drop_last() =~= es);
        assert(m.at(r.list()[es.len() as int].0) == operand(m.all(vals), l));
        assert(!cube_holds(m, lits));
    } else {
        let i = choose|i: int|
            0 <= i < es.len() && (#[trigger] es[i]).0 == addr && es[i].1.perm == c.perm && r.list()
                == es.update(i, (addr, c));
        lemma_held_update(m, es, i, (addr, c), loc);
        assert(m.at(r.list()[i].0) == operand(m.all(vals), l));
        if cube_holds(m, lits) && nonnegative(m, es) {
            lemma_share_held(m, es, i);
        }
    }
}

/// Where no permission is negative, a location holds as much as any entry of it.
pub proof fn lemma_share_held(m: Model, es: Seq<(Id, Chunk)>, i: int)
    requires
        nonnegative(m, es),
        0 <= i < es.len(),
    ensures
        amount(m.at(es[i].1.perm)) <= held(m, es, m.at(es[i].0)),
    decreases es.len(),
{
    let front = es.drop_last();
    assert forall|j: int| 0 <= j < front.len() implies amount(m.at((#[trigger] front[j]).1.perm))
        >= 0 as real by {
        assert(front[j] == es[j]);
    }
    assert(amount(m.at(es[es.len() - 1].1.perm)) >= 0 as real);
    if i < es.len() - 1 {
        lemma_share_held(m, front, i);
        assert(front[i] == es[i]);
    } else {
        lemma_nonnegative_held(m, front, m.at(es[i].0));
    }
}

/// Permission that is gained to a location comes with a value of which nothing was known:
/// on the path, the heap has an entry of the location whose value is that of a class that
/// was not there before.
#[verifier::rlimit(40)]
#[verifier::spinoff_prover]
pub proof fn law_gained_value(
    a: Context,
    b: Context,
    vals: Seq<Id>,
    base: Seq<(Id, Chunk)>,
    l: Val,
    perm: Val,
    conds: Seq<(Val, Polarity)>,
    r: Heap,
    m: Model,
)
    requires
        loc_combined(a, b, vals, base, Sign::Add, l, perm, conds, r),
        !b.graph.full(),
        b.next_fresh < u32::MAX,
        b.graph.models(m),
        val_ok(l, vals.len()),
        val_ok(perm, vals.len()),
        guards_ok(conds, vals.len()),
        on_path(m.all(vals), conds),
        nonnegative(m, base),
        amount(operand(m.all(vals), perm)) > 0 as real,
    ensures
        exists|k: Id, v: Id|
            #![trigger r@[k], a.graph.has(v)]
            r@.dom().contains(k) && m.at(k) == operand(m.all(vals), l) && !a.graph.has(v) && m.at(
                r@[k].value,
            ) == m.at(v),
{
    broadcast use group_grows;

    let (mid, one, lits) = choose|mid: Context, one: Heap, lits: Seq<(Id, Polarity)>|
        {
            &&& a.leads_to(mid)
            &&& crate::context::builds(a, mid)
            &&& #[trigger] single(mid.graph, vals, l, perm, one)
            &&& #[trigger] lits_for(mid.graph, vals, conds, lits)
            &&& values_new(a, mid, one.list())
            &&& combined(mid, b, Sign::Add, lits, base, one, r)
        };
    lemma_combined_leads(mid, b, Sign::Add, lits, base, one, r);
    lemma_grows_models(mid.graph, b.graph, m);
    lemma_lits_hold(mid.graph, m, vals, conds, lits);
    let (addr, c) = choose|addr: Id, c: Chunk|
        {
            &&& #[trigger] at_address(mid.graph, vals, l, addr)
            &&& #[trigger] at_address(mid.graph, vals, perm, c.perm)
            &&& mid.graph.has(c.value)
            &&& crate::method::eval::is_symbol(mid.graph, c.value)
            &&& one.list() == seq![(addr, c)]
        };
    lemma_at(mid.graph, m, vals, perm, c.perm);
    lemma_at(mid.graph, m, vals, l, addr);
    crate::graph::lemma_canon_value(mid.graph, m, addr);
    let es = one.list();
    assert(nonnegative(m, es));
    let ys = crate::method::merge::canonical_list(mid.graph, es);
    assert(crate::method::merge::covers_entries(m, r@, ys));
    let k = ys[0].0;
    assert(ys[0].1 == c);
    assert(r@.dom().contains(k));
    assert(!a.graph.has(es[0].1.value));
    assert(m.at(r@[k].value) == m.at(c.value));
}

/// What a heap instruction does to the permission to a location. Permission to a location
/// or a resource is put in or taken out as many times as it is asked for; folding takes
/// what the predicate asks for and gives its own address, unfolding the other way round;
/// and writing changes no permission.
#[verifier::rlimit(40)]
#[verifier::spinoff_prover]
pub proof fn law_heap_step(
    a: Context,
    b: Context,
    env: Env,
    vals: Seq<Id>,
    heaps: Seq<Heap>,
    hi: HeapInst,
    conds: Seq<(Val, Polarity)>,
    r: Heap,
    m: Model,
    fp: Seq<(Value, Value)>,
    loc: Value,
)
    requires
        heap_stepped(a, b, env, vals, heaps, hi, conds, r),
        env.wf(),
        heap_inst_ok(hi, vals.len(), heaps.len()),
        !b.graph.full(),
        b.graph.models(m),
        asked_by(env, m, m.all(vals), hi, fp),
    ensures
        ({
            let x = m.all(vals);
            match hi {
                HeapInst::Combine { base, sign: Sign::Add, perm, .. } => held(m, r.list(), loc)
                    == held(m, heap_list(heaps, base), loc) + amount(operand(x, perm)) * gives(
                    fp,
                    loc,
                ),
                HeapInst::Combine { base, sign: Sign::Sub, perm, .. } => held(m, r.list(), loc)
                    == held(m, heap_list(heaps, base), loc) - amount(operand(x, perm)) * gives(
                    fp,
                    loc,
                ),
                HeapInst::Fold { base, call, perm } => held(m, r.list(), loc) == held(
                    m,
                    heap_list(heaps, base),
                    loc,
                ) - amount(operand(x, perm)) * gives(fp, loc) + (if loc == own_address(
                    env,
                    m,
                    x,
                    call,
                ) {
                    amount(operand(x, perm))
                } else {
                    0 as real
                }),
                HeapInst::Unfold { base, call, perm } => held(m, r.list(), loc) == held(
                    m,
                    heap_list(heaps, base),
                    loc,
                ) - (if loc == own_address(env, m, x, call) {
                    amount(operand(x, perm))
                } else {
                    0 as real
                }) + amount(operand(x, perm)) * gives(fp, loc),
                HeapInst::Assign(base, w) => held(m, r.list(), loc) == held(
                    m,
                    heap_list(heaps, base),
                    loc,
                ) && exists|i: int|
                    0 <= i < r.list().len() && m.at((#[trigger] r.list()[i]).0) == operand(x, w.loc)
                        && m.at(r.list()[i].1.value) == operand(x, w.val),
            }
        }),
{
    match hi {
        HeapInst::Combine { base, sign, target: Target::Loc(l), perm } => {
            lemma_loc_step(a, b, vals, heap_list(heaps, base), sign, l, perm, conds, r, m, fp, loc);
        },
        HeapInst::Combine { base, sign, target: Target::Resource(call), perm } => {
            let s = choose|s: CombineSteps| #[trigger]
                resource_combined(
                    a,
                    b,
                    cert_of(env, call.resource, call.args@.len()).unwrap(),
                    vals,
                    heap_list(heaps, base),
                    sign,
                    call,
                    perm,
                    conds,
                    r,
                    s,
                );
            lemma_resource_step(
                a,
                b,
                env,
                vals,
                heap_list(heaps, base),
                sign,
                call,
                perm,
                conds,
                r,
                s,
                m,
                fp,
                loc,
            );
        },
        HeapInst::Fold { base, call, perm } => {
            let cert = cert_of(env, call.resource, call.args@.len()).unwrap();
            let meta = pred_of(env, call.resource).unwrap();
            let es = heap_list(heaps, base);
            let s = choose|s: FoldSteps| #[trigger]
                folded(a, b, env, cert, meta, vals, es, call, perm, conds, r, s);
            law_fold_amounts(a, b, env, cert, meta, vals, es, call, perm, conds, r, s, m, fp, loc);
        },
        HeapInst::Unfold { base, call, perm } => {
            let cert = cert_of(env, call.resource, call.args@.len()).unwrap();
            let meta = pred_of(env, call.resource).unwrap();
            let es = heap_list(heaps, base);
            let s = choose|s: UnfoldSteps| #[trigger]
                unfolded(a, b, env, cert, meta, vals, es, call, perm, conds, r, s);
            law_unfold_amounts(a, b, env, cert, meta, vals, es, call, perm, conds, r, s, m, fp, loc);
        },
        HeapInst::Assign(base, w) => {
            let es = heap_list(heaps, base);
            let lits = choose|lits: Seq<(Id, Polarity)>| #[trigger]
                lits_for(b.graph, vals, conds, lits) && written(
                    a,
                    b.graph,
                    vals,
                    es,
                    w.loc,
                    w.val,
                    lits,
                    r,
                );
            lemma_assign_step(a, b.graph, vals, es, w.loc, w.val, lits, r, m, loc);
        },
    }
}

/// A path that the slots take is taken by its literals.
pub proof fn lemma_lits_hold(
    g: Graph,
    m: Model,
    vals: Seq<Id>,
    conds: Seq<(Val, Polarity)>,
    lits: Seq<(Id, Polarity)>,
)
    requires
        !g.full(),
        g.models(m),
        guards_ok(conds, vals.len()),
        lits_for(g, vals, conds, lits),
        on_path(m.all(vals), conds),
    ensures
        cube_holds(m, lits),
{
    crate::meaning::slots::lemma_classes_hold(m, vals);
    assert forall|i: int| 0 <= i < lits.len() implies lit_holds(m, #[trigger] lits[i]) by {
        assert(operand(m.all(vals), conds[i].0) == Value::Bool(conds[i].1 == Polarity::Positive));
        assert(val_ok(conds[i].0, vals.len()));
        crate::meaning::values::lemma_operand(m, t_classes(vals), m.all(vals), conds[i].0);
    }
}

/// Whoever takes permission on a path, or writes, finds it there: where the base holds no
/// negative permission, it holds at every location what is taken from it, and a location
/// that is written is held in full.
#[verifier::rlimit(40)]
#[verifier::spinoff_prover]
pub proof fn law_heap_enough(
    a: Context,
    b: Context,
    env: Env,
    vals: Seq<Id>,
    heaps: Seq<Heap>,
    hi: HeapInst,
    conds: Seq<(Val, Polarity)>,
    r: Heap,
    m: Model,
    fp: Seq<(Value, Value)>,
    loc: Value,
)
    requires
        heap_stepped(a, b, env, vals, heaps, hi, conds, r),
        env.wf(),
        heap_inst_ok(hi, vals.len(), heaps.len()),
        guards_ok(conds, vals.len()),
        !b.graph.full(),
        b.graph.models(m),
        asked_by(env, m, m.all(vals), hi, fp),
        on_path(m.all(vals), conds),
    ensures
        ({
            let x = m.all(vals);
            match hi {
                HeapInst::Combine { base: HeapVal::Temp(n), sign: Sign::Sub, perm, .. } => {
                    nonnegative(m, heaps[n as int].list()) ==> amount(operand(x, perm)) * gives(
                        fp,
                        loc,
                    ) <= held(m, heaps[n as int].list(), loc)
                },
                HeapInst::Fold { base, call, perm } => nonnegative(m, heap_list(heaps, base))
                    ==> amount(operand(x, perm)) * gives(fp, loc) <= held(
                    m,
                    heap_list(heaps, base),
                    loc,
                ),
                HeapInst::Unfold { base, call, perm } => nonnegative(m, heap_list(heaps, base))
                    ==> amount(operand(x, perm)) <= held(
                    m,
                    heap_list(heaps, base),
                    own_address(env, m, x, call),
                ),
                HeapInst::Assign(base, w) => nonnegative(m, heap_list(heaps, base)) ==> held(
                    m,
                    heap_list(heaps, base),
                    operand(x, w.loc),
                ) >= 1 as real,
                _ => true,
            }
        }),
{
    broadcast use group_grows;

    match hi {
        HeapInst::Combine { base: HeapVal::Temp(n), sign: Sign::Sub, target: Target::Loc(l), perm } => {
            let es = heaps[n as int].list();
            if nonnegative(m, es) {
                lemma_loc_enough(a, b, vals, heaps[n as int], l, perm, conds, r, m, fp, loc);
            }
        },
        HeapInst::Combine {
            base: HeapVal::Temp(n),
            sign: Sign::Sub,
            target: Target::Resource(call),
            perm,
        } => {
            let es = heaps[n as int].list();
            let s = choose|s: CombineSteps| #[trigger]
                resource_combined(
                    a,
                    b,
                    cert_of(env, call.resource, call.args@.len()).unwrap(),
                    vals,
                    es,
                    Sign::Sub,
                    call,
                    perm,
                    conds,
                    r,
                    s,
                );
            lemma_resource_step(
                a,
                b,
                env,
                vals,
                es,
                Sign::Sub,
                call,
                perm,
                conds,
                r,
                s,
                m,
                fp,
                loc,
            );
            lemma_combined_leads(s.ready, s.joined, Sign::Sub, s.lits, es, s.scaled, r);
            lemma_leads_trans(s.ready, s.joined, b);
            lemma_grows_models(s.ready.graph, b.graph, m);
            lemma_grows_models(s.joined.graph, b.graph, m);
            lemma_lits_hold(s.ready.graph, m, vals, conds, s.lits);
            if nonnegative(m, es) {
                law_taken_held(
                    s.ready,
                    s.joined,
                    s.lits,
                    heaps[n as int],
                    s.scaled,
                    r,
                    m,
                    loc,
                );
            }
        },
        HeapInst::Fold { base, call, perm } => {
            let cert = cert_of(env, call.resource, call.args@.len()).unwrap();
            let meta = pred_of(env, call.resource).unwrap();
            let es = heap_list(heaps, base);
            let s = choose|s: FoldSteps| #[trigger]
                folded(a, b, env, cert, meta, vals, es, call, perm, conds, r, s);
            if nonnegative(m, es) {
                lemma_fold_enough(a, b, env, cert, meta, vals, es, call, perm, conds, r, s, m, fp, loc);
            }
        },
        HeapInst::Unfold { base, call, perm } => {
            let cert = cert_of(env, call.resource, call.args@.len()).unwrap();
            let meta = pred_of(env, call.resource).unwrap();
            let es = heap_list(heaps, base);
            let s = choose|s: UnfoldSteps| #[trigger]
                unfolded(a, b, env, cert, meta, vals, es, call, perm, conds, r, s);
            if nonnegative(m, es) {
                lemma_unfold_enough(a, b, env, cert, meta, vals, es, call, perm, conds, r, s, m);
            }
        },
        HeapInst::Assign(base, w) => {
            let es = heap_list(heaps, base);
            let lits = choose|lits: Seq<(Id, Polarity)>| #[trigger]
                lits_for(b.graph, vals, conds, lits) && written(
                    a,
                    b.graph,
                    vals,
                    es,
                    w.loc,
                    w.val,
                    lits,
                    r,
                );
            lemma_lits_hold(b.graph, m, vals, conds, lits);
            lemma_assign_step(a, b.graph, vals, es, w.loc, w.val, lits, r, m, loc);
        },
        _ => {},
    }
}

proof fn lemma_loc_enough(
    a: Context,
    b: Context,
    vals: Seq<Id>,
    base: Heap,
    l: Val,
    perm: Val,
    conds: Seq<(Val, Polarity)>,
    r: Heap,
    m: Model,
    fp: Seq<(Value, Value)>,
    loc: Value,
)
    requires
        loc_combined(a, b, vals, base.list(), Sign::Sub, l, perm, conds, r),
        !b.graph.full(),
        b.graph.models(m),
        val_ok(l, vals.len()),
        val_ok(perm, vals.len()),
        guards_ok(conds, vals.len()),
        fp == seq![(operand(m.all(vals), l), Value::Real(1 as real))],
        on_path(m.all(vals), conds),
        nonnegative(m, base.list()),
    ensures
        amount(operand(m.all(vals), perm)) * gives(fp, loc) <= held(m, base.list(), loc),
{
    broadcast use group_grows;

    let (mid, one, lits) = choose|mid: Context, one: Heap, lits: Seq<(Id, Polarity)>|
        {
            &&& a.leads_to(mid)
            &&& crate::context::builds(a, mid)
            &&& #[trigger] single(mid.graph, vals, l, perm, one)
            &&& #[trigger] lits_for(mid.graph, vals, conds, lits)
            &&& values_new(a, mid, one.list())
            &&& combined(mid, b, Sign::Sub, lits, base.list(), one, r)
        };
    lemma_combined_leads(mid, b, Sign::Sub, lits, base.list(), one, r);
    lemma_grows_models(mid.graph, b.graph, m);
    lemma_single(mid.graph, m, vals, l, perm, one, fp, loc);
    lemma_lits_hold(mid.graph, m, vals, conds, lits);
    law_taken_held(mid, b, lits, base, one, r, m, loc);
}

#[verifier::rlimit(40)]
#[verifier::spinoff_prover]
proof fn lemma_fold_enough(
    a: Context,
    b: Context,
    env: Env,
    cert: crate::method::graft::ResourceCertificate,
    meta: crate::program::PredMeta,
    vals: Seq<Id>,
    base: Seq<(Id, Chunk)>,
    call: ResourceCall,
    perm: Val,
    conds: Seq<(Val, Polarity)>,
    r: Heap,
    s: FoldSteps,
    m: Model,
    fp: Seq<(Value, Value)>,
    loc: Value,
)
    requires
        folded(a, b, env, cert, meta, vals, base, call, perm, conds, r, s),
        !b.graph.full(),
        b.graph.models(m),
        cert.wf(),
        call.args@.len() == cert.params@.len(),
        crate::rewrite::recipe::vals_ok(call.args@, vals.len()),
        val_ok(perm, vals.len()),
        guards_ok(conds, vals.len()),
        asks(cert, m, operands_of(m.all(vals), call.args@), fp),
        forall|i: int, j: int|
            0 <= i < j < fp.len() ==> (#[trigger] fp[i]).0 != (#[trigger] fp[j]).0,
        on_path(m.all(vals), conds),
        nonnegative(m, base),
    ensures
        amount(operand(m.all(vals), perm)) * gives(fp, loc) <= held(m, base, loc),
{
    broadcast use group_grows;

    law_fold_amounts(a, b, env, cert, meta, vals, base, call, perm, conds, r, s, m, fp, loc);
    crate::method::fold::law_folded(
        a,
        b,
        env,
        cert,
        meta,
        vals,
        base,
        call,
        perm,
        conds,
        r,
        s,
        m,
        loc,
    );
    lemma_leads_trans(s.stored, s.joined, b);
    lemma_leads_trans(s.proven, s.stored, b);
    lemma_leads_trans(s.told, s.proven, b);
    lemma_leads_trans(s.taken, s.told, b);
    lemma_leads_trans(s.read, s.taken, b);
    lemma_leads_trans(s.flat, s.read, b);
    lemma_leads_trans(s.asked, s.flat, b);
    lemma_leads_trans(s.ready, s.asked, b);
    lemma_grows_models(s.stored.graph, b.graph, m);
    lemma_grows_models(s.taken.graph, b.graph, m);
    lemma_grows_models(s.ready.graph, b.graph, m);
    lemma_lits_hold(s.ready.graph, m, vals, conds, s.lits);
    law_taken_held(s.read, s.taken, s.lits, s.base, s.need, s.less, m, loc);
    lemma_args(s.ready.graph, m, vals, call.args@, s.args);
    lemma_at(s.ready.graph, m, vals, perm, s.perm);
    crate::model::lemma_tms_classes(m, s.args);
    lemma_one_entry(m, s.pred.list(), loc);
}

#[verifier::rlimit(40)]
#[verifier::spinoff_prover]
proof fn lemma_unfold_enough(
    a: Context,
    b: Context,
    env: Env,
    cert: crate::method::graft::ResourceCertificate,
    meta: crate::program::PredMeta,
    vals: Seq<Id>,
    base: Seq<(Id, Chunk)>,
    call: ResourceCall,
    perm: Val,
    conds: Seq<(Val, Polarity)>,
    r: Heap,
    s: UnfoldSteps,
    m: Model,
)
    requires
        unfolded(a, b, env, cert, meta, vals, base, call, perm, conds, r, s),
        !b.graph.full(),
        b.graph.models(m),
        crate::rewrite::recipe::vals_ok(call.args@, vals.len()),
        val_ok(perm, vals.len()),
        guards_ok(conds, vals.len()),
        on_path(m.all(vals), conds),
        nonnegative(m, base),
    ensures
        amount(operand(m.all(vals), perm)) <= held(
            m,
            base,
            (m.func)(FuncId(meta.addr_fn), Seq::empty(), operands_of(m.all(vals), call.args@)),
        ),
{
    broadcast use group_grows;

    lemma_leads_trans(s.given, s.told, s.known);
    lemma_leads_trans(s.given, s.known, b);
    lemma_leads_trans(s.asked, s.given, b);
    lemma_leads_trans(s.taken, s.asked, b);
    lemma_leads_trans(s.flat, s.taken, b);
    lemma_leads_trans(s.named, s.flat, b);
    lemma_leads_trans(s.ready, s.named, b);
    lemma_grows_models(s.taken.graph, b.graph, m);
    lemma_grows_models(s.named.graph, b.graph, m);
    lemma_grows_models(s.ready.graph, b.graph, m);
    lemma_lits_hold(s.ready.graph, m, vals, conds, s.lits);
    lemma_args(s.ready.graph, m, vals, call.args@, s.args);
    lemma_at(s.ready.graph, m, vals, perm, s.perm);
    crate::model::lemma_tms_classes(m, s.args);
    lemma_one_entry(m, s.pred.list(), m.at(s.addr));
    law_taken_held(s.flat, s.taken, s.lits, s.base, s.pred, s.less, m, m.at(s.addr));
}

} // verus!
