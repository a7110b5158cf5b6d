//! What heaps hold after an instruction.

use crate::context::{lemma_leads_trans, Context};
use crate::graph::Graph;
use crate::lang::{FuncId, Id, OpV};
use crate::meaning::slots::lemma_classes_hold;
use crate::meaning::values::{lemma_operand, operand, operands_of};
use crate::method::eval::at_address;
use crate::method::fold::{
    folded, law_folded, law_unfolded, put_step, ret_type, slots_folded, slots_put, unfolded, unwrap_tm, FoldSteps,
    PutTrail, UnfoldSteps,
};
use crate::method::graft::{
    all_mapped, carried_over, class_carried, delta_images, image_of, image_term, images, unmappable,
    ResourceCertificate,
};
use crate::context::cube_holds;
use crate::method::heapinst::taken_out;
use crate::method::merge::{
    amount, canonical_list, gathered, has_addr, held, nonnegative, share,
};
use crate::method::subtract::{subtracted, subtracted_at};
use crate::method::plain::{addrs_differ, lemma_chunk_map, Chunk, Heap};
use crate::model::{apply, lemma_tm_bin, lemma_tms_classes, t_classes, t_node, tm_value, tms_value, Model, Tm};
use crate::program::{PredMeta, ResourceCall};
use crate::method::resource::Env;
use crate::rewrite::recipe::{val_ok, val_tms, vals_ok};
use crate::terms::{denote_all, group_grows, lemma_grows_models};
use crate::vmir::{BinOp, MemberId, Polarity, TypeV, Val, Value};
use vstd::prelude::*;

verus! {

/// A term of a class, and a value for each of its children.
pub open spec fn listed(g: Graph, class: Id, k: int, vs: Seq<Value>) -> bool {
    &&& 0 <= k < g.terms(class).len()
    &&& vs.len() == g.terms(class)[k].args.len()
    &&& !(g.terms(class)[k].op is Fresh)
}

/// The graph of a resource fixes the value of a class, given those of its parameters: it
/// is a parameter, or has a term that computes the value of values that are fixed.
pub open spec fn settles(
    g: Graph,
    m: Model,
    params: Seq<Id>,
    xs: Seq<Value>,
    class: Id,
    v: Value,
    depth: nat,
) -> bool
    decreases depth,
{
    ||| exists|j: int|
        0 <= j < params.len() && g.canon(#[trigger] params[j]) == g.canon(class) && v == xs[j]
    ||| depth > 0 && exists|k: int, vs: Seq<Value>|
        {
            &&& #[trigger] listed(g, class, k, vs)
            &&& apply(m, g.terms(class)[k].op, vs) == Some(v)
            &&& forall|i: int|
                0 <= i < vs.len() ==> settles(
                    g,
                    m,
                    params,
                    xs,
                    g.terms(class)[k].args[i],
                    #[trigger] vs[i],
                    (depth - 1) as nat,
                )
        }
}

/// What a resource asks for of the values of its parameters: addresses, each with a
/// permission.
pub open spec fn asks(
    cert: ResourceCertificate,
    m: Model,
    xs: Seq<Value>,
    fp: Seq<(Value, Value)>,
) -> bool {
    &&& fp.len() == cert.delta@.len()
    &&& forall|i: int|
        0 <= i < fp.len() ==> exists|d: nat, e: nat|
            #[trigger] settles(cert.graph, m, cert.params@, xs, cert.delta@[i].0, (
            #[trigger] fp[i]).0, d) && #[trigger] settles(
                cert.graph,
                m,
                cert.params@,
                xs,
                cert.delta@[i].1,
                fp[i].1,
                e,
            )
}

/// The permission that a footprint gives to a location.
pub open spec fn gives(fp: Seq<(Value, Value)>, loc: Value) -> real
    decreases fp.len(),
{
    if fp.len() == 0 {
        0 as real
    } else {
        gives(fp.drop_last(), loc) + if fp.last().0 == loc {
            amount(fp.last().1)
        } else {
            0 as real
        }
    }
}

/// A class whose value is fixed has an image of that value.
pub proof fn lemma_settled(
    cert: ResourceCertificate,
    map: Seq<Option<Id>>,
    h: Graph,
    to: Seq<Id>,
    m: Model,
    class: Id,
    v: Value,
    depth: nat,
)
    requires
        cert.graph.wf(),
        carried_over(cert, map, h, cert.params@, to),
        cert.params@.len() == to.len(),
        !h.full(),
        h.models(m),
        cert.graph.has(class),
        settles(cert.graph, m, cert.params@, m.all(to), class, v, depth),
    ensures
        image_of(cert.graph, map, class) matches Some(x) && m.at(x) == v,
    decreases depth,
{
    let g = cert.graph;
    let params = cert.params@;
    let xs = m.all(to);
    if exists|j: int|
        0 <= j < params.len() && g.canon(#[trigger] params[j]) == g.canon(class) && v == xs[j] {
        let j = choose|j: int|
            0 <= j < params.len() && g.canon(#[trigger] params[j]) == g.canon(class) && v == xs[j];
        assert(image_of(g, map, params[j]) == image_of(g, map, class));
    } else {
        let (k, vs) = choose|k: int, vs: Seq<Value>|
            {
                &&& #[trigger] listed(g, class, k, vs)
                &&& apply(m, g.terms(class)[k].op, vs) == Some(v)
                &&& forall|i: int|
                    0 <= i < vs.len() ==> settles(
                        g,
                        m,
                        params,
                        xs,
                        g.terms(class)[k].args[i],
                        #[trigger] vs[i],
                        (depth - 1) as nat,
                    )
            };
        let n = g.terms(class)[k];
        crate::graph::lemma_terms_in(g, class, k);
        assert forall|i: int| 0 <= i < n.args.len() implies (image_of(
            g,
            map,
            #[trigger] n.args[i],
        ) matches Some(x) && m.at(x) == vs[i]) by {
            assert(settles(g, m, params, xs, n.args[i], vs[i], (depth - 1) as nat));
            lemma_settled(cert, map, h, to, m, n.args[i], vs[i], (depth - 1) as nat);
        }
        assert(all_mapped(g, map, n.args));
        if image_of(g, map, class) is None {
            assert(unmappable(g, map, class, g.terms(class).len() as int));
            assert(false);
        }
        assert(class_carried(g, map, h, class));
        let x = image_of(g, map, class).unwrap();
        let ids = images(g, map, n.args);
        assert(h.denotes(x, t_node(image_term(g, map, g.terms(class)[k]))));
        lemma_tms_classes(m, ids);
        assert(m.all(ids) =~= vs);
    }
}

/// Entries that hold, of the same addresses, a multiple of what others hold.
proof fn lemma_multiple(
    m: Model,
    es: Seq<(Id, Chunk)>,
    r: Seq<(Id, Chunk)>,
    k: real,
    loc: Value,
)
    requires
        r.len() == es.len(),
        forall|i: int|
            0 <= i < r.len() ==> m.at((#[trigger] r[i]).0) == m.at(es[i].0) && amount(
                m.at(r[i].1.perm),
            ) == k * amount(m.at(es[i].1.perm)),
    ensures
        held(m, r, loc) == k * held(m, es, loc),
    decreases es.len(),
{
    if es.len() > 0 {
        let ef = es.drop_last();
        let rf = r.drop_last();
        assert forall|i: int| 0 <= i < rf.len() implies m.at((#[trigger] rf[i]).0) == m.at(ef[i].0)
            && amount(m.at(rf[i].1.perm)) == k * amount(m.at(ef[i].1.perm)) by {
            assert(rf[i] == r[i]);
        }
        lemma_multiple(m, ef, rf, k, loc);
        let n = es.len() - 1;
        assert(m.at(r[n].0) == m.at(es[n].0));
        let a = held(m, ef, loc);
        let b = share(m, es[n], loc);
        assert(share(m, r[n], loc) == k * b) by {
            if m.at(es[n].0) != loc {
                assert(k * (0 as real) == 0 as real) by (nonlinear_arith);
            }
        }
        assert(k * a + k * b == k * (a + b)) by (nonlinear_arith);
    } else {
        assert(k * (0 as real) == 0 as real) by (nonlinear_arith);
    }
}

/// Entries that hold what a footprint gives.
pub proof fn lemma_gives(m: Model, es: Seq<(Id, Chunk)>, fp: Seq<(Value, Value)>, loc: Value)
    requires
        es.len() == fp.len(),
        forall|i: int|
            0 <= i < es.len() ==> m.at((#[trigger] es[i]).0) == fp[i].0 && m.at(es[i].1.perm)
                == fp[i].1,
    ensures
        held(m, es, loc) == gives(fp, loc),
    decreases es.len(),
{
    if es.len() > 0 {
        let ef = es.drop_last();
        assert forall|i: int| 0 <= i < ef.len() implies m.at((#[trigger] ef[i]).0)
            == fp.drop_last()[i].0 && m.at(ef[i].1.perm) == fp.drop_last()[i].1 by {
            assert(ef[i] == es[i]);
        }
        lemma_gives(m, ef, fp.drop_last(), loc);
        assert(m.at(es[es.len() - 1].0) == fp[es.len() - 1].0);
    }
}

/// The images of what a resource asks for hold what it asks for of the arguments.
pub proof fn lemma_images_hold(
    cert: ResourceCertificate,
    map: Seq<Option<Id>>,
    h: Graph,
    args: Seq<Id>,
    es: Seq<(Id, Chunk)>,
    m: Model,
    fp: Seq<(Value, Value)>,
)
    requires
        cert.wf(),
        carried_over(cert, map, h, cert.params@, args),
        delta_images(cert, map, h, es, cert.delta@.len() as int),
        args.len() == cert.params@.len(),
        !h.full(),
        h.models(m),
        asks(cert, m, m.all(args), fp),
    ensures
        es.len() == fp.len(),
        forall|i: int|
            0 <= i < es.len() ==> m.at((#[trigger] es[i]).0) == fp[i].0 && m.at(es[i].1.perm)
                == fp[i].1,
{
    assert forall|i: int| 0 <= i < es.len() implies m.at((#[trigger] es[i]).0) == fp[i].0 && m.at(
        es[i].1.perm,
    ) == fp[i].1 by {
        let v = fp[i];
        let (d, e) = choose|d: nat, e: nat|
            #[trigger] settles(cert.graph, m, cert.params@, m.all(args), cert.delta@[i].0, fp[i].0, d)
                && #[trigger] settles(
                cert.graph,
                m,
                cert.params@,
                m.all(args),
                cert.delta@[i].1,
                fp[i].1,
                e,
            );
        lemma_settled(cert, map, h, args, m, cert.delta@[i].0, fp[i].0, d);
        lemma_settled(cert, map, h, args, m, cert.delta@[i].1, fp[i].1, e);
    }
}

/// Arguments have the values of their operands.
pub proof fn lemma_args(g: Graph, m: Model, vals: Seq<Id>, args: Seq<Val>, ids: Seq<Id>)
    requires
        !g.full(),
        g.models(m),
        vals_ok(args, vals.len()),
        denote_all(g, ids, val_tms(t_classes(vals), args)),
    ensures
        m.all(ids) == operands_of(m.all(vals), args),
{
    let ts = t_classes(vals);
    lemma_classes_hold(m, vals);
    assert forall|i: int| 0 <= i < ids.len() implies m.at(#[trigger] ids[i]) == operand(
        m.all(vals),
        args[i],
    ) by {
        assert(val_ok(args[i], vals.len()));
        assert(g.denotes(ids[i], val_tms(ts, args)[i]));
        lemma_operand(m, ts, m.all(vals), args[i]);
    }
    assert(m.all(ids) =~= operands_of(m.all(vals), args));
}

/// A class at an operand has its value.
pub proof fn lemma_at(g: Graph, m: Model, vals: Seq<Id>, v: Val, id: Id)
    requires
        !g.full(),
        g.models(m),
        val_ok(v, vals.len()),
        at_address(g, vals, v, id),
    ensures
        m.at(id) == operand(m.all(vals), v),
{
    lemma_classes_hold(m, vals);
    lemma_operand(m, t_classes(vals), m.all(vals), v);
}

proof fn lemma_trail_leads(
    t: PutTrail,
    env: Env,
    lits: Seq<(Id, Polarity)>,
    perm: Id,
    projs: Seq<MemberId>,
    snap: Id,
    fp: Seq<(Id, Chunk)>,
    put: Seq<(Id, Chunk)>,
    i: int,
    n: int,
)
    requires
        0 <= i < n <= put.len(),
        forall|k: int|
            0 <= k < put.len() ==> #[trigger] put_step(t, env, lits, perm, projs, snap, fp, put, k),
    ensures
        t.before[i].leads_to(t.after[n]),
    decreases n - i,
{
    if n == i + 1 {
        assert(put_step(t, env, lits, perm, projs, snap, fp, put, i));
    } else {
        lemma_trail_leads(t, env, lits, perm, projs, snap, fp, put, i, n - 1);
        assert(put_step(t, env, lits, perm, projs, snap, fp, put, n - 1));
        lemma_leads_trans(t.after[n - 1], t.before[n - 1], t.after[n]);
        lemma_leads_trans(t.before[i], t.after[n - 1], t.after[n]);
    }
}

/// The slots that were put are those of the footprint, each scaled by the permission.
proof fn lemma_put_scaled(
    a: Context,
    b: Context,
    env: Env,
    lits: Seq<(Id, Polarity)>,
    perm: Id,
    projs: Seq<MemberId>,
    snap: Id,
    fp: Seq<(Id, Chunk)>,
    base: Heap,
    put: Seq<(Id, Chunk)>,
    r: Heap,
    t: PutTrail,
    m: Model,
)
    requires
        slots_put(a, b, env, lits, perm, projs, snap, fp, base, put, r, t),
        !b.graph.full(),
        b.graph.models(m),
    ensures
        forall|i: int|
            0 <= i < put.len() ==> m.at((#[trigger] put[i]).0) == m.at(fp[i].0) && amount(
                m.at(put[i].1.perm),
            ) == amount(m.at(perm)) * amount(m.at(fp[i].1.perm)),
{
    broadcast use group_grows;

    assert forall|i: int| 0 <= i < put.len() implies m.at((#[trigger] put[i]).0) == m.at(fp[i].0)
        && amount(m.at(put[i].1.perm)) == amount(m.at(perm)) * amount(m.at(fp[i].1.perm)) by {
        assert(put_step(t, env, lits, perm, projs, snap, fp, put, i));
        lemma_trail_leads(t, env, lits, perm, projs, snap, fp, put, i, put.len() as int);
        let g = t.before[i].graph;
        lemma_grows_models(g, b.graph, m);
        lemma_tm_bin(m, BinOp::MulR, Tm::Class(perm), Tm::Class(fp[i].1.perm));
    }
}

/// Unfolding a predicate at a permission takes the permission from the predicate's own
/// address, and gives as many times what the predicate asks for of the arguments.
#[verifier::rlimit(40)]
#[verifier::spinoff_prover]
pub proof fn law_unfold_amounts(
    a: Context,
    b: Context,
    env: Env,
    cert: ResourceCertificate,
    meta: PredMeta,
    vals: Seq<Id>,
    base: Seq<(Id, Chunk)>,
    call: ResourceCall,
    perm: Val,
    conds: Seq<(Val, Polarity)>,
    r: Heap,
    s: UnfoldSteps,
    m: Model,
    fp: Seq<(Value, Value)>,
    loc: Value,
)
    requires
        unfolded(a, b, env, cert, meta, vals, base, call, perm, conds, r, s),
        !b.graph.full(),
        b.graph.models(m),
        cert.wf(),
        call.args@.len() == cert.params@.len(),
        vals_ok(call.args@, vals.len()),
        val_ok(perm, vals.len()),
        asks(cert, m, operands_of(m.all(vals), call.args@), fp),
    ensures
        ({
            let p = amount(operand(m.all(vals), perm));
            let own = (m.func)(
                FuncId(meta.addr_fn),
                Seq::empty(),
                operands_of(m.all(vals), call.args@),
            );
            held(m, r.list(), loc) == held(m, base, loc) - (if loc == own {
                p
            } else {
                0 as real
            }) + p * gives(fp, loc)
        }),
{
    broadcast use group_grows;

    law_unfolded(a, b, env, cert, meta, vals, base, call, perm, conds, r, s, m, loc);
    lemma_leads_trans(s.given, s.told, s.known);
    lemma_leads_trans(s.given, s.known, b);
    lemma_leads_trans(s.asked, s.given, b);
    lemma_leads_trans(s.taken, s.asked, b);
    lemma_leads_trans(s.flat, s.taken, b);
    lemma_leads_trans(s.named, s.flat, b);
    lemma_leads_trans(s.ready, s.named, b);
    lemma_grows_models(s.given.graph, b.graph, m);
    lemma_grows_models(s.asked.graph, b.graph, m);
    lemma_grows_models(s.named.graph, b.graph, m);
    lemma_grows_models(s.ready.graph, b.graph, m);
    lemma_args(s.ready.graph, m, vals, call.args@, s.args);
    lemma_at(s.ready.graph, m, vals, perm, s.perm);
    lemma_tms_classes(m, s.args);
    let snap = s.canon@[s.flat.graph.canon(s.addr)].value;
    let map = choose|map: Seq<Option<Id>>| #[trigger]
        carried_over(cert, map, s.asked.graph, cert.params@, s.args) && delta_images(
            cert,
            map,
            s.asked.graph,
            s.fp,
            cert.delta@.len() as int,
        );
    lemma_images_hold(cert, map, s.asked.graph, s.args, s.fp, m, fp);
    lemma_put_scaled(
        s.asked,
        s.given,
        env,
        s.lits,
        s.perm,
        meta.snap_projs@,
        snap,
        s.fp,
        s.less,
        s.gives,
        r,
        s.trail,
        m,
    );
    lemma_multiple(m, s.fp, s.gives, amount(m.at(s.perm)), loc);
    lemma_gives(m, s.fp, fp, loc);
    let one = s.pred.list();
    assert(one.drop_last() =~= Seq::empty());
    assert(held(m, one.drop_last(), loc) == 0 as real);
    assert(held(m, one, loc) == share(m, one[0], loc));
}

/// Folding a predicate at a permission takes as many times what the predicate asks for of
/// the arguments, and gives the permission to the predicate's own address. The addresses
/// that the predicate asks for differ.
#[verifier::rlimit(40)]
#[verifier::spinoff_prover]
pub proof fn law_fold_amounts(
    a: Context,
    b: Context,
    env: Env,
    cert: ResourceCertificate,
    meta: PredMeta,
    vals: Seq<Id>,
    base: Seq<(Id, Chunk)>,
    call: ResourceCall,
    perm: Val,
    conds: Seq<(Val, Polarity)>,
    r: Heap,
    s: FoldSteps,
    m: Model,
    fp: Seq<(Value, Value)>,
    loc: Value,
)
    requires
        folded(a, b, env, cert, meta, vals, base, call, perm, conds, r, s),
        !b.graph.full(),
        b.graph.models(m),
        cert.wf(),
        call.args@.len() == cert.params@.len(),
        vals_ok(call.args@, vals.len()),
        val_ok(perm, vals.len()),
        asks(cert, m, operands_of(m.all(vals), call.args@), fp),
        forall|i: int, j: int|
            0 <= i < j < fp.len() ==> (#[trigger] fp[i]).0 != (#[trigger] fp[j]).0,
    ensures
        ({
            let p = amount(operand(m.all(vals), perm));
            let own = (m.func)(
                FuncId(meta.addr_fn),
                Seq::empty(),
                operands_of(m.all(vals), call.args@),
            );
            held(m, r.list(), loc) == held(m, base, loc) - p * gives(fp, loc) + (if loc == own {
                p
            } else {
                0 as real
            })
        }),
{
    broadcast use group_grows;

    law_folded(a, b, env, cert, meta, vals, base, call, perm, conds, r, s, m, loc);
    lemma_leads_trans(s.stored, s.joined, b);
    lemma_leads_trans(s.proven, s.stored, b);
    lemma_leads_trans(s.told, s.proven, b);
    lemma_leads_trans(s.taken, s.told, b);
    lemma_leads_trans(s.read, s.taken, b);
    lemma_leads_trans(s.flat, s.read, b);
    lemma_leads_trans(s.asked, s.flat, b);
    lemma_leads_trans(s.ready, s.asked, b);
    lemma_grows_models(s.stored.graph, b.graph, m);
    lemma_grows_models(s.read.graph, b.graph, m);
    lemma_grows_models(s.asked.graph, b.graph, m);
    lemma_grows_models(s.ready.graph, b.graph, m);
    lemma_args(s.ready.graph, m, vals, call.args@, s.args);
    lemma_at(s.ready.graph, m, vals, perm, s.perm);
    lemma_tms_classes(m, s.args);
    let map = choose|map: Seq<Option<Id>>| #[trigger]
        carried_over(cert, map, s.asked.graph, cert.params@, s.args) && delta_images(
            cert,
            map,
            s.asked.graph,
            s.fp,
            cert.delta@.len() as int,
        );
    lemma_images_hold(cert, map, s.asked.graph, s.args, s.fp, m, fp);
    assert forall|i: int| 0 <= i < s.needs.len() implies m.at((#[trigger] s.needs[i]).0) == m.at(
        s.fp[i].0,
    ) && amount(m.at(s.needs[i].1.perm)) == amount(m.at(s.perm)) * amount(
        m.at(s.fp[i].1.perm),
    ) by {
        lemma_need_scaled(s, env, meta, i, m);
    }
    assert(addrs_differ(s.needs)) by {
        assert forall|i: int, j: int| 0 <= i < j < s.needs.len() implies (#[trigger] s.needs[i]).0
            != (#[trigger] s.needs[j]).0 by {
            assert(m.at(s.fp[i].0) == fp[i].0 && m.at(s.fp[j].0) == fp[j].0);
        }
    }
    lemma_multiple(m, s.fp, s.needs, amount(m.at(s.perm)), loc);
    lemma_gives(m, s.fp, fp, loc);
    let one = s.pred.list();
    assert(one.drop_last() =~= Seq::empty());
    assert(held(m, one.drop_last(), loc) == 0 as real);
    assert(held(m, one, loc) == share(m, one[0], loc));
}

proof fn lemma_need_scaled(s: FoldSteps, env: Env, meta: PredMeta, i: int, m: Model)
    requires
        slots_folded(
            s.read.graph,
            env,
            s.flat.graph,
            s.canon@,
            s.perm,
            meta.snap_projs@,
            s.fp,
            s.needs,
            s.members,
            s.fp.len() as int,
        ),
        !s.read.graph.full(),
        s.read.graph.models(m),
        0 <= i < s.needs.len(),
    ensures
        s.needs[i].0 == s.fp[i].0,
        amount(m.at(s.needs[i].1.perm)) == amount(m.at(s.perm)) * amount(m.at(s.fp[i].1.perm)),
{
    let need = s.needs[i];
    lemma_tm_bin(m, BinOp::MulR, Tm::Class(s.perm), Tm::Class(s.fp[i].1.perm));
}

/// What is gathered at one address is no more than what its location holds.
proof fn lemma_gathered_held(m: Model, es: Seq<(Id, Chunk)>, k: Id)
    requires
        nonnegative(m, es),
    ensures
        gathered(m, es, k) matches Some(c) ==> 0 as real <= amount(c.0) <= held(m, es, m.at(k)),
        0 as real <= held(m, es, m.at(k)),
    decreases es.len(),
{
    if es.len() > 0 {
        let front = es.drop_last();
        assert forall|i: int| 0 <= i < front.len() implies amount(m.at((#[trigger] front[i]).1.perm))
            >= 0 as real by {
            assert(front[i] == es[i]);
        }
        lemma_gathered_held(m, front, k);
        assert(amount(m.at(es[es.len() - 1].1.perm)) >= 0 as real);
    }
}

pub proof fn lemma_nonnegative_held(m: Model, es: Seq<(Id, Chunk)>, loc: Value)
    requires
        nonnegative(m, es),
    ensures
        0 as real <= held(m, es, loc),
    decreases es.len(),
{
    if es.len() > 0 {
        let front = es.drop_last();
        assert forall|i: int| 0 <= i < front.len() implies amount(m.at((#[trigger] front[i]).1.perm))
            >= 0 as real by {
            assert(front[i] == es[i]);
        }
        lemma_nonnegative_held(m, front, loc);
        assert(amount(m.at(es[es.len() - 1].1.perm)) >= 0 as real);
    }
}

/// What is taken out of a heap on a path is there: no permission that is left is negative,
/// so that no location gives more than it holds.
pub proof fn law_taken_held(
    a: Context,
    b: Context,
    lits: Seq<(Id, Polarity)>,
    base: Heap,
    less: Heap,
    r: Heap,
    m: Model,
    loc: Value,
)
    requires
        taken_out(a, b, lits, base.list(), less, r),
        !b.graph.full(),
        b.graph.models(m),
        cube_holds(m, lits),
        nonnegative(m, base.list()),
    ensures
        nonnegative(m, r.list()),
        held(m, less.list(), loc) <= held(m, base.list(), loc),
{
    let x = canonical_list(a.graph, base.list());
    let y = canonical_list(a.graph, less.list());
    let es = r.list();
    assert(subtracted(a.graph, b.graph, lits, base, less, r));
    assert(nonnegative(m, x)) by {
        assert forall|i: int| 0 <= i < x.len() implies amount(m.at((#[trigger] x[i]).1.perm))
            >= 0 as real by {
            assert(amount(m.at(base.list()[i].1.perm)) >= 0 as real);
        }
    }
    lemma_chunk_map(es);
    assert forall|i: int| 0 <= i < es.len() implies amount(m.at((#[trigger] es[i]).1.perm))
        >= 0 as real by {
        let c = es[i].0;
        assert(r@.dom().contains(c) && r@[c] == es[i].1);
        assert(has_addr(x, c));
        assert(subtracted_at(m, lits, x, y, r@, c));
        lemma_gathered_held(m, x, c);
    }
    lemma_nonnegative_held(m, es, loc);
    assert(held(m, es, loc) == held(m, base.list(), loc) - held(m, less.list(), loc));
}

/// What was folded at a permission and is then unfolded at it with the same arguments
/// leaves the permission to every location as it was.
pub proof fn law_fold_unfold(
    a: Context,
    b: Context,
    c: Context,
    d: Context,
    env: Env,
    cert: ResourceCertificate,
    meta: PredMeta,
    vals: Seq<Id>,
    later: Seq<Id>,
    base: Seq<(Id, Chunk)>,
    call: ResourceCall,
    again: ResourceCall,
    perm: Val,
    back: Val,
    conds: Seq<(Val, Polarity)>,
    path: Seq<(Val, Polarity)>,
    h: Heap,
    r: Heap,
    s: FoldSteps,
    t: UnfoldSteps,
    m: Model,
    fp: Seq<(Value, Value)>,
    loc: Value,
)
    requires
        folded(a, b, env, cert, meta, vals, base, call, perm, conds, h, s),
        b.leads_to(c),
        unfolded(c, d, env, cert, meta, later, h.list(), again, back, path, r, t),
        c.leads_to(d),
        !d.graph.full(),
        d.graph.models(m),
        cert.wf(),
        call.args@.len() == cert.params@.len(),
        again.args@.len() == cert.params@.len(),
        vals_ok(call.args@, vals.len()),
        vals_ok(again.args@, later.len()),
        val_ok(perm, vals.len()),
        val_ok(back, later.len()),
        operands_of(m.all(vals), call.args@) == operands_of(m.all(later), again.args@),
        operand(m.all(vals), perm) == operand(m.all(later), back),
        asks(cert, m, operands_of(m.all(vals), call.args@), fp),
        forall|i: int, j: int|
            0 <= i < j < fp.len() ==> (#[trigger] fp[i]).0 != (#[trigger] fp[j]).0,
    ensures
        held(m, r.list(), loc) == held(m, base, loc),
{
    broadcast use group_grows;

    lemma_leads_trans(b, c, d);
    lemma_grows_models(b.graph, d.graph, m);
    law_fold_amounts(a, b, env, cert, meta, vals, base, call, perm, conds, h, s, m, fp, loc);
    law_unfold_amounts(
        c,
        d,
        env,
        cert,
        meta,
        later,
        h.list(),
        again,
        back,
        path,
        r,
        t,
        m,
        fp,
        loc,
    );
}

/// Unfolding at a permission gives as many times what unfolding at one gives, at every
/// location but the predicate's own.
pub proof fn law_unfold_scales(
    a: Context,
    b: Context,
    c: Context,
    d: Context,
    env: Env,
    cert: ResourceCertificate,
    meta: PredMeta,
    vals: Seq<Id>,
    others: Seq<Id>,
    base: Seq<(Id, Chunk)>,
    whole: Seq<(Id, Chunk)>,
    call: ResourceCall,
    full: ResourceCall,
    perm: Val,
    one: Val,
    conds: Seq<(Val, Polarity)>,
    path: Seq<(Val, Polarity)>,
    r: Heap,
    h: Heap,
    s: UnfoldSteps,
    t: UnfoldSteps,
    m: Model,
    fp: Seq<(Value, Value)>,
    loc: Value,
)
    requires
        unfolded(a, b, env, cert, meta, vals, base, call, perm, conds, r, s),
        unfolded(c, d, env, cert, meta, others, whole, full, one, path, h, t),
        !b.graph.full(),
        b.graph.models(m),
        !d.graph.full(),
        d.graph.models(m),
        cert.wf(),
        call.args@.len() == cert.params@.len(),
        full.args@.len() == cert.params@.len(),
        vals_ok(call.args@, vals.len()),
        vals_ok(full.args@, others.len()),
        val_ok(perm, vals.len()),
        val_ok(one, others.len()),
        operands_of(m.all(vals), call.args@) == operands_of(m.all(others), full.args@),
        operand(m.all(others), one) == Value::Real(1 as real),
        asks(cert, m, operands_of(m.all(vals), call.args@), fp),
        loc != (m.func)(
            FuncId(meta.addr_fn),
            Seq::empty(),
            operands_of(m.all(vals), call.args@),
        ),
    ensures
        held(m, r.list(), loc) - held(m, base, loc) == amount(operand(m.all(vals), perm)) * (held(
            m,
            h.list(),
            loc,
        ) - held(m, whole, loc)),
{
    law_unfold_amounts(a, b, env, cert, meta, vals, base, call, perm, conds, r, s, m, fp, loc);
    law_unfold_amounts(c, d, env, cert, meta, others, whole, full, one, path, h, t, m, fp, loc);
    let k = gives(fp, loc);
    assert((1 as real) * k == k) by (nonlinear_arith);
    assert(held(m, h.list(), loc) - held(m, whole, loc) == k);
}

/// What a slot of a predicate holds goes into its snapshot when it is folded, and comes out
/// of the same snapshot when it is unfolded: where the functions of the snapshot and of the
/// option type read what was put in, a slot that is held has its value back.
#[verifier::rlimit(40)]
#[verifier::spinoff_prover]
pub proof fn law_fold_unfold_values(
    a: Context,
    b: Context,
    c: Context,
    d: Context,
    env: Env,
    cert: ResourceCertificate,
    meta: PredMeta,
    vals: Seq<Id>,
    later: Seq<Id>,
    base: Seq<(Id, Chunk)>,
    from: Seq<(Id, Chunk)>,
    call: ResourceCall,
    again: ResourceCall,
    perm: Val,
    back: Val,
    conds: Seq<(Val, Polarity)>,
    path: Seq<(Val, Polarity)>,
    h: Heap,
    r: Heap,
    s: FoldSteps,
    t: UnfoldSteps,
    m: Model,
    i: int,
)
    requires
        folded(a, b, env, cert, meta, vals, base, call, perm, conds, h, s),
        b.leads_to(c),
        unfolded(c, d, env, cert, meta, later, from, again, back, path, r, t),
        c.leads_to(d),
        !d.graph.full(),
        d.graph.models(m),
        0 <= i < s.fp.len(),
        i < t.gives.len(),
        m.at(t.canon@[t.flat.graph.canon(t.addr)].value) == m.at(s.snap),
        amount(m.at(s.fp[i].1.perm)) > 0 as real,
        forall|args: Seq<Value>|
            args.len() == s.members.len() ==> (m.func)(
                FuncId(meta.snap_projs@[i]),
                Seq::empty(),
                seq![#[trigger] (m.func)(FuncId(meta.snap_cons), Seq::empty(), args)],
            ) == args[i],
        forall|ty: TypeV, v: Value|
            (m.func)(
                env.option.value,
                seq![ty],
                seq![#[trigger] (m.func)(env.option.some, seq![ty], seq![v])],
            ) == v,
    ensures
        m.at(t.gives[i].1.value) == m.at(s.needs[i].1.value),
{
    broadcast use group_grows;

    lemma_leads_trans(b, c, d);
    lemma_grows_models(b.graph, d.graph, m);
    lemma_leads_trans(s.stored, s.joined, b);
    lemma_leads_trans(s.proven, s.stored, b);
    lemma_leads_trans(s.told, s.proven, b);
    lemma_leads_trans(s.taken, s.told, b);
    lemma_leads_trans(s.read, s.taken, b);
    lemma_grows_models(s.stored.graph, b.graph, m);
    lemma_grows_models(s.read.graph, b.graph, m);
    lemma_snapshot_member(s, env, meta, i, m);
    lemma_tms_classes(m, s.members);
    assert(m.at(s.snap) == (m.func)(FuncId(meta.snap_cons), Seq::empty(), m.all(s.members)));
    lemma_leads_trans(t.given, t.told, t.known);
    lemma_leads_trans(t.given, t.known, d);
    lemma_grows_models(t.given.graph, d.graph, m);
    let snap = t.canon@[t.flat.graph.canon(t.addr)].value;
    assert(put_step(
        t.trail,
        env,
        t.lits,
        t.perm,
        meta.snap_projs@,
        snap,
        t.fp,
        t.gives,
        i,
    ));
    lemma_trail_leads(
        t.trail,
        env,
        t.lits,
        t.perm,
        meta.snap_projs@,
        snap,
        t.fp,
        t.gives,
        i,
        t.gives.len() as int,
    );
    let g = t.trail.before[i].graph;
    lemma_grows_models(g, t.given.graph, m);
    let proj = meta.snap_projs@[i];
    let elem = ret_type(*env.program, proj);
    let inner = Tm::App(OpV::FuncApp(FuncId(proj), Seq::empty()), seq![Tm::Class(snap)]);
    lemma_tm_one(m, FuncId(proj), Seq::empty(), Tm::Class(snap), m.at(snap));
    let read = (m.func)(FuncId(proj), Seq::empty(), seq![m.at(snap)]);
    lemma_tm_one(m, env.option.value, seq![elem], inner, read);
    assert(g.denotes(t.gives[i].1.value, unwrap_tm(env, elem, proj, snap)));
    assert(read == m.all(s.members)[i]);
}

proof fn lemma_tm_one(m: Model, f: FuncId, tys: Seq<TypeV>, t: Tm, v: Value)
    requires
        tm_value(m, t) == Some(v),
    ensures
        tm_value(m, Tm::App(OpV::FuncApp(f, tys), seq![t])) == Some((m.func)(f, tys, seq![v])),
{
    let ts = seq![t];
    assert(ts.drop_last() =~= Seq::empty());
    assert(tms_value(m, ts.drop_last()) == Some(Seq::<Value>::empty()));
    assert(Seq::<Value>::empty().push(v) =~= seq![v]);
    assert(tms_value(m, ts) == Some(seq![v]));
}

proof fn lemma_snapshot_member(s: FoldSteps, env: Env, meta: PredMeta, i: int, m: Model)
    requires
        slots_folded(
            s.read.graph,
            env,
            s.flat.graph,
            s.canon@,
            s.perm,
            meta.snap_projs@,
            s.fp,
            s.needs,
            s.members,
            s.fp.len() as int,
        ),
        !s.read.graph.full(),
        s.read.graph.models(m),
        0 <= i < s.fp.len(),
        amount(m.at(s.fp[i].1.perm)) > 0 as real,
    ensures
        m.at(s.members[i]) == (m.func)(
            env.option.some,
            seq![ret_type(*env.program, meta.snap_projs@[i])],
            seq![m.at(s.needs[i].1.value)],
        ),
{
    let need = s.needs[i];
    let perm = s.fp[i].1.perm;
    let elem = ret_type(*env.program, meta.snap_projs@[i]);
    let v = need.1.value;
    lemma_tm_one(m, env.option.some, seq![elem], Tm::Class(v), m.at(v));
    crate::model::lemma_tm_lit(m, Value::Real(0 as real));
    lemma_tm_bin(m, BinOp::LtR, crate::model::t_real(0 as real), Tm::Class(perm));
    crate::model::lemma_tm_ite(
        m,
        crate::model::t_ltr(crate::model::t_real(0 as real), Tm::Class(perm)),
        Tm::App(OpV::FuncApp(env.option.some, seq![elem]), seq![Tm::Class(v)]),
        Tm::App(OpV::FuncApp(env.option.none, seq![elem]), Seq::empty()),
    );
}

} // verus!
