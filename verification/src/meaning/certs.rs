//! What a certificate says of a resource.

use crate::context::{fresh_node, lemma_leads_trans, Context};
use crate::graph::{lemma_canon_value, lemma_term_value, lemma_terms_in};
use crate::lang::Id;
use crate::meaning::duties::lemma_body_kept;
use crate::meaning::heaps::{asks, gives, lemma_at, lemma_gives, listed, settles};
use crate::meaning::methods::{held_entry, lemma_deref_checked, lemma_reads_kept};
use crate::meaning::slots::{lemma_operand_kept, on_path};
use crate::meaning::steps::{asked_by, law_heap_step};
use crate::meaning::values::operand;
use crate::method::eval::heap_list;
use crate::method::graft::ResourceCertificate;
use crate::method::merge::{amount, held};
use crate::method::plain::{entries_in, Chunk, Heap};
use crate::method::resource::Env;
use crate::method::run::{body_stepped, heap_insts, inst_ok, insts_ok, pures};
use crate::method::unit::{
    body_inst_ran, body_ran, certifies, named, obliged, read_checked, CertSteps, Trail,
};
use crate::model::{apply, Model};
use crate::program::{HeapInst, Inst, InstKind, PureInst, ResourceBody, Sign};
use crate::rewrite::recipe::val_ok;
use crate::terms::lemma_grows_models;
use crate::vmir::{Polarity, Value};
use vstd::prelude::*;

verus! {

/// What a certificate asks for, as entries.
pub open spec fn delta_list(cert: ResourceCertificate) -> Seq<(Id, Chunk)> {
    Seq::new(
        cert.delta@.len(),
        |i: int|
            (cert.delta@[i].0, Chunk { perm: cert.delta@[i].1, value: cert.delta@[i].2 }),
    )
}

/// The certificate of a resource reads off an execution of its body: its parameters are
/// the first slots, its boolean is the result, and what it asks for is what the heap of
/// the result holds, entry by entry.
pub proof fn law_certificate(
    env: Env,
    drop: Seq<String>,
    n_params: nat,
    body: ResourceBody,
    cert: ResourceCertificate,
    s: CertSteps,
    m: Model,
    loc: Value,
)
    requires
        certifies(env, drop, n_params, body, cert, s),
        val_ok(body.res.1, s.trail.slots.last().vals.len()),
        crate::method::eval::heap_ok(body.res.0, s.trail.slots.last().heaps.len()),
        cert.wf(),
        !cert.graph.full(),
        cert.graph.models(m),
    ensures
        ({
            let x = m.all(s.trail.slots.last().vals);
            let es = heap_list(s.trail.slots.last().heaps, body.res.0);
            &&& n_params <= x.len()
            &&& m.all(cert.params@) == x.take(n_params as int)
            &&& m.at(cert.bool_id) == operand(x, body.res.1)
            &&& cert.delta@.len() == es.len()
            &&& forall|i: int|
                0 <= i < es.len() ==> m.at((#[trigger] cert.delta@[i]).0) == m.at(es[i].0) && m.at(
                    cert.delta@[i].1,
                ) == m.at(es[i].1.perm) && m.at(cert.delta@[i].2) == m.at(es[i].1.value)
            &&& held(m, delta_list(cert), loc) == held(m, es, loc)
        }),
{
    let t = s.trail;
    let insts = body.insts@;
    let n = insts.len() as int;
    let first = t.slots[0];
    let last = t.slots[n];
    let es = heap_list(last.heaps, body.res.0);
    let g = cert.graph;
    lemma_body_kept(t, env, insts, n, 0);
    lemma_at(g, m, last.vals, body.res.1, s.bool_id);
    lemma_canon_value(g, m, s.bool_id);
    assert(m.all(cert.params@) =~= m.all(last.vals).take(n_params as int)) by {
        assert forall|j: int| 0 <= j < n_params implies m.at(#[trigger] cert.params@[j]) == m.at(
            last.vals[j],
        ) by {
            assert(g.has(first.vals[j]));
            lemma_canon_value(g, m, first.vals[j]);
            assert(last.vals[j] == first.vals[j]);
        }
    }
    assert(entries_in(g, es));
    assert forall|i: int| 0 <= i < es.len() implies m.at((#[trigger] cert.delta@[i]).0) == m.at(
        es[i].0,
    ) && m.at(cert.delta@[i].1) == m.at(es[i].1.perm) && m.at(cert.delta@[i].2) == m.at(
        es[i].1.value,
    ) by {
        assert(g.has(es[i].0) && g.has(es[i].1.perm) && g.has(es[i].1.value));
        lemma_canon_value(g, m, es[i].0);
        lemma_canon_value(g, m, es[i].1.perm);
        lemma_canon_value(g, m, es[i].1.value);
    }
    lemma_same_held(m, delta_list(cert), es, loc);
}

proof fn lemma_same_held(m: Model, a: Seq<(Id, Chunk)>, b: Seq<(Id, Chunk)>, loc: Value)
    requires
        a.len() == b.len(),
        forall|i: int|
            0 <= i < a.len() ==> m.at((#[trigger] a[i]).0) == m.at(b[i].0) && m.at(a[i].1.perm)
                == m.at(b[i].1.perm),
    ensures
        held(m, a, loc) == held(m, b, loc),
    decreases a.len(),
{
    if a.len() > 0 {
        let af = a.drop_last();
        let bf = b.drop_last();
        assert forall|i: int| 0 <= i < af.len() implies m.at((#[trigger] af[i]).0) == m.at(bf[i].0)
            && m.at(af[i].1.perm) == m.at(bf[i].1.perm) by {
            assert(af[i] == a[i]);
        }
        lemma_same_held(m, af, bf, loc);
        assert(m.at(a[a.len() - 1].0) == m.at(b[a.len() - 1].0));
    }
}

/// The value that the graph of a resource fixes for a class is the one that the class has
/// in every execution of the body with these parameters.
pub proof fn law_settled(
    cert: ResourceCertificate,
    m: Model,
    w: Model,
    class: Id,
    v: Value,
    depth: nat,
)
    requires
        cert.wf(),
        cert.graph.models(w),
        w == (Model { val: w.val, fresh: w.fresh, ..m }),
        cert.graph.has(class),
        settles(cert.graph, m, cert.params@, w.all(cert.params@), class, v, depth),
    ensures
        v == w.at(class),
    decreases depth,
{
    let g = cert.graph;
    let params = cert.params@;
    let xs = w.all(params);
    if exists|j: int|
        0 <= j < params.len() && g.canon(#[trigger] params[j]) == g.canon(class) && v == xs[j] {
        let j = choose|j: int|
            0 <= j < params.len() && g.canon(#[trigger] params[j]) == g.canon(class) && v == xs[j];
        assert(g.has(params[j]));
        lemma_canon_value(g, w, params[j]);
        lemma_canon_value(g, w, class);
    } else {
        let (k, vs) = choose|k: int, vs: Seq<Value>|
            {
                &&& #[trigger] listed(g, class, k, vs)
                &&& apply(m, g.terms(class)[k].op, vs) == Some(v)
                &&& forall|i: int|
                    0 <= i < vs.len() ==> settles(
                        g,
                        m,
                        params,
                        xs,
                        g.terms(class)[k].args[i],
                        #[trigger] vs[i],
                        (depth - 1) as nat,
                    )
            };
        let n = g.terms(class)[k];
        lemma_terms_in(g, class, k);
        assert forall|i: int| 0 <= i < vs.len() implies vs[i] == w.at(n.args[i]) by {
            assert(settles(g, m, params, xs, n.args[i], vs[i], (depth - 1) as nat));
            assert(g.has(n.args[i]));
            law_settled(cert, m, w, n.args[i], vs[i], (depth - 1) as nat);
        }
        assert(vs =~= w.all(n.args));
        lemma_term_value(g, w, class, k);
    }
}

/// What a call asks for of the values of its arguments is what the body holds at its end,
/// in every execution of the body with these values as its parameters.
pub proof fn law_asks(
    env: Env,
    drop: Seq<String>,
    n_params: nat,
    body: ResourceBody,
    cert: ResourceCertificate,
    s: CertSteps,
    m: Model,
    w: Model,
    fp: Seq<(Value, Value)>,
    loc: Value,
)
    requires
        certifies(env, drop, n_params, body, cert, s),
        val_ok(body.res.1, s.trail.slots.last().vals.len()),
        crate::method::eval::heap_ok(body.res.0, s.trail.slots.last().heaps.len()),
        cert.wf(),
        !cert.graph.full(),
        cert.graph.models(w),
        w == (Model { val: w.val, fresh: w.fresh, ..m }),
        asks(cert, m, w.all(s.trail.slots.last().vals).take(n_params as int), fp),
    ensures
        gives(fp, loc) == held(w, heap_list(s.trail.slots.last().heaps, body.res.0), loc),
{
    law_certificate(env, drop, n_params, body, cert, s, w, loc);
    let es = delta_list(cert);
    let xs = w.all(cert.params@);
    assert forall|i: int| 0 <= i < es.len() implies w.at((#[trigger] es[i]).0) == fp[i].0 && w.at(
        es[i].1.perm,
    ) == fp[i].1 by {
        let v = fp[i];
        let (d, e) = choose|d: nat, e: nat|
            #[trigger] settles(cert.graph, m, cert.params@, xs, cert.delta@[i].0, fp[i].0, d)
                && #[trigger] settles(
                cert.graph,
                m,
                cert.params@,
                xs,
                cert.delta@[i].1,
                fp[i].1,
                e,
            );
        law_settled(cert, m, w, cert.delta@[i].0, fp[i].0, d);
        law_settled(cert, m, w, cert.delta@[i].1, fp[i].1, e);
    }
    lemma_gives(w, es, fp, loc);
}

/// The step of an instruction of a body, and what the last slots keep of it.
#[verifier::rlimit(40)]
#[verifier::spinoff_prover]
proof fn lemma_body_at(
    env: Env,
    insts: Seq<Inst>,
    t: Trail,
    i: int,
    n_params: nat,
) -> (r: (Context, Context))
    requires
        body_ran(t, env, insts, insts.len() as int),
        t.slots[0].vals.len() == n_params,
        t.slots[0].heaps.len() == 1,
        insts_ok(insts, n_params, 1),
        0 <= i < insts.len(),
    ensures
        read_checked(t.ctxs[i], r.0, t.slots[i], insts[i]),
        r.0.leads_to(t.ctxs[i + 1]),
        body_stepped(r.1, t.ctxs[i + 1], env, t.slots[i], t.slots[i + 1], insts[i]),
        i + 1 < insts.len() ==> t.ctxs[i + 1].leads_to(t.ctxs[insts.len() as int]),
        t.slots[i].vals.is_prefix_of(t.slots[insts.len() as int].vals),
        t.slots[i + 1].vals.is_prefix_of(t.slots[insts.len() as int].vals),
        t.slots[i].vals.len() == n_params + pures(insts.take(i)),
        t.slots[i].heaps.is_prefix_of(t.slots[insts.len() as int].heaps),
        t.slots[i + 1].heaps.is_prefix_of(t.slots[insts.len() as int].heaps),
        t.slots[i].heaps.len() == 1 + heap_insts(insts.take(i)),
        inst_ok(insts[i], t.slots[i].vals.len(), t.slots[i].heaps.len()),
{
    let n = insts.len() as int;
    lemma_body_kept(t, env, insts, n, i);
    lemma_body_kept(t, env, insts, n, i + 1);
    lemma_body_kept(t, env, insts, n, 0);
    lemma_body_heaps_kept(t, env, insts, n, i);
    lemma_body_heaps_kept(t, env, insts, n, i + 1);
    lemma_body_heaps_kept(t, env, insts, n, 0);
    assert(insts.take(0) =~= Seq::empty());
    assert(inst_ok(insts[i], n_params + pures(insts.take(i)), 1 + heap_insts(insts.take(i))));
    assert(body_inst_ran(t.ctxs[i], t.ctxs[i + 1], env, t.slots[i], t.slots[i + 1], insts[i]));
    let (read, mid) = choose|read: Context, mid: Context|
        {
            &&& #[trigger] t.ctxs[i].leads_to(read)
            &&& read_checked(t.ctxs[i], read, t.slots[i], insts[i])
            &&& #[trigger] read.leads_to(mid)
            &&& obliged(read, mid, t.slots[i], insts[i])
            &&& mid.leads_to(t.ctxs[i + 1])
            &&& body_stepped(mid, t.ctxs[i + 1], env, t.slots[i], t.slots[i + 1], insts[i])
        };
    lemma_leads_trans(read, mid, t.ctxs[i + 1]);
    (read, mid)
}

/// Later slots of a body keep the heaps of earlier ones.
proof fn lemma_body_heaps_kept(t: Trail, env: Env, insts: Seq<Inst>, n: int, i: int)
    requires
        body_ran(t, env, insts, n),
        0 <= i <= n <= insts.len(),
    ensures
        t.slots[i].heaps.is_prefix_of(t.slots[n].heaps),
        t.slots[n].heaps.len() == t.slots[i].heaps.len() + heap_insts(insts.take(n)) - heap_insts(
            insts.take(i),
        ),
    decreases n - i,
{
    if i < n {
        let k = n - 1;
        let u = Trail { ctxs: t.ctxs.drop_last(), slots: t.slots.drop_last() };
        assert(body_ran(u, env, insts, k)) by {
            assert forall|j: int| 0 <= j < k implies #[trigger] body_inst_ran(
                u.ctxs[j],
                u.ctxs[j + 1],
                env,
                u.slots[j],
                u.slots[j + 1],
                insts[j],
            ) by {
                assert(body_inst_ran(
                    t.ctxs[j],
                    t.ctxs[j + 1],
                    env,
                    t.slots[j],
                    t.slots[j + 1],
                    insts[j],
                ));
            }
        }
        lemma_body_heaps_kept(u, env, insts, k, i);
        assert(body_inst_ran(t.ctxs[k], t.ctxs[n], env, t.slots[k], t.slots[n], insts[k]));
        let (read, mid) = choose|read: Context, mid: Context|
            {
                &&& #[trigger] t.ctxs[k].leads_to(read)
                &&& read_checked(t.ctxs[k], read, t.slots[k], insts[k])
                &&& #[trigger] read.leads_to(mid)
                &&& obliged(read, mid, t.slots[k], insts[k])
                &&& mid.leads_to(t.ctxs[n])
                &&& body_stepped(mid, t.ctxs[n], env, t.slots[k], t.slots[n], insts[k])
            };
        assert(insts.take(n).drop_last() =~= insts.take(k));
        assert(insts.take(n).last() == insts[k]);
        assert(t.slots[k].heaps.is_prefix_of(t.slots[n].heaps)) by {
            if insts[k].kind is Heap {
                assert(t.slots[n].heaps.drop_last() == t.slots[k].heaps);
            }
        }
    }
}

/// The heaps of a certified resource are an execution of its body, from an empty one: each
/// holds of every location what its instruction makes of the heap that it reads. Where an
/// instruction's path is taken, a location is read only where an entry of it holds
/// permission, and its value is what is read.
#[verifier::rlimit(60)]
#[verifier::spinoff_prover]
pub proof fn law_body_heaps(
    env: Env,
    drop: Seq<String>,
    n_params: nat,
    body: ResourceBody,
    cert: ResourceCertificate,
    s: CertSteps,
    m: Model,
    i: int,
    fp: Seq<(Value, Value)>,
    loc: Value,
)
    requires
        certifies(env, drop, n_params, body, cert, s),
        env.wf(),
        insts_ok(body.insts@, n_params, 1),
        !cert.graph.full(),
        cert.graph.models(m),
        0 <= i < body.insts@.len(),
        body.insts@[i].kind matches InstKind::Heap(hi) ==> asked_by(
            env,
            m,
            m.all(s.trail.slots.last().vals),
            hi,
            fp,
        ),
    ensures
        ({
            let x = m.all(s.trail.slots.last().vals);
            let hs = s.trail.slots.last().heaps;
            let k = 1 + heap_insts(body.insts@.take(i));
            let inst = body.insts@[i];
            &&& hs.len() > 0 && hs[0].list().len() == 0
            &&& match inst.kind {
                InstKind::Heap(HeapInst::Combine { base, sign: Sign::Add, perm, .. }) => k < hs.len()
                    && held(m, hs[k as int].list(), loc) == held(m, heap_list(hs, base), loc)
                    + amount(operand(x, perm)) * gives(fp, loc),
                InstKind::Heap(HeapInst::Combine { base, sign: Sign::Sub, perm, .. }) => k < hs.len()
                    && held(m, hs[k as int].list(), loc) == held(m, heap_list(hs, base), loc)
                    - amount(operand(x, perm)) * gives(fp, loc),
                InstKind::Heap(HeapInst::Assign(base, w)) => k < hs.len() && held(
                    m,
                    hs[k as int].list(),
                    loc,
                ) == held(m, heap_list(hs, base), loc),
                InstKind::Pure(_, PureInst::Deref(hv, l)) => on_path(x, inst.pc.conds@)
                    ==> exists|j: int|
                    #[trigger] held_entry(m, heap_list(hs, hv), operand(x, l), j) && (l is Temp
                        ==> m.at(heap_list(hs, hv)[j].1.value) == x[(n_params + pures(
                        body.insts@.take(i),
                    )) as int]),
                InstKind::Pure(_, _) => true,
                _ => false,
            }
        }),
{
    let t = s.trail;
    let insts = body.insts@;
    let n = insts.len() as int;
    let inst = insts[i];
    let (read, mid) = lemma_body_at(env, insts, t, i, n_params);
    lemma_body_heaps_kept(t, env, insts, n, 0);
    let at = t.slots[i];
    let u = t.slots[i + 1];
    let b = t.ctxs[i + 1];
    let last = t.slots[n];
    assert(last.heaps[0] == t.slots[0].heaps[0]);
    lemma_grows_models(t.ctxs[n].graph, cert.graph, m);
    if i + 1 < n {
        lemma_grows_models(b.graph, t.ctxs[n].graph, m);
    }
    match inst.kind {
        InstKind::Heap(hi) => {
            assert(u.heaps.drop_last() == at.heaps);
            assert(last.heaps[at.heaps.len() as int] == u.heaps.last());
            lemma_reads_kept(env, m, at.vals, last.vals, at.heaps, last.heaps, hi, fp);
            law_heap_step(
                mid,
                b,
                env,
                at.vals,
                at.heaps,
                hi,
                inst.pc.conds@,
                u.heaps.last(),
                m,
                fp,
                loc,
            );
        },
        InstKind::Pure(_, PureInst::Deref(hv, l)) => {
            let k = at.vals.len() as int;
            let r = u.vals.last();
            assert(last.vals[k] == u.vals[k] && u.vals[k] == r);
            lemma_operand_kept(m, at.vals, last.vals, l);
            assert(heap_list(at.heaps, hv) == heap_list(last.heaps, hv));
            let conds = inst.pc.conds@;
            if on_path(m.all(last.vals), conds) {
                assert forall|k: int| 0 <= k < conds.len() implies operand(
                    m.all(at.vals),
                    (#[trigger] conds[k]).0,
                ) == Value::Bool(conds[k].1 == Polarity::Positive) by {
                    assert(val_ok(conds[k].0, at.vals.len()));
                    lemma_operand_kept(m, at.vals, last.vals, conds[k].0);
                }
                let j = lemma_deref_checked(t.ctxs[i], read, at, inst, m, b, r);
                assert(held_entry(
                    m,
                    heap_list(last.heaps, hv),
                    operand(m.all(last.vals), l),
                    j,
                ));
            }
        },
        _ => {},
    }
}

/// A resource is certified for all values of its parameters: whatever they are, the graph
/// that its body starts with has a model in which they have these values.
pub proof fn law_parameters_free(
    env: Env,
    drop: Seq<String>,
    n_params: nat,
    body: ResourceBody,
    cert: ResourceCertificate,
    s: CertSteps,
    base: Model,
    xs: Seq<Value>,
)
    requires
        certifies(env, drop, n_params, body, cert, s),
        !s.trail.ctxs[0].graph.full(),
        s.trail.ctxs[0].next_fresh < u32::MAX,
        xs.len() == n_params,
    ensures
        exists|m: Model|
            {
                &&& #[trigger] s.trail.ctxs[0].graph.models(m)
                &&& m.all(s.trail.slots[0].vals) == xs
                &&& m == (Model { val: m.val, fresh: m.fresh, ..base })
            },
{
    let c = s.trail.ctxs[0];
    let ids = s.trail.slots[0].vals;
    let ns = choose|ns: Seq<u32>| #[trigger] named(s.start, c, ids, ns);
    crate::graph::lemma_defs_len(s.start.graph);
    let fresh = |n: u32| xs[choose|k: int| 0 <= k < ns.len() && ns[k] == n];
    let val = |id: Id| fresh(ns[id as int]);
    let m = Model { val, fresh, ..base };
    let defs = c.graph.defs();
    assert(s.start.graph.defs() =~= Seq::empty());
    assert(defs =~= Seq::new(ns.len(), |k: int| fresh_node(ns[k])));
    crate::graph::lemma_defs_len(c.graph);
    crate::graph::lemma_len_bound(c.graph);
    assert forall|i: int| 0 <= i < defs.len() implies crate::model::term_value(
        m,
        #[trigger] defs[i],
    ) == Some(m.at(i as Id)) by {
        assert(defs[i] == fresh_node(ns[i]));
    }
    assert(c.graph.facts() == s.start.graph.facts());
    assert(c.graph.models(m));
    assert forall|k: int| 0 <= k < ids.len() implies m.at(#[trigger] ids[k]) == xs[k] by {
        assert(ids[k] == s.start.graph.len() + k);
        let j = choose|j: int| 0 <= j < ns.len() && ns[j] == ns[k];
        assert(ns[k] == ns[k]);
        assert(0 <= j < ns.len() && ns[j] == ns[k]);
        if j < k {
            assert(ns[j] != ns[k]);
        } else if k < j {
            assert(ns[k] != ns[j]);
        }
    }
    assert(m.all(ids) =~= xs);
}

} // verus!
