//! Putting resources in and taking them out.

use crate::context::{
    builds, cube_holds, learns, lemma_cube_grows, lemma_leads_refl, lemma_leads_trans,
    lemma_learns_asserted, lemma_learns_follows, lemma_learns_refl, Context,
};
use crate::graph::Graph;
use crate::heap::facts::{
    lemma_reaches_asserted, lemma_reaches_follows, lemma_reaches_trans, only, reaches,
};
use crate::lang::{FuncId, Id};
use crate::method::error::VerifyError;
use crate::method::eval::{
    at_address, collect_pc_lits, get_heap, get_val, get_vals, heap_list, heap_ok, lemma_heap_in,
    lemma_state_grows, lits_for, state_in, EvalState,
};
use crate::method::graft::{
    graft_certificate, graft_result, learns_graft, ResourceCertificate,
};
use crate::method::heapinst::{combine, combined};
use crate::method::merge::{amount, held, share};
use crate::method::plain::{addrs_differ, entries_in, lemma_entries_grow, Chunk, Heap};
use crate::method::subtract::short_of;
use crate::model::{lemma_tm_bin, t_bin, t_bool, t_classes, Model, Tm};
use crate::program::{Declaration, HeapVal, PathConds, Program, ResourceCall, Sign};
use crate::prove::{left_open, shown};
use crate::quant::Quantifiers;
use crate::rewrite::recipe::{guards_ok, val_ok, val_tms, vals_ok};
use crate::terms::{built, denote_all, group_grows, lemma_grows_denotes, Expr};
use crate::vmir::{BinOp, MemberId, Polarity, Val, Value};
use std::collections::HashMap;
use vstd::prelude::*;

verus! {

broadcast use {
    vstd::std_specs::hash::group_hash_axioms,
    crate::context::lemma_builds_trans,
};

/// The functions of the option type.
#[derive(Debug, Clone, Copy, PartialEq, Eq, Structural)]
pub struct OptionOps {
    pub some: FuncId,
    pub none: FuncId,
    pub value: FuncId,
}

/// What the instructions of a method refer to: the program, the certificates of its
/// resources, its compiled quantifiers and the functions of the option type.
pub struct Env<'a> {
    pub program: &'a Program,
    pub certs: &'a HashMap<MemberId, ResourceCertificate>,
    pub quants: &'a Quantifiers,
    pub option: OptionOps,
}

impl<'a> Env<'a> {
    pub open spec fn wf(self) -> bool {
        forall|id: MemberId| #[trigger]
            self.certs@.dom().contains(id) ==> self.certs@[id].wf()
    }
}

/// Assumes that a class is true.
pub fn assume_true(ctx: &mut Context, id: Id)
    requires
        old(ctx).wf(),
        old(ctx).graph.has(id),
    ensures
        reaches(*old(ctx), *final(ctx), only((Tm::Class(id), t_bool(true)))),
        learns(*old(ctx), *final(ctx), seq![(Tm::Class(id), t_bool(true))]),
{
    let ghost c0 = *ctx;
    ctx.assume_expr(&Expr::Class(id));
    let ghost c1 = *ctx;
    ctx.rebuild();
    proof {
        let facts = seq![(Tm::Class(id), t_bool(true))];
        lemma_learns_refl(c0);
        lemma_learns_asserted(c0, c0, c1, Seq::empty(), facts);
        assert(Seq::<(Tm, Tm)>::empty() + facts =~= facts);
        lemma_learns_follows(c0, c1, *ctx, facts);
        let f = (Tm::Class(id), t_bool(true));
        lemma_reaches_asserted(c0, c1, f, only(f));
        lemma_reaches_follows(c1, *ctx);
        lemma_reaches_trans(c0, c1, *ctx);
    }
}

/// The same chunks with every permission scaled.
pub open spec fn scaled(
    g: Graph,
    scale: Id,
    es: Seq<(Id, Chunk)>,
    r: Seq<(Id, Chunk)>,
    n: int,
) -> bool {
    &&& r.len() == n
    &&& forall|i: int|
        0 <= i < n ==> (#[trigger] r[i]).0 == es[i].0 && r[i].1.value == es[i].1.value && g.has(
            r[i].1.perm,
        ) && g.denotes(
            r[i].1.perm,
            t_bin(BinOp::MulR, Tm::Class(scale), Tm::Class(es[i].1.perm)),
        )
}

/// Scales every permission of a heap.
pub fn scale_heap_perm(ctx: &mut Context, h: &Heap, scale: Id) -> (r: Heap)
    requires
        old(ctx).wf(),
        old(ctx).graph.has(scale),
        entries_in(old(ctx).graph, h.list()),
    ensures
        old(ctx).leads_to(*final(ctx)),
        builds(*old(ctx), *final(ctx)),
        scaled(final(ctx).graph, scale, h.list(), r.list(), h.list().len() as int),
        entries_in(final(ctx).graph, r.list()),
{
    broadcast use group_grows;

    let ghost c0 = *ctx;
    let es = h.entries();
    let mut out = Heap::empty();
    let mut i: usize = 0;
    proof {
        lemma_leads_refl(c0);
        assert(out.list() =~= Seq::empty());
    }
    while i < es.len()
        invariant
            i <= es@.len(),
            es@ == h.list(),
            addrs_differ(es@),
            ctx.wf(),
            c0.leads_to(*ctx),
            c0.graph.has(scale),
            entries_in(c0.graph, es@),
            builds(c0, *ctx),
            scaled(ctx.graph, scale, es@, out.list(), i as int),
            entries_in(ctx.graph, out.list()),
        decreases es.len() - i,
    {
        let ghost c1 = *ctx;
        let ghost before = out.list();
        let (addr, chunk) = es[i];
        proof {
            assert(c0.graph.has(es@[i as int].0));
        }
        let perm = ctx.build(&Expr::bin(BinOp::MulR, Expr::Class(scale), Expr::Class(chunk.perm)));
        proof {
            lemma_leads_trans(c0, c1, *ctx);
            lemma_entries_grow(c1.graph, ctx.graph, before);
            lemma_no_addr(before, addr, es@, i as int);
        }
        out = out.with_chunk(addr, Chunk::new(perm, chunk.value));
        proof {
            let g = ctx.graph;
            let now = out.list();
            assert forall|k: int| 0 <= k < i + 1 implies (#[trigger] now[k]).0 == es@[k].0
                && now[k].1.value == es@[k].1.value && g.has(now[k].1.perm) && g.denotes(
                now[k].1.perm,
                t_bin(BinOp::MulR, Tm::Class(scale), Tm::Class(es@[k].1.perm)),
            ) by {
                if k < i {
                    assert(now[k] == before[k]);
                    lemma_grows_denotes(
                        c1.graph,
                        g,
                        before[k].1.perm,
                        t_bin(BinOp::MulR, Tm::Class(scale), Tm::Class(es@[k].1.perm)),
                    );
                }
            }
        }
        i += 1;
    }
    out
}

proof fn lemma_no_addr(before: Seq<(Id, Chunk)>, addr: Id, es: Seq<(Id, Chunk)>, n: int)
    requires
        0 <= n < es.len(),
        before.len() == n,
        forall|k: int| 0 <= k < n ==> (#[trigger] before[k]).0 == es[k].0,
        addrs_differ(es),
        es[n].0 == addr,
    ensures
        !crate::method::plain::chunk_map(before).dom().contains(addr),
{
    if crate::method::plain::chunk_map(before).dom().contains(addr) {
        lemma_map_lists(before, addr);
        let k = choose|k: int| 0 <= k < before.len() && (#[trigger] before[k]).0 == addr;
        assert(es[k].0 != es[n].0);
    }
}

proof fn lemma_map_lists(es: Seq<(Id, Chunk)>, addr: Id)
    requires
        crate::method::plain::chunk_map(es).dom().contains(addr),
    ensures
        exists|k: int| 0 <= k < es.len() && (#[trigger] es[k]).0 == addr,
    decreases es.len(),
{
    if es.last().0 == addr {
        assert(es[es.len() - 1].0 == addr);
    } else {
        lemma_map_lists(es.drop_last(), addr);
        let k = choose|k: int|
            0 <= k < es.drop_last().len() && (#[trigger] es.drop_last()[k]).0 == addr;
        assert(es[k].0 == addr);
    }
}

/// Scaling a heap scales what it gives to every location.
pub proof fn law_scaled(
    g: Graph,
    m: Model,
    scale: Id,
    es: Seq<(Id, Chunk)>,
    r: Seq<(Id, Chunk)>,
    loc: Value,
)
    requires
        !g.full(),
        g.models(m),
        scaled(g, scale, es, r, es.len() as int),
    ensures
        held(m, r, loc) == amount(m.at(scale)) * held(m, es, loc),
    decreases es.len(),
{
    let k = amount(m.at(scale));
    if es.len() > 0 {
        let n = es.len() - 1;
        let ef = es.drop_last();
        let rf = r.drop_last();
        assert forall|i: int| 0 <= i < n implies (#[trigger] rf[i]).0 == ef[i].0 && rf[i].1.value
            == ef[i].1.value && g.has(rf[i].1.perm) && g.denotes(
            rf[i].1.perm,
            t_bin(BinOp::MulR, Tm::Class(scale), Tm::Class(ef[i].1.perm)),
        ) by {
            assert(rf[i] == r[i]);
        }
        law_scaled(g, m, scale, ef, rf, loc);
        assert(r[n].0 == es[n].0);
        lemma_tm_bin(m, BinOp::MulR, Tm::Class(scale), Tm::Class(es[n].1.perm));
        let a = held(m, ef, loc);
        let b = share(m, es[n], loc);
        assert(share(m, r[n], loc) == k * b) by {
            if m.at(es[n].0) != loc {
                assert(k * (0 as real) == 0 as real) by (nonlinear_arith);
            }
        }
        assert(k * a + k * b == k * (a + b)) by (nonlinear_arith);
    } else {
        assert(k * (0 as real) == 0 as real) by (nonlinear_arith);
    }
}

/// The certificate of a resource that has a body.
pub open spec fn cert_of(env: Env, resource: MemberId, n_args: nat) -> Option<ResourceCertificate> {
    if resource < env.program.decls@.len() && (env.program.decls@[resource as int] matches Declaration::Resource(r)
        && r.body is Some) && env.certs@.dom().contains(resource)
        && env.certs@[resource].params@.len() == n_args {
        Some(env.certs@[resource])
    } else {
        None
    }
}

/// Why a resource cannot be called.
pub open spec fn cert_missing(env: Env, resource: MemberId) -> VerifyError {
    if resource < env.program.decls@.len() && env.program.decls@[resource as int] is Resource {
        if env.program.decls@[resource as int]->Resource_0.body is None {
            VerifyError::AbstractResourceCall
        } else if env.certs@.dom().contains(resource) {
            VerifyError::Unimplemented("resource call with the wrong number of arguments")
        } else {
            VerifyError::Unimplemented("resource certificate not built")
        }
    } else {
        VerifyError::Unimplemented("resource call targets no resource")
    }
}

/// The certificate of a resource, or why there is none to call.
pub fn find_cert<'a>(env: &Env<'a>, call: &ResourceCall) -> (r: Result<
    &'a ResourceCertificate,
    VerifyError,
>)
    requires
        env.wf(),
    ensures
        match cert_of(*env, call.resource, call.args@.len()) {
            Some(c) => r == Ok::<&ResourceCertificate, VerifyError>(&c) && c.wf(),
            None => r == Err::<&ResourceCertificate, VerifyError>(
                cert_missing(*env, call.resource),
            ),
        },
        r matches Err(e) ==> !(e is AtInst),
        call.resource < env.program.decls@.len() && (
        env.program.decls@[call.resource as int] matches Declaration::Resource(res)
            && res.body is None) ==> r == Err::<&ResourceCertificate, VerifyError>(
            VerifyError::AbstractResourceCall,
        ),
{
    if call.resource >= env.program.decls.len() {
        return Err(VerifyError::Unimplemented("resource call targets no resource"));
    }
    match &env.program.decls[call.resource] {
        Declaration::Resource(r) => {
            if r.body.is_none() {
                return Err(VerifyError::AbstractResourceCall);
            }
        },
        _ => {
            return Err(VerifyError::Unimplemented("resource call targets no resource"));
        },
    }
    match env.certs.get(&call.resource) {
        Some(c) => {
            if c.params.len() == call.args.len() {
                Ok(c)
            } else {
                Err(VerifyError::Unimplemented("resource call with the wrong number of arguments"))
            }
        },
        None => Err(VerifyError::Unimplemented("resource certificate not built")),
    }
}

/// What a call of a resource asks for: the certificate carried over to the arguments.
pub open spec fn called(
    a: Context,
    b: Context,
    vals: Seq<Id>,
    cert: ResourceCertificate,
    args: Seq<Val>,
    heap: Heap,
    id: Id,
) -> bool {
    exists|mid: Context, ids: Seq<Id>|
        {
            &&& a.leads_to(mid)
            &&& builds(a, mid)
            &&& #[trigger] denote_all(mid.graph, ids, val_tms(t_classes(vals), args))
            &&& #[trigger] learns_graft(cert, ids, mid, b)
            &&& graft_result(cert, ids, b.graph, heap, id)
        }
}

/// Evaluates a call of a resource by its certificate: the heap that it asks for, and
/// its boolean, which is neither assumed nor asserted.
pub fn eval_resource_call(ctx: &mut Context, env: &Env, vals: &Vec<Id>, call: &ResourceCall) -> (r: Result<
    (Heap, Id),
    VerifyError,
>)
    requires
        old(ctx).wf(),
        env.wf(),
        old(ctx).graph.has_all(vals@),
        vals_ok(call.args@, vals@.len()),
    ensures
        old(ctx).leads_to(*final(ctx)),
        r is Ok == cert_of(*env, call.resource, call.args@.len()) is Some,
        r matches Err(e) ==> !(e is AtInst) && e == cert_missing(*env, call.resource),
        r matches Ok(p) ==> entries_in(final(ctx).graph, p.0.list()) && final(ctx).graph.has(p.1)
            && called(
            *old(ctx),
            *final(ctx),
            vals@,
            cert_of(*env, call.resource, call.args@.len()).unwrap(),
            call.args@,
            p.0,
            p.1,
        ),
{
    let ghost c0 = *ctx;
    let cert = match find_cert(env, call) {
        Ok(c) => c,
        Err(e) => {
            proof {
                lemma_leads_refl(c0);
            }
            return Err(e);
        },
    };
    let args = get_vals(ctx, vals, &call.args);
    let ghost c1 = *ctx;
    proof {
        assert forall|j: int| 0 <= j < args@.len() implies c1.graph.has(#[trigger] args@[j]) by {}
    }
    let r = graft_certificate(ctx, cert, &args);
    proof {
        lemma_leads_trans(c0, c1, *ctx);
        assert(denote_all(c1.graph, args@, val_tms(t_classes(vals@), call.args@)));
        assert(learns_graft(*cert, args@, c1, *ctx));
    }
    Ok(r)
}

/// In every model of the graph on the path, a class is true.
pub open spec fn true_on(g: Graph, lits: Seq<(Id, Polarity)>, id: Id) -> bool {
    !g.full() && forall|m: Model| #[trigger]
        g.models(m) && cube_holds(m, lits) ==> m.is(id, true)
}

/// The steps of combining a resource.
pub ghost struct CombineSteps {
    pub called: Context,
    pub ready: Context,
    pub joined: Context,
    pub delta: Heap,
    pub bool_id: Id,
    pub scale: Id,
    pub scaled: Heap,
    pub lits: Seq<(Id, Polarity)>,
}

/// What a resource asks for was read and scaled.
pub open spec fn resource_asked(
    a: Context,
    cert: ResourceCertificate,
    vals: Seq<Id>,
    call: ResourceCall,
    perm: Val,
    conds: Seq<(Val, Polarity)>,
    s: CombineSteps,
) -> bool {
    &&& called(a, s.called, vals, cert, call.args@, s.delta, s.bool_id)
    &&& s.called.leads_to(s.ready)
    &&& builds(s.called, s.ready)
    &&& at_address(s.ready.graph, vals, perm, s.scale)
    &&& scaled(
        s.ready.graph,
        s.scale,
        s.delta.list(),
        s.scaled.list(),
        s.delta.list().len() as int,
    )
    &&& lits_for(s.ready.graph, vals, conds, s.lits)
}

/// A resource was not taken out: the base is short of what it asks for; or that was
/// there, and only its boolean was not shown.
pub open spec fn resource_refused(
    a: Context,
    d: Context,
    cert: ResourceCertificate,
    vals: Seq<Id>,
    base: Seq<(Id, Chunk)>,
    call: ResourceCall,
    perm: Val,
    conds: Seq<(Val, Polarity)>,
    e: VerifyError,
    s: CombineSteps,
) -> bool {
    &&& resource_asked(a, cert, vals, call, perm, conds, s)
    &&& match e {
        VerifyError::InsufficientPermission => short_of(
            s.ready,
            d,
            s.lits,
            base,
            s.scaled.list(),
        ),
        VerifyError::AssertionFailed => left_open(s.joined, d, s.lits, s.bool_id) && exists|
            r: Heap,
        | #[trigger]
            combined(s.ready, s.joined, Sign::Sub, s.lits, base, s.scaled, r),
        _ => false,
    }
}

/// A resource was put in or taken out: what it asks for, scaled, was combined with
/// the base; its boolean is then assumed, or proven on the path.
pub open spec fn resource_combined(
    a: Context,
    b: Context,
    cert: ResourceCertificate,
    vals: Seq<Id>,
    base: Seq<(Id, Chunk)>,
    sign: Sign,
    call: ResourceCall,
    perm: Val,
    conds: Seq<(Val, Polarity)>,
    r: Heap,
    s: CombineSteps,
) -> bool {
    &&& resource_asked(a, cert, vals, call, perm, conds, s)
    &&& combined(s.ready, s.joined, sign, s.lits, base, s.scaled, r)
    &&& s.joined.leads_to(b)
    &&& match sign {
        Sign::Add => learns(s.joined, b, seq![(Tm::Class(s.bool_id), t_bool(true))]),
        Sign::Sub => shown(s.joined, s.lits, s.bool_id) && true_on(b.graph, s.lits, s.bool_id),
    }
}

/// Puts a resource into a heap, or takes it out.
pub fn combine_resource(
    ctx: &mut Context,
    env: &Env,
    state: &EvalState,
    base: HeapVal,
    sign: Sign,
    call: &ResourceCall,
    perm: &Val,
    pc: &PathConds,
) -> (r: Result<Heap, VerifyError>)
    requires
        old(ctx).wf(),
        env.wf(),
        state_in(old(ctx).graph, state.vals@, state.heaps@),
        heap_ok(base, state.heaps@.len()),
        vals_ok(call.args@, state.vals@.len()),
        val_ok(*perm, state.vals@.len()),
        guards_ok(pc.conds@, state.vals@.len()),
    ensures
        old(ctx).leads_to(*final(ctx)),
        cert_of(*env, call.resource, call.args@.len()) is None ==> r == Err::<Heap, VerifyError>(
            cert_missing(*env, call.resource),
        ),
        r matches Err(e) ==> !(e is AtInst),
        cert_of(*env, call.resource, call.args@.len()) is Some ==> (r matches Err(e) ==> sign
            == Sign::Sub && (e == VerifyError::InsufficientPermission || e
            == VerifyError::AssertionFailed) && exists|s: CombineSteps| #[trigger]
            resource_refused(
                *old(ctx),
                *final(ctx),
                cert_of(*env, call.resource, call.args@.len()).unwrap(),
                state.vals@,
                heap_list(state.heaps@, base),
                *call,
                *perm,
                pc.conds@,
                e,
                s,
            )),
        r matches Ok(h) ==> entries_in(final(ctx).graph, h.list()) && exists|s: CombineSteps|
            #[trigger] resource_combined(
                *old(ctx),
                *final(ctx),
                cert_of(*env, call.resource, call.args@.len()).unwrap(),
                state.vals@,
                heap_list(state.heaps@, base),
                sign,
                *call,
                *perm,
                pc.conds@,
                h,
                s,
            ),
{
    broadcast use group_grows;

    let ghost c0 = *ctx;
    let base_h = get_heap(&state.heaps, base);
    let (delta, bool_id) = match eval_resource_call(ctx, env, &state.vals, call) {
        Ok(p) => p,
        Err(e) => {
            return Err(e);
        },
    };
    let ghost c1 = *ctx;
    proof {
        lemma_state_grows(c0.graph, c1.graph, state.vals@, state.heaps@);
    }
    let scale = get_val(ctx, &state.vals, perm);
    let ghost c2 = *ctx;
    proof {
        lemma_leads_trans(c0, c1, c2);
        lemma_entries_grow(c1.graph, c2.graph, delta.list());
    }
    let big = scale_heap_perm(ctx, &delta, scale);
    let ghost c3 = *ctx;
    proof {
        lemma_leads_trans(c1, c2, c3);
        lemma_leads_trans(c0, c2, c3);
        lemma_state_grows(c0.graph, c3.graph, state.vals@, state.heaps@);
    }
    let lits = collect_pc_lits(ctx, &state.vals, pc);
    let ghost c4 = *ctx;
    proof {
        lemma_leads_trans(c1, c3, c4);
        lemma_leads_trans(c0, c3, c4);
        lemma_state_grows(c0.graph, c4.graph, state.vals@, state.heaps@);
        lemma_heap_in(c4.graph, state.vals@, state.heaps@, base);
        lemma_entries_grow(c3.graph, c4.graph, big.list());
        lemma_scaled_grows(
            c3.graph,
            c4.graph,
            scale,
            delta.list(),
            big.list(),
            delta.list().len() as int,
        );
    }
    let out = match combine(ctx, sign, &base_h, &big, &lits) {
        Ok(out) => out,
        Err(e) => {
            proof {
                lemma_leads_trans(c0, c4, *ctx);
                assert(at_address(c4.graph, state.vals@, *perm, scale));
                let steps = CombineSteps {
                    called: c1,
                    ready: c4,
                    joined: c4,
                    delta,
                    bool_id,
                    scale,
                    scaled: big,
                    lits: lits@,
                };
                assert(resource_refused(
                    c0,
                    *ctx,
                    cert_of(*env, call.resource, call.args@.len()).unwrap(),
                    state.vals@,
                    heap_list(state.heaps@, base),
                    *call,
                    *perm,
                    pc.conds@,
                    e,
                    steps,
                ));
            }
            return Err(e);
        },
    };
    let ghost c5 = *ctx;
    proof {
        lemma_leads_trans(c0, c4, c5);
        lemma_cube_grows(c4.graph, c5.graph, lits@);
    }
    let ghost steps = CombineSteps {
        called: c1,
        ready: c4,
        joined: c5,
        delta,
        bool_id,
        scale,
        scaled: big,
        lits: lits@,
    };
    match sign {
        Sign::Add => {
            assume_true(ctx, bool_id);
        },
        Sign::Sub => {
            if !ctx.prove_under_pc(bool_id, &lits) {
                proof {
                    lemma_leads_trans(c0, c5, *ctx);
                    assert(at_address(c4.graph, state.vals@, *perm, scale));
                    assert(combined(
                        c4,
                        c5,
                        Sign::Sub,
                        lits@,
                        heap_list(state.heaps@, base),
                        big,
                        out,
                    ));
                    assert(left_open(c5, *ctx, lits@, bool_id));
                    assert(resource_asked(
                        c0,
                        cert_of(*env, call.resource, call.args@.len()).unwrap(),
                        state.vals@,
                        *call,
                        *perm,
                        pc.conds@,
                        steps,
                    ));
                    assert(resource_refused(
                        c0,
                        *ctx,
                        cert_of(*env, call.resource, call.args@.len()).unwrap(),
                        state.vals@,
                        heap_list(state.heaps@, base),
                        *call,
                        *perm,
                        pc.conds@,
                        VerifyError::AssertionFailed,
                        steps,
                    ));
                }
                return Err(VerifyError::AssertionFailed);
            }
        },
    }
    proof {
        lemma_leads_trans(c0, c5, *ctx);
        lemma_entries_grow(c5.graph, ctx.graph, out.list());
        assert(at_address(c4.graph, state.vals@, *perm, scale));
        assert(resource_combined(
            c0,
            *ctx,
            cert_of(*env, call.resource, call.args@.len()).unwrap(),
            state.vals@,
            heap_list(state.heaps@, base),
            sign,
            *call,
            *perm,
            pc.conds@,
            out,
            steps,
        ));
    }
    Ok(out)
}

proof fn lemma_scaled_grows(
    g: Graph,
    h: Graph,
    scale: Id,
    es: Seq<(Id, Chunk)>,
    r: Seq<(Id, Chunk)>,
    n: int,
)
    requires
        g.grows_to(h),
        scaled(g, scale, es, r, n),
    ensures
        scaled(h, scale, es, r, n),
{
    assert forall|i: int| 0 <= i < n implies (#[trigger] r[i]).0 == es[i].0 && r[i].1.value
        == es[i].1.value && h.has(r[i].1.perm) && h.denotes(
        r[i].1.perm,
        t_bin(BinOp::MulR, Tm::Class(scale), Tm::Class(es[i].1.perm)),
    ) by {
        lemma_grows_denotes(
            g,
            h,
            r[i].1.perm,
            t_bin(BinOp::MulR, Tm::Class(scale), Tm::Class(es[i].1.perm)),
        );
    }
}

} // verus!
