//! Folding and unfolding predicates.

use crate::context::{
    builds, cube_in, learns, lemma_cube_grows, lemma_leads_refl, lemma_leads_trans, Context,
};
use crate::graph::Graph;
use crate::lang::{FuncId, Id, OpV, Symbolic};
use crate::method::error::VerifyError;
use crate::method::eval::{
    add_app, at_address, collect_pc_lits, fresh_value, get_heap, get_val, get_vals, heap_list,
    heap_ok, is_symbol, lemma_heap_in, lemma_state_grows, lits_for, state_in, EvalState,
};
use crate::method::graft::{
    bool_result, delta_values, footprint_result, graft_footprint, graft_pred_bool,
    learns_cert, ResourceCertificate,
};
use crate::method::heapinst::{combine, put_in, taken_out};
use crate::method::merge::{
    canonical_list, canonicalize_heap, canonicalized, held, share, learns_agreements, lemma_entry_in,
};
use crate::method::plain::{addrs_differ, chunk_map, entries_in, lemma_entries_grow, Chunk, Heap};
use crate::method::resource::{assume_true, cert_missing, cert_of, find_cert, true_on, Env};
use crate::method::subtract::short_of;
use crate::model::{t_bin, t_bool, t_classes, t_ite, t_ltr, t_real, Model, Tm};
use crate::program::{Declaration, HeapVal, PathConds, PredMeta, Program, ResourceCall, Sign};
use crate::prove::{left_open, shown};
use crate::rewrite::recipe::{guards_ok, val_ok, val_tms, vals_ok};
use crate::rewrite::sound::follows;
use crate::terms::{
    built, denote_all, group_grows, lemma_denote_classes, lemma_denotes_self,
    lemma_grows_denote_all, lemma_grows_denotes, Expr,
};
use crate::types::Oracle;
use crate::vmir::{types_view, BinOp, MemberId, Polarity, Type, TypeV, Val, Value};
use vstd::prelude::*;

verus! {

broadcast use {
    vstd::std_specs::hash::group_hash_axioms,
    crate::context::lemma_builds_trans,
};

/// The declared result type of a function; `Int` where there is none.
pub open spec fn ret_type(p: Program, id: MemberId) -> TypeV {
    if id < p.decls@.len() {
        match p.decls@[id as int] {
            Declaration::Function(f) => f.ret@,
            _ => TypeV::Int,
        }
    } else {
        TypeV::Int
    }
}

/// The declared result type of a function; `Int` where there is none.
pub fn decl_ret_ty(p: &Program, id: MemberId) -> (r: Type)
    ensures
        r@ == ret_type(*p, id),
{
    if id < p.decls.len() {
        match &p.decls[id] {
            Declaration::Function(f) => f.ret.clone(),
            _ => Type::Int,
        }
    } else {
        Type::Int
    }
}

/// The functions of a predicate.
pub open spec fn pred_of(env: Env, id: MemberId) -> Option<PredMeta> {
    if id < env.program.decls@.len() {
        match env.program.decls@[id as int] {
            Declaration::Resource(r) => r.pred,
            _ => None,
        }
    } else {
        None
    }
}

fn find_pred<'a>(env: &Env<'a>, id: MemberId) -> (r: Option<&'a PredMeta>)
    ensures
        r is Some == pred_of(*env, id) is Some,
        r matches Some(p) ==> pred_of(*env, id) == Some(*p),
{
    if id < env.program.decls.len() {
        match &env.program.decls[id] {
            Declaration::Resource(r) => match &r.pred {
                Some(p) => Some(p),
                None => None,
            },
            _ => None,
        }
    } else {
        None
    }
}

/// What a slot of a snapshot holds: `Some` of the value where the permission is
/// positive, `None` elsewhere.
pub open spec fn member_tm(env: Env, elem: TypeV, perm: Id, v: Id) -> Tm {
    t_ite(
        t_ltr(t_real(0 as real), Tm::Class(perm)),
        Tm::App(OpV::FuncApp(env.option.some, seq![elem]), seq![Tm::Class(v)]),
        Tm::App(OpV::FuncApp(env.option.none, seq![elem]), Seq::empty()),
    )
}

/// What a slot of a snapshot gives back.
pub open spec fn unwrap_tm(env: Env, elem: TypeV, proj: MemberId, snap: Id) -> Tm {
    Tm::App(
        OpV::FuncApp(env.option.value, seq![elem]),
        seq![Tm::App(OpV::FuncApp(FuncId(proj), Seq::empty()), seq![Tm::Class(snap)])],
    )
}

fn one_type(ty: Type) -> (r: Vec<Type>)
    ensures
        types_view(r@) == seq![ty@],
{
    let mut out: Vec<Type> = Vec::new();
    out.push(ty);
    proof {
        crate::vmir::lemma_types_view(out@);
        assert(types_view(out@) =~= seq![ty@]);
    }
    out
}

fn no_types() -> (r: Vec<Type>)
    ensures
        types_view(r@) == Seq::<TypeV>::empty(),
{
    let r: Vec<Type> = Vec::new();
    proof {
        crate::vmir::lemma_types_view(r@);
        assert(types_view(r@) =~= Seq::empty());
    }
    r
}

fn one_id(id: Id) -> (r: Vec<Id>)
    ensures
        r@ == seq![id],
{
    let mut out: Vec<Id> = Vec::new();
    out.push(id);
    proof {
        assert(out@ =~= seq![id]);
    }
    out
}

/// The class of what a slot of a snapshot holds.
pub fn option_member(ctx: &mut Context, env: &Env, elem: Type, perm: Id, v: Id) -> (r: Id)
    requires
        old(ctx).wf(),
        old(ctx).graph.has(perm),
        old(ctx).graph.has(v),
    ensures
        old(ctx).leads_to(*final(ctx)),
        built(old(ctx).graph, final(ctx).graph, r, member_tm(*env, elem@, perm, v)),
{
    broadcast use {group_grows, lemma_denotes_self, lemma_grows_denote_all};

    let ghost c0 = *ctx;
    let present = ctx.build(&Expr::bin(BinOp::LtR, Expr::zero(), Expr::Class(perm)));
    let ghost c1 = *ctx;
    let n = Symbolic::FuncApp(env.option.some, one_type(elem.clone()), one_id(v));
    let ghost vs = seq![Tm::Class(v)];
    let some = add_app(ctx, &n, Ghost(vs));
    let ghost c2 = *ctx;
    let k = Symbolic::FuncApp(env.option.none, one_type(elem), Vec::new());
    let ghost none_args = Seq::<Tm>::empty();
    let none = add_app(ctx, &k, Ghost(none_args));
    let ghost c3 = *ctx;
    let ite = Symbolic::Ite([present, some, none]);
    let ghost args = seq![
        t_ltr(t_real(0 as real), Tm::Class(perm)),
        Tm::App(n@.op, vs),
        Tm::App(k@.op, none_args),
    ];
    proof {
        lemma_leads_trans(c0, c1, c2);
        lemma_leads_trans(c0, c2, c3);
        assert(ite@.args =~= seq![present, some, none]);
        assert(denote_all(c3.graph, ite@.args, args));
    }
    let r = add_app(ctx, &ite, Ghost(args));
    proof {
        lemma_leads_trans(c0, c3, *ctx);
        crate::terms::lemma_keeps_trans(c0.graph, c1.graph, c2.graph);
        crate::terms::lemma_keeps_trans(c0.graph, c2.graph, c3.graph);
        crate::terms::lemma_keeps_trans(c0.graph, c3.graph, ctx.graph);
        assert(Tm::App(ite@.op, args) == member_tm(*env, elem@, perm, v));
    }
    r
}

/// The class of what a slot of a snapshot gives back.
pub fn option_unwrap(ctx: &mut Context, env: &Env, elem: Type, proj: MemberId, snap: Id) -> (r: Id)
    requires
        old(ctx).wf(),
        old(ctx).graph.has(snap),
    ensures
        old(ctx).leads_to(*final(ctx)),
        built(old(ctx).graph, final(ctx).graph, r, unwrap_tm(*env, elem@, proj, snap)),
{
    broadcast use {group_grows, lemma_denotes_self, lemma_grows_denote_all};

    let ghost c0 = *ctx;
    let n = Symbolic::FuncApp(FuncId(proj), no_types(), one_id(snap));
    let ghost xs = seq![Tm::Class(snap)];
    let opt = add_app(ctx, &n, Ghost(xs));
    let ghost c1 = *ctx;
    let k = Symbolic::FuncApp(env.option.value, one_type(elem), one_id(opt));
    let ghost ys = seq![Tm::App(n@.op, xs)];
    let r = add_app(ctx, &k, Ghost(ys));
    proof {
        lemma_leads_trans(c0, c1, *ctx);
        crate::terms::lemma_keeps_trans(c0.graph, c1.graph, ctx.graph);
    }
    r
}

/// A slot of a predicate as folding takes it: the address and the scaled permission,
/// the value that the heap holds there, and what the snapshot holds of it.
pub open spec fn slot_folded(
    g: Graph,
    env: Env,
    heap: Map<Id, Chunk>,
    canon: Id,
    perm: Id,
    proj: MemberId,
    slot: (Id, Chunk),
    need: (Id, Chunk),
    member: Id,
) -> bool {
    &&& need.0 == slot.0
    &&& g.has(need.1.perm)
    &&& g.has(need.1.value)
    &&& g.has(member)
    &&& g.denotes(
        need.1.perm,
        t_bin(BinOp::MulR, Tm::Class(perm), Tm::Class(slot.1.perm)),
    )
    &&& if heap.dom().contains(canon) {
        need.1.value == heap[canon].value
    } else {
        is_symbol(g, need.1.value)
    }
    &&& g.denotes(
        member,
        member_tm(env, ret_type(*env.program, proj), slot.1.perm, need.1.value),
    )
}

proof fn lemma_slot_grows(
    g: Graph,
    h: Graph,
    env: Env,
    heap: Map<Id, Chunk>,
    canon: Id,
    perm: Id,
    proj: MemberId,
    slot: (Id, Chunk),
    need: (Id, Chunk),
    member: Id,
)
    requires
        g.grows_to(h),
        slot_folded(g, env, heap, canon, perm, proj, slot, need, member),
    ensures
        slot_folded(h, env, heap, canon, perm, proj, slot, need, member),
{
    broadcast use group_grows;

    if !heap.dom().contains(canon) {
        let n = choose|n: u32|
            g.denotes(need.1.value, #[trigger] crate::context::t_fresh(n));
        assert(h.denotes(need.1.value, crate::context::t_fresh(n)));
    }
}

/// The slots of a predicate as folding takes them.
pub open spec fn slots_folded(
    g: Graph,
    env: Env,
    at: Graph,
    heap: Map<Id, Chunk>,
    perm: Id,
    projs: Seq<MemberId>,
    fp: Seq<(Id, Chunk)>,
    needs: Seq<(Id, Chunk)>,
    members: Seq<Id>,
    n: int,
) -> bool {
    &&& needs.len() == n
    &&& members.len() == n
    &&& forall|i: int|
        0 <= i < n ==> slot_folded(
            g,
            env,
            heap,
            at.canon(fp[i].0),
            perm,
            projs[i],
            fp[i],
            #[trigger] needs[i],
            members[i],
        )
}

/// Reads the slots of a predicate out of a heap: what to take, and what the snapshot
/// holds.
fn fold_slots(
    ctx: &mut Context,
    env: &Env,
    types: &mut Oracle,
    heap: &Heap,
    perm: Id,
    projs: &Vec<MemberId>,
    fp: &Vec<(Id, Chunk)>,
) -> (r: (Vec<(Id, Chunk)>, Vec<Id>))
    requires
        old(ctx).wf(),
        old(ctx).graph.has(perm),
        entries_in(old(ctx).graph, heap.list()),
        entries_in(old(ctx).graph, fp@),
        fp@.len() == projs@.len(),
    ensures
        old(ctx).leads_to(*final(ctx)),
        builds(*old(ctx), *final(ctx)),
        entries_in(final(ctx).graph, r.0@),
        slots_folded(
            final(ctx).graph,
            *env,
            old(ctx).graph,
            heap@,
            perm,
            projs@,
            fp@,
            r.0@,
            r.1@,
            fp@.len() as int,
        ),
{
    broadcast use group_grows;

    let ghost c0 = *ctx;
    let mut needs: Vec<(Id, Chunk)> = Vec::new();
    let mut members: Vec<Id> = Vec::new();
    let keys = find_all(&ctx.graph, fp);
    let mut i: usize = 0;
    proof {
        lemma_leads_refl(c0);
    }
    while i < fp.len()
        invariant
            i <= fp@.len(),
            ctx.wf(),
            c0.leads_to(*ctx),
            c0.graph.has(perm),
            entries_in(c0.graph, heap.list()),
            entries_in(c0.graph, fp@),
            fp@.len() == projs@.len(),
            keys@.len() == fp@.len(),
            forall|k: int| 0 <= k < keys@.len() ==> #[trigger] keys@[k] == c0.graph.canon(fp@[k].0),
            builds(c0, *ctx),
            entries_in(ctx.graph, needs@),
            slots_folded(
                ctx.graph,
                *env,
                c0.graph,
                heap@,
                perm,
                projs@,
                fp@,
                needs@,
                members@,
                i as int,
            ),
        decreases fp.len() - i,
    {
        let ghost c1 = *ctx;
        let ghost had = needs@;
        let ghost held_members = members@;
        let (addr, slot) = fp[i];
        proof {
            assert(c0.graph.has(fp@[i as int].0));
            lemma_entries_grow(c0.graph, c1.graph, heap.list());
        }
        let v = match heap.value_at(keys[i]) {
            Some(v) => {
                proof {
                    lemma_entry_in(c1.graph, *heap, keys@[i as int]);
                    lemma_leads_refl(c1);
                }
                v
            },
            None => fresh_value(ctx, types, Type::Int),
        };
        let ghost c2 = *ctx;
        let need = ctx.build(
            &Expr::bin(BinOp::MulR, Expr::Class(perm), Expr::Class(slot.perm)),
        );
        let ghost c3 = *ctx;
        let elem = decl_ret_ty(env.program, projs[i]);
        let member = option_member(ctx, env, elem, slot.perm, v);
        needs.push((addr, Chunk::new(need, v)));
        members.push(member);
        proof {
            lemma_leads_trans(c0, c1, c2);
            lemma_leads_trans(c0, c2, c3);
            lemma_leads_trans(c0, c3, *ctx);
            lemma_leads_trans(c1, c2, c3);
            lemma_leads_trans(c1, c3, *ctx);
            if !heap@.dom().contains(keys@[i as int]) {
                let n = choose|n: u32| c2.graph.denotes(v, #[trigger] crate::context::t_fresh(n));
                lemma_leads_trans(c2, c3, *ctx);
                lemma_grows_denotes(c2.graph, ctx.graph, v, crate::context::t_fresh(n));
                assert(ctx.graph.denotes(v, crate::context::t_fresh(n)));
            }
            lemma_grows_denotes(
                c3.graph,
                ctx.graph,
                need,
                t_bin(BinOp::MulR, Tm::Class(perm), Tm::Class(slot.perm)),
            );
            assert forall|k: int| 0 <= k < i + 1 implies slot_folded(
                ctx.graph,
                *env,
                heap@,
                c0.graph.canon(fp@[k].0),
                perm,
                projs@[k],
                fp@[k],
                #[trigger] needs@[k],
                members@[k],
            ) by {
                if k < i {
                    assert(needs@[k] == had[k] && members@[k] == held_members[k]);
                    lemma_slot_grows(
                        c1.graph,
                        ctx.graph,
                        *env,
                        heap@,
                        c0.graph.canon(fp@[k].0),
                        perm,
                        projs@[k],
                        fp@[k],
                        had[k],
                        held_members[k],
                    );
                }
            }
            assert forall|k: int| 0 <= k < needs@.len() implies ctx.graph.has(
                (#[trigger] needs@[k]).0,
            ) && ctx.graph.has(needs@[k].1.perm) && ctx.graph.has(needs@[k].1.value) by {
                if k < i {
                    assert(needs@[k] == had[k]);
                }
            }
        }
        i += 1;
    }
    (needs, members)
}

fn find_all(g: &Graph, fp: &Vec<(Id, Chunk)>) -> (r: Vec<Id>)
    requires
        g.wf(),
        entries_in(*g, fp@),
    ensures
        r@.len() == fp@.len(),
        forall|k: int| 0 <= k < r@.len() ==> #[trigger] r@[k] == g.canon(fp@[k].0),
{
    let mut out: Vec<Id> = Vec::new();
    let mut i: usize = 0;
    while i < fp.len()
        invariant
            i <= fp@.len(),
            g.wf(),
            entries_in(*g, fp@),
            out@.len() == i,
            forall|k: int| 0 <= k < i ==> #[trigger] out@[k] == g.canon(fp@[k].0),
        decreases fp.len() - i,
    {
        proof {
            assert(g.has(fp@[i as int].0));
        }
        out.push(g.find(fp[i].0));
        i += 1;
    }
    out
}

/// A heap that entries were put into in turn. A later entry of an address wins.
fn heap_of(es: &Vec<(Id, Chunk)>, g: Ghost<Graph>) -> (r: Heap)
    requires
        entries_in(g@, es@),
    ensures
        r@ == chunk_map(es@),
        addrs_differ(es@) ==> r.list() == es@,
        entries_in(g@, r.list()),
{
    let mut out = Heap::empty();
    let mut i: usize = 0;
    proof {
        assert(es@.take(0) =~= Seq::empty());
        assert(out.list() =~= Seq::empty());
    }
    while i < es.len()
        invariant
            i <= es@.len(),
            entries_in(g@, es@),
            out@ == chunk_map(es@.take(i as int)),
            addrs_differ(es@) ==> out.list() == es@.take(i as int),
            entries_in(g@, out.list()),
        decreases es.len() - i,
    {
        proof {
            assert(es@.take(i + 1).drop_last() =~= es@.take(i as int));
            assert(g@.has(es@[i as int].0));
            if addrs_differ(es@) {
                let had = es@.take(i as int);
                assert forall|j: int, k: int| 0 <= j < k < had.len() implies (#[trigger] had[j]).0
                    != (#[trigger] had[k]).0 by {
                    assert(es@[j].0 != es@[k].0);
                }
                crate::method::plain::lemma_chunk_map(had);
                if out@.dom().contains(es@[i as int].0) {
                    let j = choose|j: int|
                        0 <= j < had.len() && (#[trigger] had[j]).0 == es@[i as int].0;
                    assert(es@[j].0 != es@[i as int].0);
                }
                assert(had.push(es@[i as int]) =~= es@.take(i + 1));
            }
        }
        out = out.with_chunk(es[i].0, es[i].1);
        i += 1;
    }
    proof {
        assert(es@.take(es@.len() as int) =~= es@);
    }
    out
}

fn values_of(es: &Vec<(Id, Chunk)>) -> (r: Vec<Id>)
    ensures
        r@ == Seq::new(es@.len(), |i: int| es@[i].1.value),
{
    let ghost all = Seq::new(es@.len(), |i: int| es@[i].1.value);
    let mut out: Vec<Id> = Vec::new();
    let mut i: usize = 0;
    while i < es.len()
        invariant
            i <= es@.len(),
            all == Seq::new(es@.len(), |i: int| es@[i].1.value),
            out@ == all.take(i as int),
        decreases es.len() - i,
    {
        out.push(es[i].1.value);
        i += 1;
        proof {
            assert(all.take(i as int) =~= all.take(i - 1).push(all[i - 1]));
        }
    }
    proof {
        assert(all.take(es@.len() as int) =~= all);
    }
    out
}

/// The operands of a call on a path: its arguments, its permission and the literals of
/// the path.
pub open spec fn operands(
    a: Context,
    b: Context,
    vals: Seq<Id>,
    call: ResourceCall,
    perm: Val,
    conds: Seq<(Val, Polarity)>,
    args: Seq<Id>,
    p: Id,
    lits: Seq<(Id, Polarity)>,
) -> bool {
    &&& a.leads_to(b)
    &&& builds(a, b)
    &&& denote_all(b.graph, args, val_tms(t_classes(vals), call.args@))
    &&& at_address(b.graph, vals, perm, p)
    &&& lits_for(b.graph, vals, conds, lits)
}

fn read_operands(
    ctx: &mut Context,
    vals: &Vec<Id>,
    call: &ResourceCall,
    perm: &Val,
    pc: &PathConds,
) -> (r: (Vec<Id>, Id, Vec<(Id, Polarity)>))
    requires
        old(ctx).wf(),
        old(ctx).graph.has_all(vals@),
        vals_ok(call.args@, vals@.len()),
        val_ok(*perm, vals@.len()),
        guards_ok(pc.conds@, vals@.len()),
    ensures
        operands(
            *old(ctx),
            *final(ctx),
            vals@,
            *call,
            *perm,
            pc.conds@,
            r.0@,
            r.1,
            r.2@,
        ),
        final(ctx).graph.has_all(r.0@),
        r.0@.len() == call.args@.len(),
        final(ctx).graph.has(r.1),
        cube_in(final(ctx).graph, r.2@),
{
    broadcast use {group_grows, lemma_grows_denote_all};

    let ghost c0 = *ctx;
    let args = get_vals(ctx, vals, &call.args);
    let ghost c1 = *ctx;
    proof {
        lemma_all_grow(c0.graph, c1.graph, vals@);
    }
    let p = get_val(ctx, vals, perm);
    let ghost c2 = *ctx;
    proof {
        lemma_all_grow(c1.graph, c2.graph, vals@);
    }
    let lits = collect_pc_lits(ctx, vals, pc);
    proof {
        lemma_leads_trans(c0, c1, c2);
        lemma_leads_trans(c0, c2, *ctx);
        lemma_leads_trans(c1, c2, *ctx);
        assert(denote_all(ctx.graph, args@, val_tms(t_classes(vals@), call.args@)));
        assert forall|j: int| 0 <= j < args@.len() implies ctx.graph.has(#[trigger] args@[j]) by {}
        assert(at_address(ctx.graph, vals@, *perm, p));
    }
    (args, p, lits)
}

proof fn lemma_all_grow(g: Graph, h: Graph, ids: Seq<Id>)
    requires
        g.grows_to(h),
        g.has_all(ids),
    ensures
        h.has_all(ids),
{
    assert forall|j: int| 0 <= j < ids.len() implies h.has(#[trigger] ids[j]) by {
        assert(g.has(ids[j]));
    }
}

/// The application of a function without type arguments to classes.
pub open spec fn app_tm(f: MemberId, args: Seq<Id>) -> Tm {
    Tm::App(OpV::FuncApp(FuncId(f), Seq::empty()), t_classes(args))
}

/// The class of a function applied to classes.
pub fn func_app(ctx: &mut Context, f: MemberId, args: &Vec<Id>) -> (r: Id)
    requires
        old(ctx).wf(),
        old(ctx).graph.has_all(args@),
    ensures
        old(ctx).leads_to(*final(ctx)),
        built(old(ctx).graph, final(ctx).graph, r, app_tm(f, args@)),
{
    let copy = crate::method::graft::join_ids(args, &Vec::new());
    let n = Symbolic::FuncApp(FuncId(f), no_types(), copy);
    let ghost ts = t_classes(args@);
    proof {
        assert(copy@ =~= args@);
        lemma_denote_classes(ctx.graph, args@);
    }
    add_app(ctx, &n, Ghost(ts))
}

/// The steps of folding a predicate.
pub ghost struct FoldSteps {
    pub ready: Context,
    pub asked: Context,
    pub flat: Context,
    pub read: Context,
    pub taken: Context,
    pub told: Context,
    pub proven: Context,
    pub stored: Context,
    pub joined: Context,
    pub args: Seq<Id>,
    pub perm: Id,
    pub lits: Seq<(Id, Polarity)>,
    pub fp: Seq<(Id, Chunk)>,
    pub base: Heap,
    pub canon: Heap,
    pub needs: Seq<(Id, Chunk)>,
    pub members: Seq<Id>,
    pub need: Heap,
    pub less: Heap,
    pub bool_id: Id,
    pub snap: Id,
    pub addr: Id,
    pub pred: Heap,
}

/// The values of a list of entries.
pub open spec fn entry_values(es: Seq<(Id, Chunk)>) -> Seq<Id> {
    Seq::new(es.len(), |i: int| es[i].1.value)
}

/// What a predicate asks for was read: its footprint, scaled, with the values that
/// the base holds.
pub open spec fn fold_asked(
    a: Context,
    env: Env,
    cert: ResourceCertificate,
    meta: PredMeta,
    vals: Seq<Id>,
    base: Seq<(Id, Chunk)>,
    call: ResourceCall,
    perm: Val,
    conds: Seq<(Val, Polarity)>,
    s: FoldSteps,
) -> bool {
    &&& operands(a, s.ready, vals, call, perm, conds, s.args, s.perm, s.lits)
    &&& learns_cert(cert.graph, cert.params@, s.args, s.ready, s.asked)
    &&& footprint_result(cert, s.args, s.asked.graph, s.fp)
    &&& s.base.list() == base
    &&& learns_agreements(
        s.asked,
        s.flat,
        Seq::empty(),
        canonical_list(s.asked.graph, base),
    )
    &&& canonicalized(s.asked.graph, s.flat.graph, s.base, s.canon)
    &&& s.flat.leads_to(s.read)
    &&& builds(s.flat, s.read)
    &&& slots_folded(
        s.read.graph,
        env,
        s.flat.graph,
        s.canon@,
        s.perm,
        meta.snap_projs@,
        s.fp,
        s.needs,
        s.members,
        s.fp.len() as int,
    )
    &&& s.need@ == chunk_map(s.needs)
    &&& addrs_differ(s.needs) ==> s.need.list() == s.needs
}

/// A predicate was not folded: the base is short of its footprint; or that was there,
/// and only the boolean was not shown.
pub open spec fn fold_refused(
    a: Context,
    d: Context,
    env: Env,
    cert: ResourceCertificate,
    meta: PredMeta,
    vals: Seq<Id>,
    base: Seq<(Id, Chunk)>,
    call: ResourceCall,
    perm: Val,
    conds: Seq<(Val, Polarity)>,
    e: VerifyError,
    s: FoldSteps,
) -> bool {
    &&& fold_asked(a, env, cert, meta, vals, base, call, perm, conds, s)
    &&& match e {
        VerifyError::InsufficientPermission => short_of(s.read, d, s.lits, base, s.need.list()),
        VerifyError::AssertionFailed => {
            &&& taken_out(s.read, s.taken, s.lits, base, s.need, s.less)
            &&& learns_cert(cert.graph, cert.params@ + delta_values(cert), s.args + entry_values(s.needs), s.taken, s.told)
            &&& bool_result(cert, s.args, entry_values(s.needs), s.told.graph, s.bool_id)
            &&& left_open(s.told, d, s.lits, s.bool_id)
        },
        _ => false,
    }
}

/// A predicate was folded. Its footprint, scaled, was taken out of the base and its
/// boolean proven on the path. In its place stands the permission to the address of
/// the predicate, with the snapshot of what was taken as the value.
pub open spec fn folded(
    a: Context,
    b: Context,
    env: Env,
    cert: ResourceCertificate,
    meta: PredMeta,
    vals: Seq<Id>,
    base: Seq<(Id, Chunk)>,
    call: ResourceCall,
    perm: Val,
    conds: Seq<(Val, Polarity)>,
    r: Heap,
    s: FoldSteps,
) -> bool {
    &&& fold_asked(a, env, cert, meta, vals, base, call, perm, conds, s)
    &&& taken_out(s.read, s.taken, s.lits, base, s.need, s.less)
    &&& learns_cert(cert.graph, cert.params@ + delta_values(cert), s.args + entry_values(s.needs), s.taken, s.told)
    &&& bool_result(cert, s.args, entry_values(s.needs), s.told.graph, s.bool_id)
    &&& s.told.leads_to(s.proven)
    &&& shown(s.told, s.lits, s.bool_id)
    &&& true_on(s.proven.graph, s.lits, s.bool_id)
    &&& s.proven.leads_to(s.stored)
    &&& builds(s.proven, s.stored)
    &&& s.stored.graph.denotes(s.snap, app_tm(meta.snap_cons, s.members))
    &&& s.stored.graph.denotes(s.addr, app_tm(meta.addr_fn, s.args))
    &&& s.pred.list() == seq![(s.addr, Chunk { perm: s.perm, value: s.snap })]
    &&& put_in(s.stored, s.joined, s.lits, s.less.list(), s.pred, r)
    &&& s.joined.leads_to(b)
    &&& follows(s.joined.graph, b.graph, s.joined.background())
}

/// The heap of one chunk.
fn one_chunk(addr: Id, c: Chunk, g: Ghost<Graph>) -> (r: Heap)
    requires
        g@.has(addr),
        g@.has(c.perm),
        g@.has(c.value),
    ensures
        r.list() == seq![(addr, c)],
        entries_in(g@, r.list()),
{
    let none = Heap::empty();
    let r = none.with_chunk(addr, c);
    proof {
        assert(none.list() =~= Seq::empty());
        assert(!none@.dom().contains(addr));
        assert(r.list() =~= seq![(addr, c)]);
        assert(entries_in(g@, none.list()));
    }
    r
}

/// Folds a predicate.
#[verifier::rlimit(80)]
#[verifier::spinoff_prover]
pub fn fold(
    ctx: &mut Context,
    env: &Env,
    state: &mut EvalState,
    base: HeapVal,
    call: &ResourceCall,
    perm: &Val,
    pc: &PathConds,
) -> (r: Result<Heap, VerifyError>)
    requires
        old(ctx).wf(),
        env.wf(),
        state_in(old(ctx).graph, old(state).vals@, old(state).heaps@),
        heap_ok(base, old(state).heaps@.len()),
        vals_ok(call.args@, old(state).vals@.len()),
        val_ok(*perm, old(state).vals@.len()),
        guards_ok(pc.conds@, old(state).vals@.len()),
    ensures
        old(ctx).leads_to(*final(ctx)),
        final(state).vals == old(state).vals,
        final(state).heaps == old(state).heaps,
        pred_of(*env, call.resource) is None ==> r == Err::<Heap, VerifyError>(
            VerifyError::Unimplemented("fold of non-flat/abstract predicate"),
        ),
        pred_of(*env, call.resource) is Some && cert_of(
            *env,
            call.resource,
            call.args@.len(),
        ) is None ==> r == Err::<Heap, VerifyError>(cert_missing(*env, call.resource)),
        r matches Err(e) ==> !(e is AtInst),
        match (pred_of(*env, call.resource), cert_of(*env, call.resource, call.args@.len())) {
            (Some(meta), Some(cert)) => if cert.delta@.len() != meta.snap_projs@.len() {
                r == Err::<Heap, VerifyError>(
                    VerifyError::Unimplemented("predicate footprint shape mismatch"),
                )
            } else {
                r matches Err(e) ==> exists|s: FoldSteps| #[trigger]
                    fold_refused(
                        *old(ctx),
                        *final(ctx),
                        *env,
                        cert,
                        meta,
                        old(state).vals@,
                        heap_list(old(state).heaps@, base),
                        *call,
                        *perm,
                        pc.conds@,
                        e,
                        s,
                    )
            },
            _ => true,
        },
        r matches Ok(h) ==> entries_in(final(ctx).graph, h.list()) && exists|s: FoldSteps|
            #[trigger] folded(
                *old(ctx),
                *final(ctx),
                *env,
                cert_of(*env, call.resource, call.args@.len()).unwrap(),
                pred_of(*env, call.resource).unwrap(),
                old(state).vals@,
                heap_list(old(state).heaps@, base),
                *call,
                *perm,
                pc.conds@,
                h,
                s,
            ),
{
    broadcast use group_grows;

    let ghost c0 = *ctx;
    proof {
        lemma_leads_refl(c0);
    }
    let base_h = get_heap(&state.heaps, base);
    let meta = match find_pred(env, call.resource) {
        Some(m) => m,
        None => {
            return Err(VerifyError::Unimplemented("fold of non-flat/abstract predicate"));
        },
    };
    let cert = match find_cert(env, call) {
        Ok(c) => c,
        Err(e) => {
            return Err(e);
        },
    };
    let (args, p, lits) = read_operands(ctx, &state.vals, call, perm, pc);
    let ghost c1 = *ctx;
    let fp = graft_footprint(ctx, cert, &args);
    let ghost c2 = *ctx;
    proof {
        lemma_leads_trans(c0, c1, c2);
    }
    if fp.len() != meta.snap_projs.len() {
        return Err(VerifyError::Unimplemented("predicate footprint shape mismatch"));
    }
    proof {
        lemma_state_grows(c0.graph, c2.graph, state.vals@, state.heaps@);
        lemma_heap_in(c2.graph, state.vals@, state.heaps@, base);
    }
    let always: Vec<(Id, Polarity)> = Vec::new();
    let canon = canonicalize_heap(ctx, &base_h, &always);
    let ghost c3 = *ctx;
    proof {
        assert(always@ =~= Seq::empty());
        lemma_leads_trans(c1, c2, c3);
        lemma_leads_trans(c0, c1, c3);
        lemma_entries_grow(c2.graph, c3.graph, fp@);
    }
    let (needs, members) = fold_slots(
        ctx,
        env,
        &mut state.types,
        &canon,
        p,
        &meta.snap_projs,
        &fp,
    );
    let ghost c4 = *ctx;
    let need = heap_of(&needs, Ghost(c4.graph));
    proof {
        lemma_leads_trans(c1, c3, c4);
        lemma_leads_trans(c0, c1, c4);
        lemma_state_grows(c0.graph, c4.graph, state.vals@, state.heaps@);
        lemma_heap_in(c4.graph, state.vals@, state.heaps@, base);
        lemma_cube_grows(c1.graph, c4.graph, lits@);
    }
    let less = match combine(ctx, Sign::Sub, &base_h, &need, &lits) {
        Ok(h) => h,
        Err(e) => {
            proof {
                lemma_leads_trans(c0, c4, *ctx);
                let steps = FoldSteps {
                    ready: c1,
                    asked: c2,
                    flat: c3,
                    read: c4,
                    taken: c4,
                    told: c4,
                    proven: c4,
                    stored: c4,
                    joined: c4,
                    args: args@,
                    perm: p,
                    lits: lits@,
                    fp: fp@,
                    base: base_h,
                    canon,
                    needs: needs@,
                    members: members@,
                    need,
                    less: need,
                    bool_id: p,
                    snap: p,
                    addr: p,
                    pred: need,
                };
                assert(fold_refused(
                    c0,
                    *ctx,
                    *env,
                    *cert,
                    *meta,
                    state.vals@,
                    heap_list(state.heaps@, base),
                    *call,
                    *perm,
                    pc.conds@,
                    e,
                    steps,
                ));
            }
            return Err(e);
        },
    };
    let ghost c5 = *ctx;
    let values = values_of(&needs);
    proof {
        lemma_leads_trans(c1, c4, c5);
        lemma_leads_trans(c0, c1, c5);
        lemma_all_grow(c1.graph, c5.graph, args@);
        assert forall|j: int| 0 <= j < values@.len() implies c5.graph.has(#[trigger] values@[j]) by {
            assert(c4.graph.has(needs@[j].0));
        }
    }
    let bool_id = graft_pred_bool(ctx, cert, &args, &values);
    let ghost c6 = *ctx;
    proof {
        lemma_leads_trans(c1, c5, c6);
        lemma_leads_trans(c0, c1, c6);
        lemma_cube_grows(c1.graph, c6.graph, lits@);
    }
    if !ctx.prove_under_pc(bool_id, &lits) {
        proof {
            lemma_leads_trans(c0, c6, *ctx);
            let steps = FoldSteps {
                ready: c1,
                asked: c2,
                flat: c3,
                read: c4,
                taken: c5,
                told: c6,
                proven: c6,
                stored: c6,
                joined: c6,
                args: args@,
                perm: p,
                lits: lits@,
                fp: fp@,
                base: base_h,
                canon,
                needs: needs@,
                members: members@,
                need,
                less,
                bool_id,
                snap: p,
                addr: p,
                pred: need,
            };
            assert(entry_values(needs@) =~= values@);
            assert(left_open(c6, *ctx, lits@, bool_id));
            assert(fold_asked(
                c0,
                *env,
                *cert,
                *meta,
                state.vals@,
                heap_list(state.heaps@, base),
                *call,
                *perm,
                pc.conds@,
                steps,
            ));
            assert(fold_refused(
                c0,
                *ctx,
                *env,
                *cert,
                *meta,
                state.vals@,
                heap_list(state.heaps@, base),
                *call,
                *perm,
                pc.conds@,
                VerifyError::AssertionFailed,
                steps,
            ));
        }
        return Err(VerifyError::AssertionFailed);
    }
    let ghost c7 = *ctx;
    proof {
        lemma_leads_trans(c5, c6, c7);
        lemma_leads_trans(c4, c5, c7);
        lemma_leads_trans(c1, c4, c7);
        lemma_leads_trans(c0, c1, c7);
        assert forall|j: int| 0 <= j < members@.len() implies c7.graph.has(#[trigger] members@[j]) by {
            assert(slot_folded(
                c4.graph,
                *env,
                canon@,
                c3.graph.canon(fp@[j].0),
                p,
                meta.snap_projs@[j],
                fp@[j],
                needs@[j],
                members@[j],
            ));
        }
        lemma_all_grow(c1.graph, c7.graph, args@);
        assert(shown(c6, lits@, bool_id));
        assert(true_on(c7.graph, lits@, bool_id));
    }
    let snap = func_app(ctx, meta.snap_cons, &members);
    let ghost c8 = *ctx;
    proof {
        lemma_all_grow(c7.graph, c8.graph, args@);
    }
    let addr = func_app(ctx, meta.addr_fn, &args);
    let ghost c9 = *ctx;
    proof {
        lemma_leads_trans(c7, c8, c9);
        lemma_leads_trans(c5, c7, c9);
        lemma_leads_trans(c1, c7, c9);
        lemma_leads_trans(c0, c1, c9);
        lemma_grows_denotes(c8.graph, c9.graph, snap, app_tm(meta.snap_cons, members@));
        lemma_entries_grow(c5.graph, c9.graph, less.list());
        lemma_cube_grows(c1.graph, c9.graph, lits@);
    }
    let pred = one_chunk(addr, Chunk::new(p, snap), Ghost(c9.graph));
    let out = match combine(ctx, Sign::Add, &less, &pred, &lits) {
        Ok(h) => h,
        Err(e) => {
            proof {
                lemma_leads_trans(c0, c9, *ctx);
            }
            return Err(e);
        },
    };
    let ghost c10 = *ctx;
    ctx.reduce();
    proof {
        lemma_leads_trans(c0, c9, c10);
        lemma_leads_trans(c0, c10, *ctx);
        lemma_entries_grow(c10.graph, ctx.graph, out.list());
        let steps = FoldSteps {
            ready: c1,
            asked: c2,
            flat: c3,
            read: c4,
            taken: c5,
            told: c6,
            proven: c7,
            stored: c9,
            joined: c10,
            args: args@,
            perm: p,
            lits: lits@,
            fp: fp@,
            base: base_h,
            canon,
            needs: needs@,
            members: members@,
            need,
            less,
            bool_id,
            snap,
            addr,
            pred,
        };
        assert(entry_values(needs@) =~= values@);
        assert(folded(
            c0,
            *ctx,
            *env,
            cert_of(*env, call.resource, call.args@.len()).unwrap(),
            pred_of(*env, call.resource).unwrap(),
            state.vals@,
            heap_list(state.heaps@, base),
            *call,
            *perm,
            pc.conds@,
            out,
            steps,
        ));
    }
    Ok(out)
}

/// A slot of a predicate as unfolding gives it: the address and the scaled permission,
/// and the value that the snapshot holds.
pub open spec fn slot_unfolded(
    g: Graph,
    env: Env,
    perm: Id,
    proj: MemberId,
    snap: Id,
    slot: (Id, Chunk),
    give: (Id, Chunk),
) -> bool {
    &&& give.0 == slot.0
    &&& g.has(give.0)
    &&& g.has(give.1.perm)
    &&& g.has(give.1.value)
    &&& g.denotes(
        give.1.perm,
        t_bin(BinOp::MulR, Tm::Class(perm), Tm::Class(slot.1.perm)),
    )
    &&& g.denotes(give.1.value, unwrap_tm(env, ret_type(*env.program, proj), proj, snap))
}

/// Entries put into a heap one after the other: the heap and the context after each,
/// and the context in which each was at hand.
pub ghost struct PutTrail {
    pub heaps: Seq<Heap>,
    pub after: Seq<Context>,
    pub before: Seq<Context>,
    pub ones: Seq<Heap>,
}

/// One step of a trail.
pub open spec fn put_step(
    t: PutTrail,
    env: Env,
    lits: Seq<(Id, Polarity)>,
    perm: Id,
    projs: Seq<MemberId>,
    snap: Id,
    fp: Seq<(Id, Chunk)>,
    gives: Seq<(Id, Chunk)>,
    i: int,
) -> bool {
    &&& t.after[i].leads_to(t.before[i])
    &&& builds(t.after[i], t.before[i])
    &&& slot_unfolded(t.before[i].graph, env, perm, projs[i], snap, fp[i], gives[i])
    &&& t.ones[i].list() == seq![gives[i]]
    &&& t.before[i].leads_to(t.after[i + 1])
    &&& put_in(
        t.before[i],
        t.after[i + 1],
        lits,
        t.heaps[i].list(),
        t.ones[i],
        t.heaps[i + 1],
    )
}

/// The slots of a predicate were put into a heap.
pub open spec fn slots_put(
    a: Context,
    b: Context,
    env: Env,
    lits: Seq<(Id, Polarity)>,
    perm: Id,
    projs: Seq<MemberId>,
    snap: Id,
    fp: Seq<(Id, Chunk)>,
    base: Heap,
    gives: Seq<(Id, Chunk)>,
    r: Heap,
    t: PutTrail,
) -> bool {
    let n = gives.len() as int;
    &&& t.heaps.len() == n + 1
    &&& t.after.len() == n + 1
    &&& t.before.len() == n
    &&& t.ones.len() == n
    &&& t.heaps[0] == base
    &&& t.heaps[n] == r
    &&& t.after[0] == a
    &&& t.after[n] == b
    &&& forall|i: int|
        0 <= i < n ==> #[trigger] put_step(t, env, lits, perm, projs, snap, fp, gives, i)
}

proof fn lemma_put_pushed(
    t: PutTrail,
    u: PutTrail,
    env: Env,
    lits: Seq<(Id, Polarity)>,
    perm: Id,
    projs: Seq<MemberId>,
    snap: Id,
    fp: Seq<(Id, Chunk)>,
    gives: Seq<(Id, Chunk)>,
    more: Seq<(Id, Chunk)>,
    i: int,
)
    requires
        0 <= i < gives.len(),
        t.heaps.len() == gives.len() + 1,
        t.after.len() == gives.len() + 1,
        t.before.len() == gives.len(),
        t.ones.len() == gives.len(),
        put_step(t, env, lits, perm, projs, snap, fp, gives, i),
        u.heaps.len() == t.heaps.len() + 1 && u.heaps.drop_last() =~= t.heaps,
        u.after.len() == t.after.len() + 1 && u.after.drop_last() =~= t.after,
        u.before.len() == t.before.len() + 1 && u.before.drop_last() =~= t.before,
        u.ones.len() == t.ones.len() + 1 && u.ones.drop_last() =~= t.ones,
        more.len() == gives.len() + 1 && more.drop_last() =~= gives,
    ensures
        put_step(u, env, lits, perm, projs, snap, fp, more, i),
{
    assert(u.heaps.drop_last()[i] == u.heaps[i]);
    assert(u.heaps.drop_last()[i + 1] == u.heaps[i + 1]);
    assert(u.after.drop_last()[i] == u.after[i]);
    assert(u.after.drop_last()[i + 1] == u.after[i + 1]);
    assert(u.before.drop_last()[i] == u.before[i]);
    assert(u.ones.drop_last()[i] == u.ones[i]);
    assert(more.drop_last()[i] == more[i]);
}

/// Puts the slots of a predicate into a heap, with the values that the snapshot holds.
fn unfold_slots(
    ctx: &mut Context,
    env: &Env,
    base: Heap,
    perm: Id,
    projs: &Vec<MemberId>,
    snap: Id,
    fp: &Vec<(Id, Chunk)>,
    lits: &Vec<(Id, Polarity)>,
) -> (r: (Heap, Vec<(Id, Chunk)>))
    requires
        old(ctx).wf(),
        old(ctx).graph.has(perm),
        old(ctx).graph.has(snap),
        entries_in(old(ctx).graph, base.list()),
        entries_in(old(ctx).graph, fp@),
        fp@.len() == projs@.len(),
        cube_in(old(ctx).graph, lits@),
    ensures
        old(ctx).leads_to(*final(ctx)),
        entries_in(final(ctx).graph, r.0.list()),
        entries_in(final(ctx).graph, r.1@),
        r.1@.len() == fp@.len(),
        exists|t: PutTrail| #[trigger]
            slots_put(
                *old(ctx),
                *final(ctx),
                *env,
                lits@,
                perm,
                projs@,
                snap,
                fp@,
                base,
                r.1@,
                r.0,
                t,
            ),
{
    let ghost c0 = *ctx;
    let ghost start = base;
    let mut out = base;
    let mut gives: Vec<(Id, Chunk)> = Vec::new();
    let ghost mut t = PutTrail {
        heaps: seq![start],
        after: seq![c0],
        before: Seq::empty(),
        ones: Seq::empty(),
    };
    let mut i: usize = 0;
    proof {
        lemma_leads_refl(c0);
    }
    while i < fp.len()
        invariant
            i <= fp@.len(),
            ctx.wf(),
            c0.leads_to(*ctx),
            c0.graph.has(perm),
            c0.graph.has(snap),
            entries_in(c0.graph, fp@),
            fp@.len() == projs@.len(),
            cube_in(c0.graph, lits@),
            entries_in(ctx.graph, out.list()),
            entries_in(ctx.graph, gives@),
            gives@.len() == i,
            slots_put(
                c0,
                *ctx,
                *env,
                lits@,
                perm,
                projs@,
                snap,
                fp@,
                start,
                gives@,
                out,
                t,
            ),
        decreases fp.len() - i,
    {
        let ghost c1 = *ctx;
        let ghost had = gives@;
        let ghost was = out;
        let ghost t0 = t;
        let (addr, slot) = fp[i];
        proof {
            assert(c0.graph.has(fp@[i as int].0));
        }
        let elem = decl_ret_ty(env.program, projs[i]);
        let v = option_unwrap(ctx, env, elem, projs[i], snap);
        let ghost c2 = *ctx;
        let need = ctx.build(
            &Expr::bin(BinOp::MulR, Expr::Class(perm), Expr::Class(slot.perm)),
        );
        let ghost c3 = *ctx;
        proof {
            lemma_leads_trans(c1, c2, c3);
            lemma_leads_trans(c0, c1, c3);
            lemma_grows_denotes(
                c2.graph,
                c3.graph,
                v,
                unwrap_tm(*env, ret_type(*env.program, projs@[i as int]), projs@[i as int], snap),
            );
            lemma_entries_grow(c1.graph, c3.graph, was.list());
            lemma_entries_grow(c1.graph, c3.graph, had);
            lemma_cube_grows(c0.graph, c3.graph, lits@);
        }
        let give = (addr, Chunk::new(need, v));
        let one = one_chunk(addr, give.1, Ghost(c3.graph));
        gives.push(give);
        out =
        match combine(ctx, Sign::Add, &out, &one, lits) {
            Ok(h) => h,
            Err(_) => out,
        };
        proof {
            lemma_leads_trans(c0, c3, *ctx);
            lemma_entries_grow(c3.graph, ctx.graph, had);
            assert forall|k: int| 0 <= k < gives@.len() implies ctx.graph.has(
                (#[trigger] gives@[k]).0,
            ) && ctx.graph.has(gives@[k].1.perm) && ctx.graph.has(gives@[k].1.value) by {
                if k < i {
                    assert(gives@[k] == had[k]);
                }
            }
            t = PutTrail {
                heaps: t0.heaps.push(out),
                after: t0.after.push(*ctx),
                before: t0.before.push(c3),
                ones: t0.ones.push(one),
            };
            assert(gives@.drop_last() =~= had);
            assert(t.heaps.drop_last() =~= t0.heaps);
            assert(t.after.drop_last() =~= t0.after);
            assert(t.before.drop_last() =~= t0.before);
            assert(t.ones.drop_last() =~= t0.ones);
            assert(t.heaps[0] == t0.heaps[0]);
            assert(t.after[0] == t0.after[0]);
            assert forall|k: int| 0 <= k < gives@.len() implies #[trigger] put_step(
                t,
                *env,
                lits@,
                perm,
                projs@,
                snap,
                fp@,
                gives@,
                k,
            ) by {
                if k < i {
                    assert(put_step(t0, *env, lits@, perm, projs@, snap, fp@, had, k));
                    lemma_put_pushed(
                        t0,
                        t,
                        *env,
                        lits@,
                        perm,
                        projs@,
                        snap,
                        fp@,
                        had,
                        gives@,
                        k,
                    );
                } else {
                    assert(t.after[k] == t0.after[k]);
                    assert(t.heaps[k] == t0.heaps[k]);
                }
            }
        }
        i += 1;
    }
    let r = (out, gives);
    proof {
        assert(slots_put(
            c0,
            *ctx,
            *env,
            lits@,
            perm,
            projs@,
            snap,
            fp@,
            start,
            r.1@,
            r.0,
            t,
        ));
    }
    r
}

/// The trail of nothing put in.
spec fn no_trail() -> PutTrail {
    PutTrail {
        heaps: Seq::empty(),
        after: Seq::empty(),
        before: Seq::empty(),
        ones: Seq::empty(),
    }
}

/// The steps of unfolding a predicate.
pub ghost struct UnfoldSteps {
    pub ready: Context,
    pub named: Context,
    pub flat: Context,
    pub taken: Context,
    pub asked: Context,
    pub given: Context,
    pub told: Context,
    pub known: Context,
    pub args: Seq<Id>,
    pub perm: Id,
    pub lits: Seq<(Id, Polarity)>,
    pub addr: Id,
    pub base: Heap,
    pub canon: Heap,
    pub pred: Heap,
    pub less: Heap,
    pub fp: Seq<(Id, Chunk)>,
    pub gives: Seq<(Id, Chunk)>,
    pub bool_id: Id,
    pub trail: PutTrail,
}

/// The address of a predicate was found in the base, or not.
pub open spec fn unfold_asked(
    a: Context,
    meta: PredMeta,
    vals: Seq<Id>,
    base: Seq<(Id, Chunk)>,
    call: ResourceCall,
    perm: Val,
    conds: Seq<(Val, Polarity)>,
    s: UnfoldSteps,
) -> bool {
    &&& operands(a, s.ready, vals, call, perm, conds, s.args, s.perm, s.lits)
    &&& s.ready.leads_to(s.named)
    &&& builds(s.ready, s.named)
    &&& s.named.graph.denotes(s.addr, app_tm(meta.addr_fn, s.args))
    &&& s.base.list() == base
    &&& learns_agreements(
        s.named,
        s.flat,
        Seq::empty(),
        canonical_list(s.named.graph, base),
    )
    &&& canonicalized(s.named.graph, s.flat.graph, s.base, s.canon)
}

/// A predicate was not unfolded: the base does not hold its address, or is short of
/// the permission; or the snapshot has not the shape of the footprint.
pub open spec fn unfold_refused(
    a: Context,
    d: Context,
    cert: ResourceCertificate,
    meta: PredMeta,
    vals: Seq<Id>,
    base: Seq<(Id, Chunk)>,
    call: ResourceCall,
    perm: Val,
    conds: Seq<(Val, Polarity)>,
    e: VerifyError,
    s: UnfoldSteps,
) -> bool {
    let at = s.flat.graph.canon(s.addr);
    &&& unfold_asked(a, meta, vals, base, call, perm, conds, s)
    &&& match e {
        VerifyError::InsufficientPermission => s.canon@.dom().contains(at) ==> {
            &&& s.pred.list() == seq![
                (s.addr, Chunk { perm: s.perm, value: s.canon@[at].value }),
            ]
            &&& short_of(s.flat, d, s.lits, base, s.pred.list())
        },
        VerifyError::Unimplemented(what) => {
            &&& what == "predicate footprint shape mismatch"
            &&& cert.delta@.len() != meta.snap_projs@.len()
            &&& s.canon@.dom().contains(at)
            &&& s.pred.list() == seq![
                (s.addr, Chunk { perm: s.perm, value: s.canon@[at].value }),
            ]
            &&& taken_out(s.flat, s.taken, s.lits, base, s.pred, s.less)
        },
        _ => false,
    }
}

/// A predicate was unfolded. The permission to its address was taken out of the base.
/// Its footprint, scaled, stands in its place with the values that the snapshot
/// holds, and its boolean is assumed.
pub open spec fn unfolded(
    a: Context,
    b: Context,
    env: Env,
    cert: ResourceCertificate,
    meta: PredMeta,
    vals: Seq<Id>,
    base: Seq<(Id, Chunk)>,
    call: ResourceCall,
    perm: Val,
    conds: Seq<(Val, Polarity)>,
    r: Heap,
    s: UnfoldSteps,
) -> bool {
    let at = s.flat.graph.canon(s.addr);
    let snap = s.canon@[at].value;
    &&& unfold_asked(a, meta, vals, base, call, perm, conds, s)
    &&& s.canon@.dom().contains(at)
    &&& s.pred.list() == seq![(s.addr, Chunk { perm: s.perm, value: snap })]
    &&& taken_out(s.flat, s.taken, s.lits, base, s.pred, s.less)
    &&& learns_cert(cert.graph, cert.params@, s.args, s.taken, s.asked)
    &&& footprint_result(cert, s.args, s.asked.graph, s.fp)
    &&& s.gives.len() == s.fp.len()
    &&& s.asked.leads_to(s.given)
    &&& slots_put(
        s.asked,
        s.given,
        env,
        s.lits,
        s.perm,
        meta.snap_projs@,
        snap,
        s.fp,
        s.less,
        s.gives,
        r,
        s.trail,
    )
    &&& learns_cert(cert.graph, cert.params@ + delta_values(cert), s.args + entry_values(s.gives), s.given, s.told)
    &&& bool_result(cert, s.args, entry_values(s.gives), s.told.graph, s.bool_id)
    &&& learns(s.told, s.known, seq![(Tm::Class(s.bool_id), t_bool(true))])
    &&& s.known.leads_to(b)
    &&& follows(s.known.graph, b.graph, s.known.background())
}

/// Unfolds a predicate.
#[verifier::rlimit(80)]
#[verifier::spinoff_prover]
pub fn unfold(
    ctx: &mut Context,
    env: &Env,
    state: &EvalState,
    base: HeapVal,
    call: &ResourceCall,
    perm: &Val,
    pc: &PathConds,
) -> (r: Result<Heap, VerifyError>)
    requires
        old(ctx).wf(),
        env.wf(),
        state_in(old(ctx).graph, state.vals@, state.heaps@),
        heap_ok(base, state.heaps@.len()),
        vals_ok(call.args@, state.vals@.len()),
        val_ok(*perm, state.vals@.len()),
        guards_ok(pc.conds@, state.vals@.len()),
    ensures
        old(ctx).leads_to(*final(ctx)),
        pred_of(*env, call.resource) is None ==> r == Err::<Heap, VerifyError>(
            VerifyError::Unimplemented("unfold of non-flat/abstract predicate"),
        ),
        pred_of(*env, call.resource) is Some && cert_of(
            *env,
            call.resource,
            call.args@.len(),
        ) is None ==> r == Err::<Heap, VerifyError>(cert_missing(*env, call.resource)),
        r matches Err(e) ==> !(e is AtInst),
        match (pred_of(*env, call.resource), cert_of(*env, call.resource, call.args@.len())) {
            (Some(meta), Some(cert)) => {
                &&& cert.delta@.len() != meta.snap_projs@.len() ==> r is Err
                &&& r matches Err(e) ==> exists|s: UnfoldSteps| #[trigger]
                    unfold_refused(
                        *old(ctx),
                        *final(ctx),
                        cert,
                        meta,
                        state.vals@,
                        heap_list(state.heaps@, base),
                        *call,
                        *perm,
                        pc.conds@,
                        e,
                        s,
                    )
            },
            _ => true,
        },
        r matches Ok(h) ==> entries_in(final(ctx).graph, h.list()) && exists|s: UnfoldSteps|
            #[trigger] unfolded(
                *old(ctx),
                *final(ctx),
                *env,
                cert_of(*env, call.resource, call.args@.len()).unwrap(),
                pred_of(*env, call.resource).unwrap(),
                state.vals@,
                heap_list(state.heaps@, base),
                *call,
                *perm,
                pc.conds@,
                h,
                s,
            ),
{
    broadcast use group_grows;

    let ghost c0 = *ctx;
    proof {
        lemma_leads_refl(c0);
    }
    let base_h = get_heap(&state.heaps, base);
    let meta = match find_pred(env, call.resource) {
        Some(m) => m,
        None => {
            return Err(VerifyError::Unimplemented("unfold of non-flat/abstract predicate"));
        },
    };
    let cert = match find_cert(env, call) {
        Ok(c) => c,
        Err(e) => {
            return Err(e);
        },
    };
    let (args, p, lits) = read_operands(ctx, &state.vals, call, perm, pc);
    let ghost c1 = *ctx;
    let addr = func_app(ctx, meta.addr_fn, &args);
    let ghost c2 = *ctx;
    proof {
        lemma_leads_trans(c0, c1, c2);
        lemma_state_grows(c0.graph, c2.graph, state.vals@, state.heaps@);
        lemma_heap_in(c2.graph, state.vals@, state.heaps@, base);
    }
    let always: Vec<(Id, Polarity)> = Vec::new();
    let canon = canonicalize_heap(ctx, &base_h, &always);
    let ghost c3 = *ctx;
    proof {
        assert(always@ =~= Seq::empty());
        lemma_leads_trans(c1, c2, c3);
        lemma_leads_trans(c0, c1, c3);
    }
    let at = ctx.graph.find(addr);
    let snap = match canon.value_at(at) {
        Some(v) => v,
        None => {
            proof {
                let steps = UnfoldSteps {
                    ready: c1,
                    named: c2,
                    flat: c3,
                    taken: c3,
                    asked: c3,
                    given: c3,
                    told: c3,
                    known: c3,
                    args: args@,
                    perm: p,
                    lits: lits@,
                    addr,
                    base: base_h,
                    canon,
                    pred: canon,
                    less: canon,
                    fp: Seq::empty(),
                    gives: Seq::empty(),
                    bool_id: p,
                    trail: no_trail(),
                };
                assert(unfold_refused(
                    c0,
                    *ctx,
                    cert_of(*env, call.resource, call.args@.len()).unwrap(),
                    pred_of(*env, call.resource).unwrap(),
                    state.vals@,
                    heap_list(state.heaps@, base),
                    *call,
                    *perm,
                    pc.conds@,
                    VerifyError::InsufficientPermission,
                    steps,
                ));
            }
            return Err(VerifyError::InsufficientPermission);
        },
    };
    proof {
        lemma_entry_in(c3.graph, canon, at);
        lemma_state_grows(c0.graph, c3.graph, state.vals@, state.heaps@);
        lemma_heap_in(c3.graph, state.vals@, state.heaps@, base);
        lemma_cube_grows(c1.graph, c3.graph, lits@);
    }
    let pred = one_chunk(addr, Chunk::new(p, snap), Ghost(c3.graph));
    let less = match combine(ctx, Sign::Sub, &base_h, &pred, &lits) {
        Ok(h) => h,
        Err(e) => {
            proof {
                lemma_leads_trans(c0, c3, *ctx);
                let steps = UnfoldSteps {
                    ready: c1,
                    named: c2,
                    flat: c3,
                    taken: c3,
                    asked: c3,
                    given: c3,
                    told: c3,
                    known: c3,
                    args: args@,
                    perm: p,
                    lits: lits@,
                    addr,
                    base: base_h,
                    canon,
                    pred: pred,
                    less: canon,
                    fp: Seq::empty(),
                    gives: Seq::empty(),
                    bool_id: p,
                    trail: no_trail(),
                };
                assert(unfold_refused(
                    c0,
                    *ctx,
                    cert_of(*env, call.resource, call.args@.len()).unwrap(),
                    pred_of(*env, call.resource).unwrap(),
                    state.vals@,
                    heap_list(state.heaps@, base),
                    *call,
                    *perm,
                    pc.conds@,
                    e,
                    steps,
                ));
            }
            return Err(e);
        },
    };
    let ghost c4 = *ctx;
    proof {
        lemma_leads_trans(c1, c3, c4);
        lemma_leads_trans(c0, c1, c4);
        lemma_all_grow(c1.graph, c4.graph, args@);
    }
    let fp = graft_footprint(ctx, cert, &args);
    let ghost c5 = *ctx;
    proof {
        lemma_leads_trans(c3, c4, c5);
        lemma_leads_trans(c1, c3, c5);
        lemma_leads_trans(c0, c1, c5);
    }
    if fp.len() != meta.snap_projs.len() {
        proof {
            let steps = UnfoldSteps {
                ready: c1,
                named: c2,
                flat: c3,
                taken: c4,
                asked: c5,
                given: c3,
                told: c3,
                known: c3,
                args: args@,
                perm: p,
                lits: lits@,
                addr,
                base: base_h,
                canon,
                pred: pred,
                less: less,
                fp: Seq::empty(),
                gives: Seq::empty(),
                bool_id: p,
                trail: no_trail(),
            };
            assert(unfold_refused(
                c0,
                *ctx,
                cert_of(*env, call.resource, call.args@.len()).unwrap(),
                pred_of(*env, call.resource).unwrap(),
                state.vals@,
                heap_list(state.heaps@, base),
                *call,
                *perm,
                pc.conds@,
                VerifyError::Unimplemented("predicate footprint shape mismatch"),
                steps,
            ));
        }
        return Err(VerifyError::Unimplemented("predicate footprint shape mismatch"));
    }
    proof {
        lemma_entries_grow(c4.graph, c5.graph, less.list());
        lemma_cube_grows(c1.graph, c5.graph, lits@);
    }
    let ghost rest = less;
    let (out, gives) = unfold_slots(ctx, env, less, p, &meta.snap_projs, snap, &fp, &lits);
    let ghost c6 = *ctx;
    let values = values_of(&gives);
    proof {
        lemma_leads_trans(c1, c5, c6);
        lemma_leads_trans(c0, c1, c6);
        lemma_all_grow(c1.graph, c6.graph, args@);
        assert forall|j: int| 0 <= j < values@.len() implies c6.graph.has(#[trigger] values@[j]) by {
            assert(c6.graph.has(gives@[j].0));
        }
    }
    let bool_id = graft_pred_bool(ctx, cert, &args, &values);
    let ghost c7 = *ctx;
    assume_true(ctx, bool_id);
    let ghost c8 = *ctx;
    ctx.reduce();
    proof {
        lemma_leads_trans(c6, c7, c8);
        lemma_leads_trans(c6, c8, *ctx);
        lemma_leads_trans(c0, c6, *ctx);
        lemma_entries_grow(c6.graph, ctx.graph, out.list());
        let trail = choose|t: PutTrail| #[trigger]
            slots_put(
                c5,
                c6,
                *env,
                lits@,
                p,
                meta.snap_projs@,
                snap,
                fp@,
                rest,
                gives@,
                out,
                t,
            );
        let steps = UnfoldSteps {
            ready: c1,
            named: c2,
            flat: c3,
            taken: c4,
            asked: c5,
            given: c6,
            told: c7,
            known: c8,
            args: args@,
            perm: p,
            lits: lits@,
            addr,
            base: base_h,
            canon,
            pred,
            less: rest,
            fp: fp@,
            gives: gives@,
            bool_id,
            trail,
        };
        assert(entry_values(gives@) =~= values@);
        assert(entries_in(ctx.graph, out.list()));
        assert(unfolded(
            c0,
            *ctx,
            *env,
            cert_of(*env, call.resource, call.args@.len()).unwrap(),
            pred_of(*env, call.resource).unwrap(),
            state.vals@,
            heap_list(state.heaps@, base),
            *call,
            *perm,
            pc.conds@,
            out,
            steps,
        ));
    }
    Ok(out)
}

/// Folding moves permission: what the heap holds at a location is what the base held,
/// without the footprint and with the predicate.
pub proof fn law_folded(
    a: Context,
    b: Context,
    env: Env,
    cert: ResourceCertificate,
    meta: PredMeta,
    vals: Seq<Id>,
    base: Seq<(Id, Chunk)>,
    call: ResourceCall,
    perm: Val,
    conds: Seq<(Val, Polarity)>,
    r: Heap,
    s: FoldSteps,
    m: Model,
    loc: Value,
)
    requires
        folded(a, b, env, cert, meta, vals, base, call, perm, conds, r, s),
        !b.graph.full(),
        b.graph.models(m),
    ensures
        held(m, r.list(), loc) == held(m, base, loc) - held(m, s.need.list(), loc) + held(
            m,
            s.pred.list(),
            loc,
        ),
{
    broadcast use group_grows;

    lemma_leads_trans(s.taken, s.told, s.proven);
    lemma_leads_trans(s.taken, s.proven, s.stored);
    lemma_leads_trans(s.taken, s.stored, s.joined);
    lemma_leads_trans(s.taken, s.joined, b);
    crate::terms::lemma_grows_models(s.joined.graph, b.graph, m);
    crate::terms::lemma_grows_models(s.taken.graph, b.graph, m);
    assert(held(m, s.less.list(), loc) == held(m, base, loc) - held(m, s.need.list(), loc));
}

/// What a trail of entries adds to a heap is what the entries hold.
pub proof fn law_slots_put(
    a: Context,
    b: Context,
    env: Env,
    lits: Seq<(Id, Polarity)>,
    perm: Id,
    projs: Seq<MemberId>,
    snap: Id,
    fp: Seq<(Id, Chunk)>,
    base: Heap,
    gives: Seq<(Id, Chunk)>,
    r: Heap,
    t: PutTrail,
    m: Model,
    loc: Value,
)
    requires
        slots_put(a, b, env, lits, perm, projs, snap, fp, base, gives, r, t),
        !b.graph.full(),
        b.graph.models(m),
    ensures
        held(m, r.list(), loc) == held(m, base.list(), loc) + held(m, gives, loc),
    decreases gives.len(),
{
    broadcast use group_grows;

    if gives.len() > 0 {
        let n = gives.len() - 1;
        let front = gives.drop_last();
        let u = PutTrail {
            heaps: t.heaps.drop_last(),
            after: t.after.drop_last(),
            before: t.before.drop_last(),
            ones: t.ones.drop_last(),
        };
        assert(put_step(t, env, lits, perm, projs, snap, fp, gives, n));
        assert forall|i: int| 0 <= i < n implies #[trigger] put_step(
            u,
            env,
            lits,
            perm,
            projs,
            snap,
            fp,
            front,
            i,
        ) by {
            assert(put_step(t, env, lits, perm, projs, snap, fp, gives, i));
        }
        lemma_leads_trans(t.after[n], t.before[n], b);
        crate::terms::lemma_grows_models(t.after[n].graph, b.graph, m);
        law_slots_put(
            a,
            t.after[n],
            env,
            lits,
            perm,
            projs,
            snap,
            fp,
            base,
            front,
            t.heaps[n],
            u,
            m,
            loc,
        );
        let one = t.ones[n].list();
        assert(one.drop_last() =~= Seq::empty());
        assert(held(m, one.drop_last(), loc) == 0 as real);
        assert(held(m, one, loc) == share(m, gives[n], loc));
        assert(held(m, r.list(), loc) == held(m, t.heaps[n].list(), loc) + held(m, one, loc));
    }
}

/// Unfolding moves permission back: what the heap holds at a location is what the base
/// held, without the predicate and with the footprint.
pub proof fn law_unfolded(
    a: Context,
    b: Context,
    env: Env,
    cert: ResourceCertificate,
    meta: PredMeta,
    vals: Seq<Id>,
    base: Seq<(Id, Chunk)>,
    call: ResourceCall,
    perm: Val,
    conds: Seq<(Val, Polarity)>,
    r: Heap,
    s: UnfoldSteps,
    m: Model,
    loc: Value,
)
    requires
        unfolded(a, b, env, cert, meta, vals, base, call, perm, conds, r, s),
        !b.graph.full(),
        b.graph.models(m),
    ensures
        held(m, r.list(), loc) == held(m, base, loc) - held(m, s.pred.list(), loc) + held(
            m,
            s.gives,
            loc,
        ),
{
    broadcast use group_grows;

    lemma_leads_trans(s.taken, s.asked, s.given);
    lemma_leads_trans(s.given, s.told, s.known);
    lemma_leads_trans(s.given, s.known, b);
    lemma_leads_trans(s.taken, s.given, b);
    crate::terms::lemma_grows_models(s.given.graph, b.graph, m);
    crate::terms::lemma_grows_models(s.taken.graph, b.graph, m);
    assert(held(m, s.less.list(), loc) == held(m, base, loc) - held(m, s.pred.list(), loc));
    law_slots_put(
        s.asked,
        s.given,
        env,
        s.lits,
        s.perm,
        meta.snap_projs@,
        s.canon@[s.flat.graph.canon(s.addr)].value,
        s.fp,
        s.less,
        s.gives,
        r,
        s.trail,
        m,
        loc,
    );
}

} // verus!
