//! Verifying methods and resources.

use crate::context::{builds, cube_holds, lemma_cube_grows, lemma_leads_refl, lemma_leads_trans, Context};
use crate::graph::{lemma_canon_in, Graph};
use crate::heap::facts::{
    deduces, lemma_reaches_extended, lemma_reaches_proof, lemma_reaches_trans,
};
use crate::lang::{FuncId, Id};
use crate::method::error::VerifyError;
use crate::method::eval::{
    at_address, check_deref_permission, collect_pc_lits, fresh_value, get_heap, get_val,
    heap_list, heap_ok, is_symbol, lemma_heap_in, lemma_lits_grow, lemma_state_grows, lits_for,
    lemma_readable_earlier, lemma_unreadable_earlier, readable, state_in, unreadable, EvalState,
};
use crate::method::graft::{canonical, ResourceCertificate};
use crate::method::plain::{entries_in, Chunk, Heap};
use crate::method::resource::{true_on, Env};
use crate::method::run::{
    asserted_on, body_answer, body_step_failed, body_stepped, eval_method_inst,
    eval_resource_body_inst, heap_insts, inst_obligations, inst_ok, insts_ok, obligation, pures,
    step_failed, stepped, Slots,
};
use crate::method::show::{format_inst, inst_text};
use crate::model::{t_classes, tm_value, Model, Tm};
use crate::program::{
    AdtCtor, Declaration, Inst, InstKind, Method, PureInst, Resource, ResourceBody,
};
use crate::prove::{
    law_shown, left_open, runs_fit, shown, shown_tm, tried, unshown,
};
use crate::quant::Entry;
use crate::rewrite::names::{
    forall_rule, kept_rules, proj_rule, reduce_rules, rules, tag_rule,
};
use crate::rewrite::proj::ProjApplier;
use crate::rewrite::recipe::{val_ok, val_tm};
use crate::rewrite::rules::Rule;
use crate::rewrite::run::rules_wf;
use crate::rewrite::table::static_table;
use crate::terms::{written, group_grows, lemma_grows_denotes};
use crate::vmir::{MemberId, Polarity, Type, Val, Value};
use vstd::prelude::*;

verus! {

broadcast use crate::context::lemma_builds_trans;

/// What a run of instructions went through: the context and the slots before each,
/// and at the end.
pub ghost struct Trail {
    pub ctxs: Seq<Context>,
    pub slots: Seq<Slots>,
}

/// A read is of a location to which there is permission on the path.
pub open spec fn read_checked(a: Context, mid: Context, s: Slots, inst: Inst) -> bool {
    match inst.kind {
        InstKind::Pure(_, PureInst::Deref(hv, loc)) => deduces(a, mid) && exists|
            lits: Seq<(Id, Polarity)>,
        | #[trigger]
            lits_for(mid.graph, s.vals, inst.pc.conds@, lits) && readable(
                a,
                mid.graph,
                s.vals,
                heap_list(s.heaps, hv),
                loc,
                lits,
            ),
        _ => mid == a,
    }
}

/// An instruction of a method was checked and run.
pub open spec fn inst_ran(a: Context, b: Context, env: Env, s: Slots, t: Slots, inst: Inst) -> bool {
    exists|mid: Context|
        {
            &&& #[trigger] a.leads_to(mid)
            &&& read_checked(a, mid, s, inst)
            &&& mid.leads_to(b)
            &&& stepped(mid, b, env, s, t, inst)
        }
}

/// The first instructions of a method were run.
pub open spec fn ran(t: Trail, env: Env, insts: Seq<Inst>, n: int) -> bool {
    &&& t.ctxs.len() == n + 1
    &&& t.slots.len() == n + 1
    &&& forall|i: int|
        0 <= i < n ==> #[trigger] inst_ran(
            t.ctxs[i],
            t.ctxs[i + 1],
            env,
            t.slots[i],
            t.slots[i + 1],
            insts[i],
        )
}

proof fn lemma_ran_pushed(t: Trail, env: Env, insts: Seq<Inst>, n: int, c: Context, s: Slots)
    requires
        0 <= n < insts.len(),
        ran(t, env, insts, n),
        inst_ran(t.ctxs[n], c, env, t.slots[n], s, insts[n]),
    ensures
        ran(Trail { ctxs: t.ctxs.push(c), slots: t.slots.push(s) }, env, insts, n + 1),
{
    let u = Trail { ctxs: t.ctxs.push(c), slots: t.slots.push(s) };
    assert forall|i: int| 0 <= i < n + 1 implies #[trigger] inst_ran(
        u.ctxs[i],
        u.ctxs[i + 1],
        env,
        u.slots[i],
        u.slots[i + 1],
        insts[i],
    ) by {
        if i < n {
            assert(inst_ran(
                t.ctxs[i],
                t.ctxs[i + 1],
                env,
                t.slots[i],
                t.slots[i + 1],
                insts[i],
            ));
        }
    }
}

/// An instruction at which a run stopped.
pub open spec fn stopped_at(insts: Seq<Inst>, nv: nat, nh: nat, i: int, e: VerifyError) -> bool {
    &&& 0 <= i < insts.len()
    &&& e matches VerifyError::AtInst { inst, source } && inst@ == inst_text(
        insts[i].kind,
        nv + pures(insts.take(i)),
        nh + heap_insts(insts.take(i)),
    )
}

/// An instruction reads a location, and it was not shown that it may.
pub open spec fn read_denied(c: Context, d: Context, s: Slots, inst: Inst) -> bool {
    inst.kind matches InstKind::Pure(_, PureInst::Deref(hv, loc)) && exists|
        lits: Seq<(Id, Polarity)>,
    | #[trigger]
        lits_for(d.graph, s.vals, inst.pc.conds@, lits) && unreadable(
            c,
            d,
            s.vals,
            heap_list(s.heaps, hv),
            loc,
            lits,
        )
}

/// Checks the permission to what an instruction reads.
fn check_read(ctx: &mut Context, state: &EvalState, inst: &Inst) -> (r: Result<(), VerifyError>)
    requires
        old(ctx).wf(),
        state_in(old(ctx).graph, state.vals@, state.heaps@),
        inst_ok(*inst, state.vals@.len(), state.heaps@.len()),
    ensures
        old(ctx).leads_to(*final(ctx)),
        r is Ok ==> read_checked(*old(ctx), *final(ctx), state.slots(), *inst),
        r matches Err(e) ==> e == VerifyError::InsufficientPermission && read_denied(
            *old(ctx),
            *final(ctx),
            state.slots(),
            *inst,
        ),
{
    let ghost c0 = *ctx;
    proof {
        lemma_leads_refl(c0);
    }
    if let InstKind::Pure(_, PureInst::Deref(hv, loc)) = &inst.kind {
        let lits = collect_pc_lits(ctx, &state.vals, &inst.pc);
        let ghost c1 = *ctx;
        proof {
            lemma_state_grows(c0.graph, c1.graph, state.vals@, state.heaps@);
        }
        let r = check_deref_permission(ctx, state, &lits, *hv, loc);
        proof {
            lemma_leads_trans(c0, c1, *ctx);
            lemma_reaches_extended(c0, c1);
            lemma_reaches_trans(c0, c1, *ctx);
            lemma_lits_grow(c1.graph, ctx.graph, state.vals@, inst.pc.conds@, lits@);
            if r is Ok {
                assert(lits_for(ctx.graph, state.slots().vals, inst.pc.conds@, lits@));
                lemma_readable_earlier(
                    c0,
                    c1,
                    ctx.graph,
                    state.vals@,
                    heap_list(state.heaps@, *hv),
                    *loc,
                    lits@,
                );
                assert(readable(
                    c0,
                    ctx.graph,
                    state.slots().vals,
                    heap_list(state.slots().heaps, *hv),
                    *loc,
                    lits@,
                ));
            } else {
                lemma_unreadable_earlier(
                    c0,
                    c1,
                    *ctx,
                    state.vals@,
                    heap_list(state.heaps@, *hv),
                    *loc,
                    lits@,
                );
                assert(lits_for(ctx.graph, state.slots().vals, inst.pc.conds@, lits@));
            }
        }
        return r;
    }
    Ok(())
}

proof fn lemma_counts(insts: Seq<Inst>, n: int)
    requires
        0 <= n < insts.len(),
    ensures
        pures(insts.take(n + 1)) == pures(insts.take(n)) + if insts[n].kind is Pure {
            1nat
        } else {
            0nat
        },
        heap_insts(insts.take(n + 1)) == heap_insts(insts.take(n)) + if insts[n].kind is Heap {
            1nat
        } else {
            0nat
        },
{
    assert(insts.take(n + 1).drop_last() =~= insts.take(n));
}

/// Why an instruction of a method fails: it may not read, or it may and what it does
/// fails.
pub open spec fn inst_failed(
    c: Context,
    d: Context,
    env: Env,
    s: Slots,
    inst: Inst,
    e: VerifyError,
) -> bool {
    ||| e == VerifyError::InsufficientPermission && read_denied(c, d, s, inst)
    ||| exists|mid: Context| #[trigger]
        c.leads_to(mid) && read_checked(c, mid, s, inst) && step_failed(mid, d, env, s, inst, e)
}

/// A run of a method stopped at an instruction: those before it were run, and it
/// failed for the cause that the error names.
pub open spec fn stopped(
    t: Trail,
    d: Context,
    env: Env,
    insts: Seq<Inst>,
    i: int,
    e: VerifyError,
) -> bool {
    &&& stopped_at(insts, t.slots[0].vals.len(), t.slots[0].heaps.len(), i, e)
    &&& ran(t, env, insts, i)
    &&& !(e.cause() is AtInst)
    &&& inst_failed(t.ctxs[i], d, env, t.slots[i], insts[i], e.cause())
}

/// Checks what an instruction of a method reads, and runs it. An error tells which
/// instruction failed.
pub fn run_inst(ctx: &mut Context, env: &Env, state: &mut EvalState, inst: &Inst) -> (r: Result<
    (),
    VerifyError,
>)
    requires
        old(ctx).wf(),
        env.wf(),
        state_in(old(ctx).graph, old(state).vals@, old(state).heaps@),
        inst_ok(*inst, old(state).vals@.len(), old(state).heaps@.len()),
    ensures
        old(ctx).leads_to(*final(ctx)),
        r is Ok ==> state_in(final(ctx).graph, final(state).vals@, final(state).heaps@)
            && inst_ran(
            *old(ctx),
            *final(ctx),
            *env,
            old(state).slots(),
            final(state).slots(),
            *inst,
        ),
        r matches Err(e) ==> e matches VerifyError::AtInst { inst: text, source } && text@
            == inst_text(inst.kind, old(state).vals@.len(), old(state).heaps@.len()),
        r matches Err(e) ==> !(e.cause() is AtInst) && inst_failed(
            *old(ctx),
            *final(ctx),
            *env,
            old(state).slots(),
            *inst,
            e.cause(),
        ),
{
    let ghost c1 = *ctx;
    let ghost s1 = state.slots();
    let text = format_inst(&inst.kind, state.vals.len(), state.heaps.len());
    let checked = check_read(ctx, state, inst);
    let ghost c2 = *ctx;
    proof {
        lemma_state_grows(c1.graph, c2.graph, state.vals@, state.heaps@);
    }
    if let Err(e) = checked {
        let at = e.with_inst(text);
        proof {
            assert(at.cause() == e.cause() && e.cause() == e);
        }
        return Err(at);
    }
    let done = eval_method_inst(ctx, env, state, inst);
    proof {
        lemma_leads_trans(c1, c2, *ctx);
    }
    if let Err(e) = done {
        let at = e.with_inst(text);
        proof {
            assert(at.cause() == e.cause() && e.cause() == e);
            assert(c1.leads_to(c2));
            assert(inst_failed(c1, *ctx, *env, s1, *inst, e));
        }
        return Err(at);
    }
    proof {
        assert(c1.leads_to(c2));
        assert(inst_ran(c1, *ctx, *env, s1, state.slots(), *inst));
    }
    Ok(())
}

/// Runs the instructions of a method.
#[verifier::rlimit(60)]
#[verifier::spinoff_prover]
pub fn run_method(ctx: &mut Context, env: &Env, state: &mut EvalState, insts: &Vec<Inst>) -> (r:
    Result<(), VerifyError>)
    requires
        old(ctx).wf(),
        env.wf(),
        state_in(old(ctx).graph, old(state).vals@, old(state).heaps@),
        insts_ok(insts@, old(state).vals@.len(), old(state).heaps@.len()),
    ensures
        old(ctx).leads_to(*final(ctx)),
        insts@.len() == 0 ==> r is Ok,
        r is Ok ==> exists|t: Trail| #[trigger]
            ran(t, *env, insts@, insts@.len() as int) && t.ctxs[0] == *old(ctx) && t.slots[0]
                == old(state).slots() && t.ctxs[insts@.len() as int] == *final(ctx)
                && t.slots[insts@.len() as int] == final(state).slots(),
        r matches Err(e) ==> exists|t: Trail, i: int| #[trigger]
            stopped(t, *final(ctx), *env, insts@, i, e) && t.ctxs[0] == *old(ctx) && t.slots[0]
                == old(state).slots(),
{
    let ghost c0 = *ctx;
    let ghost s0 = state.slots();
    let ghost nv = s0.vals.len();
    let ghost nh = s0.heaps.len();
    let ghost mut t = Trail { ctxs: seq![c0], slots: seq![s0] };
    let mut i: usize = 0;
    proof {
        lemma_leads_refl(c0);
        assert(insts@.take(0) =~= Seq::empty());
    }
    while i < insts.len()
        invariant
            i <= insts@.len(),
            env.wf(),
            ctx.wf(),
            c0.leads_to(*ctx),
            c0 == *old(ctx),
            s0 == old(state).slots(),
            nv == s0.vals.len(),
            nh == s0.heaps.len(),
            state_in(ctx.graph, state.vals@, state.heaps@),
            insts_ok(insts@, nv, nh),
            state.vals@.len() == nv + pures(insts@.take(i as int)),
            state.heaps@.len() == nh + heap_insts(insts@.take(i as int)),
            ran(t, *env, insts@, i as int),
            t.ctxs[0] == c0,
            t.slots[0] == s0,
            t.ctxs[i as int] == *ctx,
            t.slots[i as int] == state.slots(),
        decreases insts.len() - i,
    {
        let inst = &insts[i];
        let ghost c1 = *ctx;
        let ghost s1 = state.slots();
        proof {
            assert(inst_ok(insts@[i as int], state.vals@.len(), state.heaps@.len()));
            lemma_counts(insts@, i as int);
        }
        let done = run_inst(ctx, env, state, inst);
        proof {
            lemma_leads_trans(c0, c1, *ctx);
        }
        if let Err(e) = done {
            proof {
                assert(stopped_at(insts@, nv, nh, i as int, e));
                assert(stopped(t, *ctx, *env, insts@, i as int, e));
            }
            return Err(e);
        }
        proof {
            assert(inst_ran(c1, *ctx, *env, s1, state.slots(), *inst));
            lemma_ran_pushed(t, *env, insts@, i as int, *ctx, state.slots());
            t = Trail { ctxs: t.ctxs.push(*ctx), slots: t.slots.push(state.slots()) };
        }
        i += 1;
    }
    Ok(())
}

/// The rules for the fields of a constructor.
pub open spec fn field_rules(ctor: MemberId, projs: Seq<MemberId>) -> Seq<Rule> {
    Seq::new(
        projs.len(),
        |i: int|
            Rule::Proj(
                ProjApplier {
                    accessor: FuncId(projs[i]),
                    ctor: FuncId(ctor),
                    index: i as usize,
                },
            ),
    )
}

/// The rules for the fields of constructors.
pub open spec fn ctors_rules(ctors: Seq<AdtCtor>) -> Seq<Rule>
    decreases ctors.len(),
{
    if ctors.len() == 0 {
        Seq::empty()
    } else {
        ctors_rules(ctors.drop_last()) + field_rules(
            ctors.last().ctor_fn,
            ctors.last().projections@,
        )
    }
}

/// The rule for a tag function.
pub open spec fn is_tag_rule(r: Rule, tag_fn: MemberId, ctors: Seq<AdtCtor>) -> bool {
    r matches Rule::Tag(t) && t.tag_fn == FuncId(tag_fn) && t.ctor_tags@ == Seq::new(
        ctors.len(),
        |i: int| (FuncId(ctors[i].ctor_fn), ctors[i].tag),
    )
}

/// The rules of one declaration: an ADT's tag and fields, a snapshot's fields.
pub open spec fn decl_rules(d: Declaration, rs: Seq<Rule>) -> bool {
    match d {
        Declaration::Adt(adt) => match adt.ops {
            Some(ops) => rs.len() > 0 && rs.drop_last() == ctors_rules(ops.constructors@)
                && is_tag_rule(rs.last(), ops.tag_fn, ops.constructors@),
            None => rs.len() == 0,
        },
        Declaration::Resource(r) => match r.pred {
            Some(p) => rs == field_rules(p.snap_cons, p.snap_projs@),
            None => rs.len() == 0,
        },
        _ => rs.len() == 0,
    }
}

/// The rules of declarations, one list after the other.
pub open spec fn all_decl_rules(ds: Seq<Declaration>, rs: Seq<Rule>) -> bool {
    exists|parts: Seq<Seq<Rule>>| #[trigger]
        parts_of(ds, parts) && rs == crate::mono::in_turn(parts)
}

pub open spec fn parts_of(ds: Seq<Declaration>, parts: Seq<Seq<Rule>>) -> bool {
    &&& parts.len() == ds.len()
    &&& forall|i: int| 0 <= i < ds.len() ==> decl_rules(#[trigger] ds[i], parts[i])
}

fn append_fields(out: &mut Vec<Rule>, ctor: MemberId, projs: &Vec<MemberId>)
    ensures
        final(out)@ == old(out)@ + field_rules(ctor, projs@),
{
    let ghost had = out@;
    let mut i: usize = 0;
    proof {
        assert(had + field_rules(ctor, projs@).take(0) =~= had);
    }
    while i < projs.len()
        invariant
            i <= projs@.len(),
            out@ == had + field_rules(ctor, projs@).take(i as int),
        decreases projs.len() - i,
    {
        out.push(proj_rule(FuncId(projs[i]), FuncId(ctor), i));
        i += 1;
        proof {
            let all = field_rules(ctor, projs@);
            assert(all.take(i as int) =~= all.take(i - 1).push(all[i - 1]));
            assert(out@ =~= had + all.take(i as int));
        }
    }
    proof {
        assert(field_rules(ctor, projs@).take(projs@.len() as int) =~= field_rules(ctor, projs@));
    }
}

fn rules_of_decl(d: &Declaration) -> (r: Vec<Rule>)
    ensures
        decl_rules(*d, r@),
        rules_wf(r@),
{
    let mut out: Vec<Rule> = Vec::new();
    match d {
        Declaration::Adt(adt) => {
            if let Some(ops) = &adt.ops {
                let mut tags: Vec<(FuncId, usize)> = Vec::new();
                let mut i: usize = 0;
                let cs = &ops.constructors;
                proof {
                    assert(cs@.take(0) =~= Seq::empty());
                }
                while i < cs.len()
                    invariant
                        i <= cs@.len(),
                        out@ == ctors_rules(cs@.take(i as int)),
                        rules_wf(out@),
                        tags@ == Seq::new(i as nat, |k: int| (FuncId(cs@[k].ctor_fn), cs@[k].tag)),
                    decreases cs.len() - i,
                {
                    proof {
                        assert(cs@.take(i + 1).drop_last() =~= cs@.take(i as int));
                    }
                    append_fields(&mut out, cs[i].ctor_fn, &cs[i].projections);
                    tags.push((FuncId(cs[i].ctor_fn), cs[i].tag));
                    i += 1;
                    proof {
                        assert(tags@ =~= Seq::new(
                            i as nat,
                            |k: int| (FuncId(cs@[k].ctor_fn), cs@[k].tag),
                        ));
                    }
                }
                proof {
                    assert(cs@.take(cs@.len() as int) =~= cs@);
                }
                let ghost fields = out@;
                out.push(tag_rule(FuncId(ops.tag_fn), tags));
                proof {
                    assert(out@.drop_last() =~= fields);
                }
            }
        },
        Declaration::Resource(r) => {
            if let Some(p) = &r.pred {
                append_fields(&mut out, p.snap_cons, &p.snap_projs);
                proof {
                    assert(out@ =~= field_rules(p.snap_cons, p.snap_projs@));
                }
            }
        },
        _ => {},
    }
    out
}

/// The rules of the declarations of a program.
pub fn member_rules(ds: &Vec<Declaration>) -> (r: Vec<Rule>)
    ensures
        all_decl_rules(ds@, r@),
        rules_wf(r@),
{
    let mut out: Vec<Rule> = Vec::new();
    let ghost mut parts: Seq<Seq<Rule>> = Seq::empty();
    let mut i: usize = 0;
    while i < ds.len()
        invariant
            i <= ds@.len(),
            parts.len() == i,
            out@ == crate::mono::in_turn(parts),
            rules_wf(out@),
            forall|k: int| 0 <= k < i ==> decl_rules(#[trigger] ds@[k], parts[k]),
        decreases ds.len() - i,
    {
        let mut more = rules_of_decl(&ds[i]);
        proof {
            let had = parts;
            parts = had.push(more@);
            assert(parts.drop_last() =~= had);
        }
        out.append(&mut more);
        i += 1;
    }
    proof {
        assert(parts_of(ds@, parts));
    }
    out
}

/// What an instruction asks for besides its operands holds on the path.
pub open spec fn obliged(a: Context, mid: Context, s: Slots, inst: Inst) -> bool {
    deduces(a, mid) && match obligation(s.vals, inst.kind) {
        Some(goal) => exists|lits: Seq<(Id, Polarity)>| #[trigger]
            lits_for(mid.graph, s.vals, inst.pc.conds@, lits) && shown_tm(a, lits, goal.0)
                && term_true_on(mid.graph, lits, goal.0),
        None => true,
    }
}

/// In every model of the graph on the path, a term is true.
pub open spec fn term_true_on(g: Graph, lits: Seq<(Id, Polarity)>, t: Tm) -> bool {
    !g.full() && forall|m: Model| #[trigger]
        g.models(m) && cube_holds(m, lits) ==> tm_value(m, t) == Some(Value::Bool(true))
}

/// An instruction of a resource body was checked and run.
pub open spec fn body_inst_ran(
    a: Context,
    b: Context,
    env: Env,
    s: Slots,
    t: Slots,
    inst: Inst,
) -> bool {
    exists|read: Context, mid: Context|
        {
            &&& #[trigger] a.leads_to(read)
            &&& read_checked(a, read, s, inst)
            &&& #[trigger] read.leads_to(mid)
            &&& obliged(read, mid, s, inst)
            &&& mid.leads_to(b)
            &&& body_stepped(mid, b, env, s, t, inst)
        }
}

/// The first instructions of a resource body were run.
pub open spec fn body_ran(t: Trail, env: Env, insts: Seq<Inst>, n: int) -> bool {
    &&& t.ctxs.len() == n + 1
    &&& t.slots.len() == n + 1
    &&& forall|i: int|
        0 <= i < n ==> #[trigger] body_inst_ran(
            t.ctxs[i],
            t.ctxs[i + 1],
            env,
            t.slots[i],
            t.slots[i + 1],
            insts[i],
        )
}

proof fn lemma_body_pushed(t: Trail, env: Env, insts: Seq<Inst>, n: int, c: Context, s: Slots)
    requires
        0 <= n < insts.len(),
        body_ran(t, env, insts, n),
        body_inst_ran(t.ctxs[n], c, env, t.slots[n], s, insts[n]),
    ensures
        body_ran(Trail { ctxs: t.ctxs.push(c), slots: t.slots.push(s) }, env, insts, n + 1),
{
    let u = Trail { ctxs: t.ctxs.push(c), slots: t.slots.push(s) };
    assert forall|i: int| 0 <= i < n + 1 implies #[trigger] body_inst_ran(
        u.ctxs[i],
        u.ctxs[i + 1],
        env,
        u.slots[i],
        u.slots[i + 1],
        insts[i],
    ) by {
        if i < n {
            assert(body_inst_ran(
                t.ctxs[i],
                t.ctxs[i + 1],
                env,
                t.slots[i],
                t.slots[i + 1],
                insts[i],
            ));
        }
    }
}

/// What an instruction asks for besides its operands was not shown on the path.
pub open spec fn not_obliged(
    c: Context,
    d: Context,
    s: Slots,
    inst: Inst,
    e: VerifyError,
) -> bool {
    obligation(s.vals, inst.kind) matches Some(o) && e == VerifyError::SideCondition(o.1)
        && exists|lits: Seq<(Id, Polarity)>| #[trigger]
        lits_for(d.graph, s.vals, inst.pc.conds@, lits) && unshown(c, d, lits, o.0)
}

/// Proves what an instruction asks for besides its operands.
fn check_obligation(ctx: &mut Context, state: &EvalState, inst: &Inst) -> (r: Result<
    (),
    VerifyError,
>)
    requires
        old(ctx).wf(),
        state_in(old(ctx).graph, state.vals@, state.heaps@),
        inst_ok(*inst, state.vals@.len(), state.heaps@.len()),
    ensures
        old(ctx).leads_to(*final(ctx)),
        r is Ok ==> obliged(*old(ctx), *final(ctx), state.slots(), *inst),
        obligation(state.vals@, inst.kind) is None ==> r is Ok,
        r matches Err(e) ==> not_obliged(*old(ctx), *final(ctx), state.slots(), *inst, e),
{
    broadcast use group_grows;

    let ghost c0 = *ctx;
    let lits = collect_pc_lits(ctx, &state.vals, &inst.pc);
    let ghost c1 = *ctx;
    proof {
        lemma_state_grows(c0.graph, c1.graph, state.vals@, state.heaps@);
    }
    let goal = inst_obligations(ctx, &state.vals, &inst.kind);
    let ghost c2 = *ctx;
    proof {
        lemma_leads_trans(c0, c1, c2);
        lemma_cube_grows(c1.graph, c2.graph, lits@);
    }
    if let Some((id, what)) = goal {
        let proven = ctx.prove_under_pc(id, &lits);
        proof {
            lemma_reaches_extended(c0, c2);
            lemma_reaches_proof(c2, *ctx, lits@, id, proven);
            lemma_reaches_trans(c0, c2, *ctx);
            lemma_leads_trans(c0, c2, *ctx);
            lemma_leads_trans(c1, c2, *ctx);
        }
        if !proven {
            proof {
                lemma_lits_grow(c1.graph, ctx.graph, state.vals@, inst.pc.conds@, lits@);
                assert(left_open(c2, *ctx, lits@, id));
                assert(lits_for(ctx.graph, state.slots().vals, inst.pc.conds@, lits@));
            }
            return Err(VerifyError::SideCondition(what));
        }
        proof {
            assert(shown(c2, lits@, id));
            let t = obligation(state.vals@, inst.kind).unwrap().0;
            lemma_lits_grow(c1.graph, ctx.graph, state.vals@, inst.pc.conds@, lits@);
            lemma_grows_denotes(c2.graph, ctx.graph, id, t);
            assert forall|m: Model| #[trigger]
                ctx.graph.models(m) && cube_holds(m, lits@) implies tm_value(m, t) == Some(
                Value::Bool(true),
            ) by {
                assert(m.is(id, true));
            }
            assert(term_true_on(ctx.graph, lits@, t));
            assert(lits_for(ctx.graph, state.slots().vals, inst.pc.conds@, lits@));
        }
    } else {
        proof {
            lemma_reaches_extended(c0, c2);
        }
    }
    Ok(())
}

/// Why an instruction of a resource body fails: it may not read; or what it asks for
/// was not proven; or what it does fails.
pub open spec fn body_inst_failed(
    c: Context,
    d: Context,
    es: Seq<Entry>,
    s: Slots,
    inst: Inst,
    e: VerifyError,
) -> bool {
    ||| e == VerifyError::InsufficientPermission && read_denied(c, d, s, inst)
    ||| exists|read: Context| #[trigger]
        c.leads_to(read) && read_checked(c, read, s, inst) && not_obliged(read, d, s, inst, e)
    ||| exists|read: Context, mid: Context|
        {
            &&& #[trigger] c.leads_to(read)
            &&& read_checked(c, read, s, inst)
            &&& #[trigger] read.leads_to(mid)
            &&& obliged(read, mid, s, inst)
            &&& body_step_failed(mid, d, es, s, inst, e)
        }
}

/// A run of a resource body stopped at an instruction: those before it were run, and
/// it failed for the cause that the error names.
pub open spec fn body_stopped(
    t: Trail,
    d: Context,
    env: Env,
    insts: Seq<Inst>,
    i: int,
    e: VerifyError,
) -> bool {
    &&& stopped_at(insts, t.slots[0].vals.len(), t.slots[0].heaps.len(), i, e)
    &&& body_ran(t, env, insts, i)
    &&& !(e.cause() is AtInst)
    &&& body_inst_failed(t.ctxs[i], d, env.quants.entries@, t.slots[i], insts[i], e.cause())
}

/// Checks and runs one instruction of a resource body.
fn run_body_inst(ctx: &mut Context, env: &Env, state: &mut EvalState, inst: &Inst) -> (r: Result<
    (),
    VerifyError,
>)
    requires
        old(ctx).wf(),
        state_in(old(ctx).graph, old(state).vals@, old(state).heaps@),
        inst_ok(*inst, old(state).vals@.len(), old(state).heaps@.len()),
    ensures
        old(ctx).leads_to(*final(ctx)),
        r matches Err(e) ==> !(e is AtInst),
        r matches Err(e) ==> body_inst_failed(
            *old(ctx),
            *final(ctx),
            env.quants.entries@,
            old(state).slots(),
            *inst,
            e,
        ),
        !(inst.kind matches InstKind::Pure(_, PureInst::Deref(_, _))) && obligation(
            old(state).vals@,
            inst.kind,
        ) is None ==> body_answer(old(state).vals@, env.quants.entries@, inst.kind, r),
        r is Ok ==> state_in(final(ctx).graph, final(state).vals@, final(state).heaps@)
            && body_inst_ran(
            *old(ctx),
            *final(ctx),
            *env,
            old(state).slots(),
            final(state).slots(),
            *inst,
        ),
{
    let ghost c0 = *ctx;
    if let Err(e) = check_read(ctx, state, inst) {
        return Err(e);
    }
    let ghost c1 = *ctx;
    proof {
        lemma_state_grows(c0.graph, c1.graph, state.vals@, state.heaps@);
    }
    let met = check_obligation(ctx, state, inst);
    let ghost c2 = *ctx;
    proof {
        lemma_leads_trans(c0, c1, c2);
        lemma_state_grows(c0.graph, c2.graph, state.vals@, state.heaps@);
    }
    if let Err(e) = met {
        return Err(e);
    }
    let ghost s0 = state.slots();
    let r = eval_resource_body_inst(ctx, env, state, inst);
    proof {
        lemma_leads_trans(c0, c2, *ctx);
        assert(c0.leads_to(c1) && c1.leads_to(c2));
        let res = r;
        if let Err(e) = res {
            assert(body_step_failed(c2, *ctx, env.quants.entries@, s0, *inst, e));
        }
    }
    r
}

/// Runs the instructions of a resource body.
#[verifier::rlimit(60)]
#[verifier::spinoff_prover]
pub fn run_resource_body(ctx: &mut Context, env: &Env, state: &mut EvalState, insts: &Vec<Inst>) -> (r:
    Result<(), VerifyError>)
    requires
        old(ctx).wf(),
        state_in(old(ctx).graph, old(state).vals@, old(state).heaps@),
        insts_ok(insts@, old(state).vals@.len(), old(state).heaps@.len()),
    ensures
        old(ctx).leads_to(*final(ctx)),
        insts@.len() == 0 ==> r is Ok,
        r is Ok ==> state_in(final(ctx).graph, final(state).vals@, final(state).heaps@)
            && final(state).vals@.len() == old(state).vals@.len() + pures(insts@)
            && final(state).heaps@.len() == old(state).heaps@.len() + heap_insts(insts@)
            && exists|t: Trail| #[trigger]
            body_ran(t, *env, insts@, insts@.len() as int) && t.ctxs[0] == *old(ctx) && t.slots[0]
                == old(state).slots() && t.ctxs[insts@.len() as int] == *final(ctx)
                && t.slots[insts@.len() as int] == final(state).slots(),
        r matches Err(e) ==> exists|t: Trail, i: int| #[trigger]
            body_stopped(t, *final(ctx), *env, insts@, i, e) && t.ctxs[0] == *old(ctx)
                && t.slots[0] == old(state).slots(),
{
    let ghost c0 = *ctx;
    let ghost s0 = state.slots();
    let ghost nv = s0.vals.len();
    let ghost nh = s0.heaps.len();
    let ghost mut t = Trail { ctxs: seq![c0], slots: seq![s0] };
    let mut i: usize = 0;
    proof {
        lemma_leads_refl(c0);
        assert(insts@.take(0) =~= Seq::empty());
    }
    while i < insts.len()
        invariant
            i <= insts@.len(),
            ctx.wf(),
            c0.leads_to(*ctx),
            c0 == *old(ctx),
            s0 == old(state).slots(),
            nv == s0.vals.len(),
            nh == s0.heaps.len(),
            state_in(ctx.graph, state.vals@, state.heaps@),
            insts_ok(insts@, nv, nh),
            state.vals@.len() == nv + pures(insts@.take(i as int)),
            state.heaps@.len() == nh + heap_insts(insts@.take(i as int)),
            body_ran(t, *env, insts@, i as int),
            t.ctxs[0] == c0,
            t.slots[0] == s0,
            t.ctxs[i as int] == *ctx,
            t.slots[i as int] == state.slots(),
        decreases insts.len() - i,
    {
        let inst = &insts[i];
        let ghost c1 = *ctx;
        let ghost s1 = state.slots();
        proof {
            assert(inst_ok(insts@[i as int], state.vals@.len(), state.heaps@.len()));
            lemma_counts(insts@, i as int);
        }
        let text = format_inst(&inst.kind, state.vals.len(), state.heaps.len());
        let done = run_body_inst(ctx, env, state, inst);
        proof {
            lemma_leads_trans(c0, c1, *ctx);
        }
        if let Err(e) = done {
            let at = e.with_inst(text);
            proof {
                assert(stopped_at(insts@, nv, nh, i as int, at));
                assert(at.cause() == e.cause() && e.cause() == e);
                assert(body_stopped(t, *ctx, *env, insts@, i as int, at));
            }
            return Err(at);
        }
        proof {
            assert(body_inst_ran(c1, *ctx, *env, s1, state.slots(), *inst));
            lemma_body_pushed(t, *env, insts@, i as int, *ctx, state.slots());
            t = Trail { ctxs: t.ctxs.push(*ctx), slots: t.slots.push(state.slots()) };
            assert(body_stepped_counts(s1, state.slots(), *inst));
        }
        i += 1;
    }
    proof {
        assert(insts@.take(insts@.len() as int) =~= insts@);
    }
    Ok(())
}

spec fn body_stepped_counts(s: Slots, t: Slots, inst: Inst) -> bool {
    &&& t.vals.len() == s.vals.len() + if inst.kind is Pure {
        1nat
    } else {
        0nat
    }
    &&& t.heaps.len() == s.heaps.len() + if inst.kind is Heap {
        1nat
    } else {
        0nat
    }
}

proof fn lemma_kept_wf(rs: Seq<Rule>, drop: Seq<String>)
    requires
        rules_wf(rs),
    ensures
        rules_wf(kept_rules(rs, drop)),
    decreases rs.len(),
{
    if rs.len() > 0 {
        let rest = rs.drop_first();
        assert forall|i: int| 0 <= i < rest.len() implies (#[trigger] rest[i]).wf() by {
            assert(rs[i + 1].wf());
        }
        lemma_kept_wf(rest, drop);
        assert(rs[0].wf());
    }
}

proof fn lemma_static_wf(rs: Seq<Rule>)
    requires
        static_table(rs),
    ensures
        rules_wf(rs),
{
    assert forall|i: int| 0 <= i < rs.len() implies (#[trigger] rs[i]).wf() by {
        assert(i == 0 || 1 <= i < 17 || 17 <= i < 30 || i == 30 || 31 <= i < 35 || 35 <= i < 42);
    }
}

/// The rules that a member is verified with: the static ones that are kept, those of
/// the declarations, the one that reads what `Some` holds, and the one that
/// instantiates quantifiers.
pub open spec fn unit_rules(env: Env, drop: Seq<String>, rs: Seq<Rule>) -> bool {
    exists|st: Seq<Rule>, mem: Seq<Rule>|
        {
            &&& #[trigger] static_table(st)
            &&& #[trigger] all_decl_rules(env.program.decls@, mem)
            &&& rs.len() > 0
            &&& rs.last() is Instantiate
            &&& rs.drop_last() == kept_rules(st, drop) + mem + seq![
                Rule::Proj(
                    ProjApplier { accessor: env.option.value, ctor: env.option.some, index: 0 },
                ),
            ]
        }
}

/// A context in which the verification of a member starts.
pub open spec fn starts(env: Env, drop: Seq<String>, c: Context) -> bool {
    &&& c.wf()
    &&& unit_rules(env, drop, c.rules@)
    &&& c.reductions@ == kept_rules(seq![Rule::IteReduce], drop)
    &&& c.table == env.quants.recipes
    &&& c.ctors@.len() == 0
    &&& c.cube@.len() == 0
    &&& c.graph.len() == 0
    &&& c.graph.facts().len() == 0
    &&& !c.graph.full()
}

/// A context for the verification of a member. Rules named in `drop` are left out.
pub fn unit_context(env: &Env, drop: &Vec<String>) -> (r: Context)
    requires
        env.quants.wf(),
    ensures
        starts(*env, drop@, r),
{
    let mut rs = rules(drop);
    let ghost st = choose|st: Seq<Rule>| #[trigger]
        static_table(st) && rs@ == kept_rules(st, drop@);
    let ghost kept = rs@;
    let mut mem = member_rules(&env.program.decls);
    let ghost members = mem@;
    rs.append(&mut mem);
    rs.push(proj_rule(env.option.value, env.option.some, 0));
    let ghost front = rs@;
    rs.push(forall_rule());
    let red = reduce_rules(drop);
    proof {
        lemma_static_wf(st);
        lemma_kept_wf(st, drop@);
        let only = seq![Rule::IteReduce];
        assert forall|i: int| 0 <= i < only.len() implies (#[trigger] only[i]).wf() by {}
        lemma_kept_wf(only, drop@);
        assert(rs@.drop_last() =~= front);
        assert(front =~= kept + members + seq![
            Rule::Proj(ProjApplier { accessor: env.option.value, ctor: env.option.some, index: 0 }),
        ]);
        assert forall|i: int| 0 <= i < rs@.len() implies (#[trigger] rs@[i]).wf() by {
            if i < kept.len() {
                assert(rs@[i] == kept[i]);
            } else if i < kept.len() + members.len() {
                assert(rs@[i] == members[i - kept.len()]);
            }
        }
        assert(all_decl_rules(env.program.decls@, members));
    }
    Context::new(rs, red, Vec::new(), env.quants.recipes.clone())
}

/// Every instruction of a method is run, or verification stops at one.
pub open spec fn method_verified(env: Env, drop: Seq<String>, m: Method, t: Trail) -> bool {
    &&& ran(t, env, m.insts@, m.insts@.len() as int)
    &&& starts(env, drop, t.ctxs[0])
    &&& t.slots[0].vals.len() == 0
    &&& t.slots[0].heaps.len() == 0
}

/// Verification of a method stopped at an instruction, for a cause.
pub open spec fn method_failed(
    env: Env,
    drop: Seq<String>,
    m: Method,
    t: Trail,
    i: int,
    d: Context,
    e: VerifyError,
) -> bool {
    &&& stopped(t, d, env, m.insts@, i, e)
    &&& starts(env, drop, t.ctxs[0])
    &&& t.slots[0].vals.len() == 0
    &&& t.slots[0].heaps.len() == 0
}

/// Verification of a method stops with an error, at an instruction and for a cause.
#[verifier::opaque]
pub open spec fn method_fails(env: Env, drop: Seq<String>, m: Method, e: VerifyError) -> bool {
    exists|t: Trail, i: int, d: Context| #[trigger] method_failed(env, drop, m, t, i, d, e)
}

/// Verifies a method: runs its instructions, with every read permitted and every
/// assertion proven.
pub fn verify_method(env: &Env, drop: &Vec<String>, method: &Method) -> (r: Result<(), VerifyError>)
    requires
        env.wf(),
        env.quants.wf(),
        insts_ok(method.insts@, 0, 0),
    ensures
        method.insts@.len() == 0 ==> r is Ok,
        r is Ok ==> exists|t: Trail| #[trigger] method_verified(*env, drop@, *method, t),
        r matches Err(e) ==> method_fails(*env, drop@, *method, e),
{
    let mut ctx = unit_context(env, drop);
    let mut state = EvalState::new();
    let ghost c0 = ctx;
    let ghost s0 = state.slots();
    let r = run_method(&mut ctx, env, &mut state, &method.insts);
    proof {
        let res = r;
        if res is Ok {
            let n = method.insts@.len() as int;
            let t = choose|t: Trail| #[trigger]
                ran(t, *env, method.insts@, n) && starts(*env, drop@, t.ctxs[0])
                    && t.slots[0].vals.len() == 0 && t.slots[0].heaps.len() == 0;
            assert(method_verified(*env, drop@, *method, t));
        }
        if let Err(e) = res {
            let (t, i) = choose|t: Trail, i: int| #[trigger]
                stopped(t, ctx, *env, method.insts@, i, e) && t.ctxs[0] == c0 && t.slots[0] == s0;
            assert(method_failed(*env, drop@, *method, t, i, ctx, e));
            reveal(method_fails);
        }
    }
    r
}

/// An instruction that can fail: one that reads, asserts, instantiates a quantifier or
/// changes a heap.
pub open spec fn can_fail(kind: InstKind) -> bool {
    match kind {
        InstKind::Pure(_, PureInst::Deref(_, _)) => true,
        InstKind::Pure(_, PureInst::Forall(_)) => true,
        InstKind::Pure(_, _) => false,
        InstKind::Heap(_) => true,
        InstKind::Assume(_) => false,
        InstKind::Assert(_) => true,
    }
}

/// A method without an instruction that can fail is verified: an error names one that
/// can, and its cause.
pub proof fn law_failing_inst(env: Env, drop: Seq<String>, m: Method, e: VerifyError)
    requires
        method_fails(env, drop, m, e),
    ensures
        exists|i: int| #[trigger] stopped_at(m.insts@, 0, 0, i, e) && can_fail(m.insts@[i].kind),
        !(e.cause() is AtInst),
{
    reveal(method_fails);
    let (t, i, d) = choose|t: Trail, i: int, d: Context| #[trigger]
        method_failed(env, drop, m, t, i, d, e);
    assert(stopped(t, d, env, m.insts@, i, e));
    assert(stopped_at(m.insts@, 0, 0, i, e));
    assert(inst_failed(t.ctxs[i], d, env, t.slots[i], m.insts@[i], e.cause()));
}

/// What stops the verification of a method stops that of every method that starts with
/// it, with the same error.
pub proof fn law_prefix_fails(
    env: Env,
    drop: Seq<String>,
    m: Method,
    longer: Method,
    e: VerifyError,
)
    requires
        m.insts@.is_prefix_of(longer.insts@),
        method_fails(env, drop, m, e),
    ensures
        method_fails(env, drop, longer, e),
{
    reveal(method_fails);
    let (t, i, d) = choose|t: Trail, i: int, d: Context| #[trigger]
        method_failed(env, drop, m, t, i, d, e);
    let (a, b) = (m.insts@, longer.insts@);
    assert forall|k: int| 0 <= k < a.len() implies b[k] == #[trigger] a[k] by {}
    assert(ran(t, env, b, i)) by {
        assert forall|k: int| 0 <= k < i implies #[trigger] inst_ran(
            t.ctxs[k],
            t.ctxs[k + 1],
            env,
            t.slots[k],
            t.slots[k + 1],
            b[k],
        ) by {
            assert(b[k] == a[k]);
        }
    }
    assert(b[i] == a[i]);
    assert(b.take(i) =~= a.take(i));
    assert(stopped(t, d, env, b, i, e));
    assert(method_failed(env, drop, longer, t, i, d, e));
}

/// What verifies a method verifies every method that it starts with.
pub proof fn law_prefix_verified(env: Env, drop: Seq<String>, m: Method, longer: Method, t: Trail)
    requires
        m.insts@.is_prefix_of(longer.insts@),
        method_verified(env, drop, longer, t),
    ensures
        exists|s: Trail| #[trigger] method_verified(env, drop, m, s),
{
    let (a, b) = (m.insts@, longer.insts@);
    let n = a.len() as int;
    let s = Trail { ctxs: t.ctxs.take(n + 1), slots: t.slots.take(n + 1) };
    assert(ran(s, env, a, n)) by {
        assert forall|k: int| 0 <= k < n implies #[trigger] inst_ran(
            s.ctxs[k],
            s.ctxs[k + 1],
            env,
            s.slots[k],
            s.slots[k + 1],
            a[k],
        ) by {
            assert(b[k] == a[k]);
            assert(inst_ran(
                t.ctxs[k],
                t.ctxs[k + 1],
                env,
                t.slots[k],
                t.slots[k + 1],
                b[k],
            ));
        }
    }
    assert(method_verified(env, drop, m, s));
}

proof fn lemma_trail_leads(t: Trail, env: Env, insts: Seq<Inst>, n: int, i: int)
    requires
        ran(t, env, insts, n),
        0 <= i <= n,
        t.ctxs[n].wf(),
    ensures
        t.ctxs[i].leads_to(t.ctxs[n]),
    decreases n - i,
{
    if i == n {
        lemma_leads_refl(t.ctxs[n]);
    } else {
        lemma_trail_leads(t, env, insts, n, i + 1);
        assert(inst_ran(t.ctxs[i], t.ctxs[i + 1], env, t.slots[i], t.slots[i + 1], insts[i]));
        let mid = choose|mid: Context|
            {
                &&& #[trigger] t.ctxs[i].leads_to(mid)
                &&& read_checked(t.ctxs[i], mid, t.slots[i], insts[i])
                &&& mid.leads_to(t.ctxs[i + 1])
                &&& stepped(mid, t.ctxs[i + 1], env, t.slots[i], t.slots[i + 1], insts[i])
            };
        lemma_leads_trans(t.ctxs[i], mid, t.ctxs[i + 1]);
        lemma_leads_trans(t.ctxs[i], t.ctxs[i + 1], t.ctxs[n]);
    }
}

/// The conditions of a path hold in a model.
pub open spec fn path_holds(m: Model, vals: Seq<Id>, conds: Seq<(Val, Polarity)>) -> bool {
    forall|k: int|
        0 <= k < conds.len() ==> tm_value(m, val_tm(t_classes(vals), (#[trigger] conds[k]).0))
            == Some(Value::Bool(conds[k].1 == Polarity::Positive))
}

/// What was shown at an assertion is true there, whatever is learned later: in every model
/// of what was known before, with the terms of the assertion put in, and of what the
/// rules rest on, in which the terms that the rules build have values, wherever the path
/// to the assertion is taken.
pub open spec fn true_there(
    c: Context,
    vals: Seq<Id>,
    conds: Seq<(Val, Polarity)>,
    v: Val,
) -> bool {
    exists|mid: Context| #[trigger]
        builds(c, mid) && (mid.graph.full() || forall|m: Model| #[trigger]
            mid.graph.models(m) && (mid.background())(m) && runs_fit(mid, m) && path_holds(
                m,
                vals,
                conds,
            ) ==> tm_value(m, val_tm(t_classes(vals), v)) == Some(Value::Bool(true)))
}

/// What a verified method asserts is true at the assertion, from what was known before it.
pub proof fn law_asserted_there(
    env: Env,
    drop: Seq<String>,
    method: Method,
    t: Trail,
    i: int,
    v: Val,
)
    requires
        method_verified(env, drop, method, t),
        0 <= i < method.insts@.len(),
        method.insts@[i].kind == InstKind::Assert(v),
    ensures
        true_there(t.ctxs[i], t.slots[i].vals, method.insts@[i].pc.conds@, v),
{
    let insts = method.insts@;
    let a = t.ctxs[i];
    let b = t.ctxs[i + 1];
    let vals = t.slots[i].vals;
    let conds = insts[i].pc.conds@;
    assert(inst_ran(a, b, env, t.slots[i], t.slots[i + 1], insts[i]));
    assert(asserted_on(a, b, vals, conds, v));
    let (mid, id, lits) = choose|mid: Context, id: Id, lits: Seq<(Id, Polarity)>|
        {
            &&& a.leads_to(mid)
            &&& builds(a, mid)
            &&& #[trigger] at_address(mid.graph, vals, v, id)
            &&& #[trigger] lits_for(mid.graph, vals, conds, lits)
            &&& written(mid.graph, id, val_tm(t_classes(vals), v))
            &&& shown(mid, lits, id)
            &&& tried(mid, b, lits, id, true)
            &&& at_address(b.graph, vals, v, id)
            &&& lits_for(b.graph, vals, conds, lits)
            &&& true_on(b.graph, lits, id)
        };
    if !mid.graph.full() {
        assert forall|m: Model| #[trigger]
            mid.graph.models(m) && (mid.background())(m) && runs_fit(mid, m) && path_holds(
                m,
                vals,
                conds,
            ) implies tm_value(m, val_tm(t_classes(vals), v)) == Some(Value::Bool(true)) by {
            assert forall|k: int| 0 <= k < lits.len() implies crate::context::lit_holds(
                m,
                #[trigger] lits[k],
            ) by {
                assert(mid.graph.denotes(lits[k].0, val_tm(t_classes(vals), conds[k].0)));
                assert(tm_value(m, val_tm(t_classes(vals), conds[k].0)) == Some(
                    Value::Bool(conds[k].1 == Polarity::Positive),
                ));
            }
            assert(cube_holds(m, lits));
            assert forall|k: int| 0 <= k < lits.len() implies mid.graph.has(
                (#[trigger] lits[k]).0,
            ) by {}
            law_shown(mid, lits, id, m);
        }
    }
    assert(builds(a, mid));
}

/// What a verified method asserts is true: in every model of what is known in the end,
/// wherever the path to an assertion is taken, the asserted value is true.
pub proof fn law_assertions_hold(
    env: Env,
    drop: Seq<String>,
    method: Method,
    t: Trail,
    i: int,
    v: Val,
    m: Model,
)
    requires
        method_verified(env, drop, method, t),
        0 <= i < method.insts@.len(),
        method.insts@[i].kind == InstKind::Assert(v),
        t.ctxs[method.insts@.len() as int].wf(),
        !t.ctxs[method.insts@.len() as int].graph.full(),
        t.ctxs[method.insts@.len() as int].graph.models(m),
        path_holds(m, t.slots[i].vals, method.insts@[i].pc.conds@),
    ensures
        tm_value(m, val_tm(t_classes(t.slots[i].vals), v)) == Some(Value::Bool(true)),
{
    broadcast use group_grows;

    let insts = method.insts@;
    let n = insts.len() as int;
    lemma_trail_leads(t, env, insts, n, i + 1);
    let b = t.ctxs[i + 1];
    crate::terms::lemma_grows_models(b.graph, t.ctxs[n].graph, m);
    assert(inst_ran(t.ctxs[i], b, env, t.slots[i], t.slots[i + 1], insts[i]));
    let vals = t.slots[i].vals;
    let conds = insts[i].pc.conds@;
    let a = choose|mid: Context|
        {
            &&& #[trigger] t.ctxs[i].leads_to(mid)
            &&& read_checked(t.ctxs[i], mid, t.slots[i], insts[i])
            &&& mid.leads_to(b)
            &&& stepped(mid, b, env, t.slots[i], t.slots[i + 1], insts[i])
        };
    assert(asserted_on(a, b, vals, conds, v));
    let (_mid, id, lits) = choose|mid: Context, id: Id, lits: Seq<(Id, Polarity)>|
        {
            &&& a.leads_to(mid)
            &&& builds(a, mid)
            &&& #[trigger] at_address(mid.graph, vals, v, id)
            &&& #[trigger] lits_for(mid.graph, vals, conds, lits)
            &&& written(mid.graph, id, val_tm(t_classes(vals), v))
            &&& shown(mid, lits, id)
            &&& tried(mid, b, lits, id, true)
            &&& at_address(b.graph, vals, v, id)
            &&& lits_for(b.graph, vals, conds, lits)
            &&& true_on(b.graph, lits, id)
        };
    assert forall|k: int| 0 <= k < lits.len() implies crate::context::lit_holds(
        m,
        #[trigger] lits[k],
    ) by {
        assert(b.graph.denotes(lits[k].0, val_tm(t_classes(vals), conds[k].0)));
        assert(tm_value(m, val_tm(t_classes(vals), conds[k].0)) == Some(
            Value::Bool(conds[k].1 == Polarity::Positive),
        ));
    }
    assert(cube_holds(m, lits));
    assert(m.is(id, true));
}

/// The entries of a heap in their representatives.
pub open spec fn canon_delta(g: Graph, es: Seq<(Id, Chunk)>) -> Seq<(Id, Id, Id)> {
    Seq::new(
        es.len(),
        |i: int| (g.canon(es[i].0), g.canon(es[i].1.perm), g.canon(es[i].1.value)),
    )
}

fn read_delta(g: &Graph, h: &Heap) -> (r: Vec<(Id, Id, Id)>)
    requires
        g.wf(),
        entries_in(*g, h.list()),
    ensures
        r@ == canon_delta(*g, h.list()),
{
    let es = h.entries();
    let mut out: Vec<(Id, Id, Id)> = Vec::new();
    let mut i: usize = 0;
    while i < es.len()
        invariant
            i <= es@.len(),
            g.wf(),
            entries_in(*g, es@),
            out@ == canon_delta(*g, es@.take(i as int)),
        decreases es.len() - i,
    {
        proof {
            assert(g.has(es@[i as int].0));
        }
        let (a, c) = es[i];
        out.push((g.find(a), g.find(c.perm), g.find(c.value)));
        i += 1;
        proof {
            assert(out@ =~= canon_delta(*g, es@.take(i as int)));
        }
    }
    proof {
        assert(es@.take(es@.len() as int) =~= es@);
    }
    out
}

/// The representatives of classes.
pub open spec fn canon_list(g: Graph, ids: Seq<Id>) -> Seq<Id> {
    Seq::new(ids.len(), |i: int| g.canon(ids[i]))
}

fn read_canon(g: &Graph, ids: &Vec<Id>) -> (r: Vec<Id>)
    requires
        g.wf(),
        g.has_all(ids@),
    ensures
        r@ == canon_list(*g, ids@),
{
    let mut out: Vec<Id> = Vec::new();
    let mut i: usize = 0;
    while i < ids.len()
        invariant
            i <= ids@.len(),
            g.wf(),
            g.has_all(ids@),
            out@ == canon_list(*g, ids@.take(i as int)),
        decreases ids.len() - i,
    {
        proof {
            assert(g.has(ids@[i as int]));
        }
        out.push(g.find(ids[i]));
        i += 1;
        proof {
            assert(out@ =~= canon_list(*g, ids@.take(i as int)));
        }
    }
    proof {
        assert(ids@.take(ids@.len() as int) =~= ids@);
    }
    out
}

/// Every id is a symbol.
pub open spec fn all_symbols(g: Graph, ids: Seq<Id>) -> bool {
    forall|i: int| 0 <= i < ids.len() ==> is_symbol(g, #[trigger] ids[i])
}

/// Classes that were added one after the other, each of a symbol of its own number.
pub open spec fn named(a: Context, b: Context, ids: Seq<Id>, ns: Seq<u32>) -> bool {
    &&& ns.len() == ids.len()
    &&& b.graph.defs() == a.graph.defs() + Seq::new(
        ns.len(),
        |k: int| crate::context::fresh_node(ns[k]),
    )
    &&& b.graph.len() == a.graph.len() + ns.len()
    &&& forall|k: int|
        0 <= k < ids.len() ==> #[trigger] ids[k] == a.graph.len() + k && b.graph.terms(ids[k])
            == seq![crate::context::fresh_node(ns[k])]
    &&& forall|j: int, k: int| 0 <= j < k < ns.len() ==> #[trigger] ns[j] != #[trigger] ns[k]
}

/// Symbols that have nothing to do with each other. Where ids or symbols ran out, nothing
/// is said.
pub open spec fn apart(a: Context, b: Context, ids: Seq<Id>) -> bool {
    b.graph.full() || b.next_fresh == u32::MAX || exists|ns: Seq<u32>| #[trigger]
        named(a, b, ids, ns)
}

proof fn lemma_named_next(
    a: Context,
    b: Context,
    c: Context,
    ids: Seq<Id>,
    ns: Seq<u32>,
    id: Id,
)
    requires
        named(a, b, ids, ns),
        builds(b, c),
        crate::context::coined(b, c, id),
        !c.graph.full(),
        c.next_fresh < u32::MAX,
    ensures
        named(a, c, ids.push(id), ns.push(c.next_fresh)),
{
    let more = ids.push(id);
    let all = ns.push(c.next_fresh);
    assert(c.graph.defs() =~= a.graph.defs() + Seq::new(
        all.len(),
        |k: int| crate::context::fresh_node(all[k]),
    ));
    assert forall|k: int| 0 <= k < more.len() implies #[trigger] more[k] == a.graph.len() + k
        && c.graph.terms(more[k]) == seq![crate::context::fresh_node(all[k])] by {
        if k < ids.len() {
            assert(more[k] == ids[k]);
            assert(b.graph.has(ids[k]));
            assert(c.graph.terms(ids[k]) == b.graph.terms(ids[k]));
        }
    }
    assert forall|j: int, k: int| 0 <= j < k < all.len() implies #[trigger] all[j]
        != #[trigger] all[k] by {
        if k < ns.len() {
            assert(ns[j] != ns[k]);
        } else {
            let node = crate::context::fresh_node(ns[j]);
            assert(ids[j] == a.graph.len() + j);
            assert(b.graph.terms(ids[j])[0] == node);
            assert(b.graph.has(ids[j]) && b.graph.terms(ids[j]).contains(node));
            assert(b.graph.lists(node));
        }
    }
}

/// A symbol for each parameter.
fn fresh_params(ctx: &mut Context, state: &mut EvalState, tys: &Vec<Type>) -> (r: Vec<Id>)
    requires
        old(ctx).wf(),
    ensures
        old(ctx).leads_to(*final(ctx)),
        builds(*old(ctx), *final(ctx)),
        final(state).vals == old(state).vals,
        final(state).heaps == old(state).heaps,
        r@.len() == tys@.len(),
        final(ctx).graph.has_all(r@),
        all_symbols(final(ctx).graph, r@),
        apart(*old(ctx), *final(ctx), r@),
{
    let ghost c0 = *ctx;
    let ghost s0 = *state;
    let mut out: Vec<Id> = Vec::new();
    let mut i: usize = 0;
    let ghost mut ns: Seq<u32> = Seq::empty();
    proof {
        lemma_leads_refl(c0);
        assert(c0.graph.defs() + Seq::new(
            ns.len(),
            |k: int| crate::context::fresh_node(ns[k]),
        ) =~= c0.graph.defs());
        assert(named(c0, c0, out@, ns));
    }
    while i < tys.len()
        invariant
            i <= tys@.len(),
            ctx.wf(),
            c0.leads_to(*ctx),
            builds(c0, *ctx),
            state.vals == s0.vals,
            state.heaps == s0.heaps,
            out@.len() == i,
            ctx.graph.has_all(out@),
            all_symbols(ctx.graph, out@),
            ctx.graph.full() || ctx.next_fresh == u32::MAX || named(c0, *ctx, out@, ns),
        decreases tys.len() - i,
    {
        let ghost c1 = *ctx;
        let ghost had = out@;
        let id = fresh_value(ctx, &mut state.types, tys[i].clone());
        out.push(id);
        proof {
            lemma_leads_trans(c0, c1, *ctx);
            if !ctx.graph.full() && ctx.next_fresh < u32::MAX {
                lemma_named_next(c0, c1, *ctx, had, ns, id);
                ns = ns.push(ctx.next_fresh);
                assert(out@ =~= had.push(id));
            }
            assert forall|k: int| 0 <= k < out@.len() implies ctx.graph.has(#[trigger] out@[k])
                && is_symbol(ctx.graph, out@[k]) by {
                if k < i {
                    assert(out@[k] == had[k]);
                    assert(c1.graph.has(had[k]) && is_symbol(c1.graph, had[k]));
                    let n = choose|n: u32|
                        c1.graph.denotes(had[k], #[trigger] crate::context::t_fresh(n));
                    lemma_grows_denotes(c1.graph, ctx.graph, had[k], crate::context::t_fresh(n));
                }
            }
        }
        i += 1;
    }
    out
}

/// The steps of certifying a resource.
pub ghost struct CertSteps {
    pub start: Context,
    pub trail: Trail,
    pub done: Context,
    pub bool_id: Id,
}

/// A certificate holds what was proven of a resource body: it was run on a symbol for
/// each parameter and an empty heap, and the certificate names its graph, what it
/// asks for and its boolean.
pub open spec fn certifies(
    env: Env,
    drop: Seq<String>,
    n_params: nat,
    body: ResourceBody,
    cert: ResourceCertificate,
    s: CertSteps,
) -> bool {
    let n = body.insts@.len() as int;
    let first = s.trail.slots[0];
    let last = s.trail.slots[n];
    &&& starts(env, drop, s.start)
    &&& s.start.leads_to(s.trail.ctxs[0])
    &&& builds(s.start, s.trail.ctxs[0])
    &&& first.vals.len() == n_params
    &&& all_symbols(s.trail.ctxs[0].graph, first.vals)
    &&& apart(s.start, s.trail.ctxs[0], first.vals)
    &&& first.heaps.len() == 1
    &&& first.heaps[0].list().len() == 0
    &&& body_ran(s.trail, env, body.insts@, n)
    &&& s.trail.ctxs[n].leads_to(s.done)
    &&& at_address(s.done.graph, last.vals, body.res.1, s.bool_id)
    &&& cert.graph == s.done.graph
    &&& state_in(s.done.graph, last.vals, last.heaps)
    &&& s.done.graph.has_all(first.vals)
    &&& cert.params@ == canon_list(s.done.graph, first.vals)
    &&& cert.delta@ == canon_delta(s.done.graph, heap_list(last.heaps, body.res.0))
    &&& cert.bool_id == s.done.graph.canon(s.bool_id)
}

/// Verification of a resource stopped at an instruction of its body, for a cause. The
/// body was run on a symbol for each parameter and an empty heap.
pub open spec fn resource_failed(
    env: Env,
    drop: Seq<String>,
    n_params: nat,
    body: ResourceBody,
    start: Context,
    t: Trail,
    i: int,
    d: Context,
    e: VerifyError,
) -> bool {
    &&& body_stopped(t, d, env, body.insts@, i, e)
    &&& starts(env, drop, start)
    &&& start.leads_to(t.ctxs[0])
    &&& builds(start, t.ctxs[0])
    &&& t.slots[0].vals.len() == n_params
    &&& all_symbols(t.ctxs[0].graph, t.slots[0].vals)
    &&& t.slots[0].heaps.len() == 1
    &&& t.slots[0].heaps[0].list().len() == 0
}

/// Verification of a resource stops with an error, at an instruction and for a cause.
#[verifier::opaque]
pub open spec fn resource_fails(
    env: Env,
    drop: Seq<String>,
    n_params: nat,
    body: ResourceBody,
    e: VerifyError,
) -> bool {
    exists|c: Context, t: Trail, i: int, d: Context| #[trigger]
        resource_failed(env, drop, n_params, body, c, t, i, d, e)
}

/// The body of a resource refers to the slots that it fills.
pub open spec fn resource_ok(r: Resource) -> bool {
    r.body matches Some(b) ==> {
        &&& insts_ok(b.insts@, r.params@.len(), 1)
        &&& heap_ok(b.res.0, 1 + heap_insts(b.insts@))
        &&& val_ok(b.res.1, r.params@.len() + pures(b.insts@))
    }
}

proof fn lemma_cert_wf(
    cert: ResourceCertificate,
    params: Seq<Id>,
    es: Seq<(Id, Chunk)>,
    b: Id,
)
    requires
        cert.graph.wf(),
        cert.graph.has_all(params),
        cert.graph.has(b),
        entries_in(cert.graph, es),
        cert.params@ == canon_list(cert.graph, params),
        cert.delta@ == canon_delta(cert.graph, es),
        cert.bool_id == cert.graph.canon(b),
    ensures
        cert.wf(),
{
    let g = cert.graph;
    assert forall|j: int| 0 <= j < cert.params@.len() implies canonical(
        g,
        #[trigger] cert.params@[j],
    ) && g.has(cert.params@[j]) by {
        assert(g.has(params[j]));
        lemma_canon_in(g, params[j]);
    }
    lemma_canon_in(g, b);
    assert forall|i: int| 0 <= i < cert.delta@.len() implies canonical(
        g,
        (#[trigger] cert.delta@[i]).0,
    ) && canonical(g, cert.delta@[i].1) && canonical(g, cert.delta@[i].2) by {
        assert(g.has(es[i].0));
        lemma_canon_in(g, es[i].0);
        lemma_canon_in(g, es[i].1.perm);
        lemma_canon_in(g, es[i].1.value);
    }
}

/// Verifies a resource by itself, and certifies what was proven of it. One without a
/// body has nothing to prove and no certificate.
#[verifier::rlimit(40)]
pub fn verify_resource(env: &Env, drop: &Vec<String>, resource: &Resource) -> (r: Result<
    Option<ResourceCertificate>,
    VerifyError,
>)
    requires
        env.quants.wf(),
        resource_ok(*resource),
    ensures
        resource.body is None ==> r == Ok::<Option<ResourceCertificate>, VerifyError>(None),
        resource.body matches Some(b) ==> {
            &&& b.insts@.len() == 0 ==> r is Ok
            &&& r matches Ok(c) ==> c is Some && c.unwrap().wf() && exists|s: CertSteps|
                #[trigger] certifies(*env, drop@, resource.params@.len(), b, c.unwrap(), s)
            &&& r matches Err(e) ==> resource_fails(*env, drop@, resource.params@.len(), b, e)
        },
{
    let body = match &resource.body {
        Some(b) => b,
        None => {
            return Ok(None);
        },
    };
    let mut ctx = unit_context(env, drop);
    let ghost c0 = ctx;
    let mut state = EvalState::new();
    let params = fresh_params(&mut ctx, &mut state, &resource.params);
    let ghost c1 = ctx;
    state.vals = crate::method::graft::join_ids(&params, &Vec::new());
    let none = Heap::empty();
    proof {
        assert(none.list() =~= Seq::empty());
        assert(state.vals@ =~= params@);
        assert(apart(c0, c1, state.vals@));
    }
    state.heaps.push(none);
    let ghost s1 = state.slots();
    proof {
        assert(state_in(c1.graph, state.vals@, state.heaps@));
    }
    if let Err(e) = run_resource_body(&mut ctx, env, &mut state, &body.insts) {
        proof {
            let (t, i) = choose|t: Trail, i: int| #[trigger]
                body_stopped(t, ctx, *env, body.insts@, i, e) && t.ctxs[0] == c1 && t.slots[0]
                    == s1;
            assert(resource_failed(
                *env,
                drop@,
                resource.params@.len(),
                resource.body.unwrap(),
                c0,
                t,
                i,
                ctx,
                e,
            ));
            reveal(resource_fails);
        }
        return Err(e);
    }
    let ghost c2 = ctx;
    let ghost s2 = state.slots();
    ctx.saturate();
    let ghost c3 = ctx;
    proof {
        lemma_state_grows(c2.graph, c3.graph, state.vals@, state.heaps@);
    }
    let b = get_val(&mut ctx, &state.vals, &body.res.1);
    let delta_heap = get_heap(&state.heaps, body.res.0);
    proof {
        lemma_leads_trans(c2, c3, ctx);
        lemma_leads_trans(c1, c2, ctx);
        lemma_state_grows(c2.graph, ctx.graph, state.vals@, state.heaps@);
        lemma_heap_in(ctx.graph, state.vals@, state.heaps@, body.res.0);
        assert forall|j: int| 0 <= j < params@.len() implies ctx.graph.has(#[trigger] params@[j]) by {
            assert(c1.graph.has(params@[j]));
        }
    }
    let delta = read_delta(&ctx.graph, &delta_heap);
    let bool_id = ctx.graph.find(b);
    let canon_params = read_canon(&ctx.graph, &params);
    let ghost done = ctx;
    let cert = ResourceCertificate {
        graph: ctx.graph,
        types: state.types,
        params: canon_params,
        delta,
        bool_id,
    };
    let out = Some(cert);
    proof {
        let n = body.insts@.len() as int;
        let trail = choose|t: Trail| #[trigger]
            body_ran(t, *env, body.insts@, n) && t.ctxs[0] == c1 && t.slots[0] == s1 && t.ctxs[n]
                == c2 && t.slots[n] == s2;
        let steps = CertSteps { start: c0, trail, done, bool_id: b };
        lemma_cert_wf(out.unwrap(), params@, heap_list(s2.heaps, body.res.0), b);
        assert(certifies(
            *env,
            drop@,
            resource.params@.len(),
            resource.body.unwrap(),
            out.unwrap(),
            steps,
        ));
    }
    Ok(out)
}

} // verus!
