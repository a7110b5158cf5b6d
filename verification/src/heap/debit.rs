//! Taking permission off one chunk.

use crate::context::{
    builds, cube_holds, cube_in, lemma_cube_grows, lemma_leads_refl, lemma_leads_trans, Context,
};
use crate::graph::Graph;
use crate::heap::amount::{
    all_zero, differs, law_all_zero, perm_all_zero, perm_sub_aligned,
};
use crate::heap::chunk::{chunk_amt, chunk_in, chunk_share, lemma_chunk_grows, Chunk};
use crate::heap::cube::entails;
use crate::heap::enough::{
    is_enough, is_known_enough, known_enough, lemma_cube_holds_push, lemma_known_enough, prove_ask,
    unmet, with_lit, Ask,
};
use crate::heap::facts::{
    deduces, fresh_facts, lemma_fresh_more, lemma_reaches_asserted, lemma_reaches_extended,
    lemma_reaches_follows, lemma_reaches_more, lemma_reaches_refl, lemma_reaches_trans, less_fact,
    only, reaches, share_fact,
};
use crate::heap::groups::{
    heap_in, law_with, law_without, lemma_heap_grows, lemma_place, total, with, without, Heap,
};
use crate::heap::join::lemma_to_id;
use crate::heap::perm::{
    collapsed, law_collapsed, law_selected, lemma_collapsed_in, lemma_perm_grows, met, perm_amt, perm_in,
    perm_sorted, perm_tm, wild_in, ChunkPerm,
};
use crate::heap::union::{holds_chunk, lemma_heap_with, lemma_with_in, lemma_without_in};
use crate::heap::values::{lemma_less_fresh, assume_less, fresh_share, lemma_share};
use crate::lang::Id;
use crate::method::merge::amount;
use crate::method::subtract::same_fact;
use crate::model::{
    equation_holds, lemma_tm_bin, lemma_tm_lit, lemma_tm_not, t_ltr, t_not, t_real, Model, Tm,
};
use crate::prove::{left_open, refuted, shown, shown_tm, unshown};
use crate::terms::{lemma_grows_denotes, lemma_grows_models, Expr};
use crate::vmir::{BinOp, Polarity, Value};
use std::rc::Rc;
use vstd::prelude::*;

verus! {

broadcast use crate::context::lemma_builds_trans;

/// A chunk made ready to take permission off on a path: as it is where it has no guard
/// or the path is inside its guard, and else with its guard moved into its amount.
pub open spec fn readied(g: Graph, h: Graph, pc: Seq<(Id, Polarity)>, c: Chunk, r: Chunk) -> bool {
    if c.guard@.len() == 0 || entails(g, pc, c.guard@) {
        r == c
    } else {
        &&& r.addr == c.addr
        &&& r.value == c.value
        &&& r.recipe == c.recipe
        &&& r.guard@.len() == 0
        &&& h.full() || forall|m: Model| #[trigger]
            h.models(m) ==> perm_amt(m, r.perm) == chunk_amt(m, c)
    }
}

/// A readied chunk holds what the chunk held.
pub proof fn law_readied(
    g: Graph,
    h: Graph,
    pc: Seq<(Id, Polarity)>,
    c: Chunk,
    r: Chunk,
    m: Model,
)
    requires
        readied(g, h, pc, c, r),
        !h.full(),
        h.models(m),
    ensures
        chunk_amt(m, r) == chunk_amt(m, c),
{
}

/// Makes a chunk ready to take permission off. A path inside the guard keeps the
/// guard, which is then the guard of what remains.
pub fn normalize_guard_for_consume(ctx: &mut Context, existing: Chunk, pc: &Vec<(Id, Polarity)>) -> (r:
    Chunk)
    requires
        old(ctx).wf(),
        chunk_in(old(ctx).graph, existing),
        cube_in(old(ctx).graph, pc@),
    ensures
        old(ctx).leads_to(*final(ctx)),
        builds(*old(ctx), *final(ctx)),
        chunk_in(final(ctx).graph, r),
        readied(old(ctx).graph, final(ctx).graph, pc@, existing, r),
        existing.guard@.len() == 0 ==> *final(ctx) == *old(ctx),
        wild_in(r.perm) ==> wild_in(existing.perm),
{
    let ghost c0 = *ctx;
    proof {
        lemma_leads_refl(c0);
    }
    if existing.guard.len() == 0 {
        return existing;
    }
    if existing.pc_entails_guard(&ctx.graph, pc) {
        return existing;
    }
    let gated = existing.gated_perm(ctx);
    proof {
        lemma_chunk_grows(c0.graph, ctx.graph, existing);
    }
    existing.with_perm(gated).with_guard(Rc::new(Vec::new()))
}

/// What is left of a chunk when another is taken off it.
pub open spec fn debited(
    g: Graph,
    cs: Seq<Chunk>,
    e: Chunk,
    c: Chunk,
    rest: ChunkPerm,
    r: Seq<Chunk>,
) -> bool {
    &&& perm_in(g, rest)
    &&& differs(g, rest, e.perm, c.perm)
    &&& r == (if all_zero(g, rest) {
        without(cs, e.addr)
    } else {
        with(cs, Chunk { perm: rest, ..e })
    })
}

/// Takes a chunk off one that holds enough. What remains stays with the same guard,
/// unless nothing is known to remain.
pub fn debit_direct(ctx: &mut Context, out: &Heap, kind: usize, existing: &Chunk, chunk: &Chunk) -> (r:
    Heap)
    requires
        old(ctx).wf(),
        heap_in(old(ctx).graph, *out),
        chunk_in(old(ctx).graph, *existing),
        chunk_in(old(ctx).graph, *chunk),
    ensures
        reaches(*old(ctx), *final(ctx), only(same_fact(existing.value, chunk.value))),
        heap_in(final(ctx).graph, r),
        forall|k: usize| k != kind ==> #[trigger] r.group(k) == out.group(k),
        exists|rest: ChunkPerm| #[trigger]
            debited(
                final(ctx).graph,
                out.group(kind),
                *existing,
                *chunk,
                rest,
                r.group(kind),
            ) && (wild_in(rest) ==> wild_in(existing.perm)),
        final(ctx).graph.full() || forall|m: Model| #[trigger]
            final(ctx).graph.models(m) ==> m.at(existing.value) == m.at(chunk.value),
{
    let ghost c0 = *ctx;
    ctx.union(existing.value, chunk.value);
    let ghost c1 = *ctx;
    proof {
        let f = same_fact(existing.value, chunk.value);
        lemma_reaches_asserted(c0, c1, f, only(f));
        lemma_chunk_grows(c0.graph, c1.graph, *existing);
        lemma_chunk_grows(c0.graph, c1.graph, *chunk);
        if !c1.graph.full() {
            assert forall|m: Model| #[trigger] c1.graph.models(m) implies m.at(existing.value)
                == m.at(chunk.value) by {
                crate::graph::lemma_same_class(c1.graph, m, existing.value, chunk.value);
            }
        }
    }
    let rest = perm_sub_aligned(ctx, &existing.perm, &chunk.perm);
    let ghost cs = *ctx;
    ctx.rebuild();
    let ghost c2 = *ctx;
    proof {
        lemma_reaches_extended(c1, cs);
        lemma_reaches_follows(cs, c2);
        lemma_reaches_trans(c1, cs, c2);
        lemma_reaches_trans(c0, c1, c2);
        lemma_perm_grows(cs.graph, c2.graph, rest);
        if !c2.graph.full() {
            assert forall|m: Model| #[trigger] c2.graph.models(m) implies perm_amt(m, rest)
                == perm_amt(m, existing.perm) - perm_amt(m, chunk.perm) by {
                lemma_grows_models(cs.graph, c2.graph, m);
            }
        }
        lemma_heap_grows(c0.graph, c2.graph, *out);
        assert(crate::heap::groups::chunks_in(c2.graph, out.group(kind)));
        lemma_chunk_grows(c1.graph, c2.graph, *existing);
        if !c2.graph.full() {
            assert forall|m: Model| #[trigger] c2.graph.models(m) implies m.at(existing.value)
                == m.at(chunk.value) by {
                lemma_grows_models(c1.graph, c2.graph, m);
            }
        }
    }
    if perm_all_zero(&ctx.graph, &rest) {
        let r = out.without_chunk(kind, existing.addr);
        proof {
            lemma_without_in(c2.graph, out.group(kind), existing.addr);
            lemma_heap_with(c2.graph, *out, r, kind);
            assert(debited(c2.graph, out.group(kind), *existing, *chunk, rest, r.group(kind)));
        }
        r
    } else {
        let ghost left = rest;
        let kept = existing.copy().with_perm(rest);
        let ghost put = kept;
        let r = out.with_chunk(kind, kept);
        proof {
            lemma_with_in(c2.graph, out.group(kind), put);
            lemma_heap_with(c2.graph, *out, r, kind);
            assert(debited(c2.graph, out.group(kind), *existing, *chunk, left, r.group(kind)));
        }
        r
    }
}

/// Taking a chunk off one without a guard takes its amount off the location.
pub proof fn law_debited(
    g: Graph,
    cs: Seq<Chunk>,
    e: Chunk,
    c: Chunk,
    rest: ChunkPerm,
    r: Seq<Chunk>,
    m: Model,
    loc: Value,
)
    requires
        g.wf(),
        !g.full(),
        g.models(m),
        holds_chunk(cs, e),
        debited(g, cs, e, c, rest, r),
        e.guard@.len() == 0,
        c.guard@.len() == 0,
        m.at(e.addr) == m.at(c.addr),
    ensures
        total(m, r, loc) == total(m, cs, loc) - chunk_share(m, c, loc),
{
    lemma_place(cs, e.addr);
    if all_zero(g, rest) {
        law_all_zero(g, m, rest);
        law_without(m, cs, e.addr, loc);
    } else {
        law_with(m, cs, Chunk { perm: rest, ..e }, loc);
    }
}

/// What is left when a wildcard is taken off an amount: all of it where nothing is
/// demanded, and else a positive share that is less.
pub open spec fn wild_left(r: real, held: real, needed: real) -> bool {
    ||| needed <= 0 as real && r == held
    ||| r > 0 as real && r < held
}

/// On the path, what is left when a wildcard is taken off.
pub open spec fn wild_taken(
    g: Graph,
    pc: Seq<(Id, Polarity)>,
    r: ChunkPerm,
    held: ChunkPerm,
    needed: ChunkPerm,
) -> bool {
    g.full() || forall|m: Model| #[trigger]
        g.models(m) && cube_holds(m, pc) && perm_sorted(m, needed) ==> wild_left(
            perm_amt(m, r),
            perm_amt(m, held),
            perm_amt(m, needed),
        )
}

/// On the path, a class demands nothing.
pub open spec fn no_demand(g: Graph, pc: Seq<(Id, Polarity)>, id: Id) -> bool {
    !g.full() && forall|m: Model| #[trigger]
        g.models(m) && cube_holds(m, pc) ==> amount(m.at(id)) <= 0 as real
}

/// Proves that a class demands nothing on the path.
pub fn prove_no_demand(ctx: &mut Context, id: Id, pc: &Vec<(Id, Polarity)>) -> (r: bool)
    requires
        old(ctx).wf(),
        old(ctx).graph.has(id),
        cube_in(old(ctx).graph, pc@),
    ensures
        deduces(*old(ctx), *final(ctx)),
        r ==> no_demand(final(ctx).graph, pc@, id),
        r ==> shown_tm(*old(ctx), pc@, t_not(t_ltr(t_real(0 as real), Tm::Class(id)))),
        refuted(old(ctx).graph, pc@) && !final(ctx).graph.full() ==> r,
        !r ==> unshown(
            *old(ctx),
            *final(ctx),
            pc@,
            t_not(t_ltr(t_real(0 as real), Tm::Class(id))),
        ),
{
    let ghost c0 = *ctx;
    let ghost tm = t_not(t_ltr(t_real(0 as real), Tm::Class(id)));
    let goal = ctx.build(&Expr::negation(Expr::bin(BinOp::LtR, Expr::zero(), Expr::Class(id))));
    let ghost c1 = *ctx;
    proof {
        lemma_reaches_extended(c0, c1);
        lemma_cube_grows(c0.graph, c1.graph, pc@);
        if refuted(c0.graph, pc@) {
            let i = choose|i: int|
                0 <= i < pc@.len() && c0.graph.known_truth((#[trigger] pc@[i]).0) == Some(
                    pc@[i].1 != Polarity::Positive,
                );
            assert(c0.graph.has(pc@[i].0));
            assert(c1.graph.terms(pc@[i].0) == c0.graph.terms(pc@[i].0));
            assert(refuted(c1.graph, pc@));
        }
    }
    let r = ctx.prove_on_path(goal, pc);
    proof {
        let g = ctx.graph;
        lemma_reaches_trans(c0, c1, *ctx);
        lemma_grows_denotes(c1.graph, g, goal, tm);
        if !r {
            assert(left_open(c1, *ctx, pc@, goal));
        } else {
            assert(shown(c1, pc@, goal));
        }
        if r {
            assert forall|m: Model| #[trigger] g.models(m) && cube_holds(m, pc@) implies amount(
                m.at(id),
            ) <= 0 as real by {
                assert(m.is(goal, true));
                lemma_tm_not(m, t_ltr(t_real(0 as real), Tm::Class(id)));
                lemma_tm_lit(m, Value::Real(0 as real));
                lemma_tm_bin(m, BinOp::LtR, t_real(0 as real), Tm::Class(id));
            }
        }
    }
    r
}

/// Where one amount is less than another on the path, and the path holds, it is.
proof fn lemma_less_on(m: Model, pc: Seq<(Id, Polarity)>, x: Id, y: Id)
    requires
        equation_holds(m, less_fact(pc, x, y)),
        cube_holds(m, pc),
    ensures
        amount(m.at(x)) < amount(m.at(y)),
{
    crate::prove::law_guard_value(
        m,
        pc,
        t_ltr(Tm::Class(x), Tm::Class(y)),
    );
    lemma_tm_lit(m, Value::Bool(true));
    lemma_tm_bin(m, BinOp::LtR, Tm::Class(x), Tm::Class(y));
}

/// That an amount is positive, where something is demanded, was tried in vain along the
/// choices of a demand: neither that nothing is demanded nor that the amount is
/// positive was shown.
pub open spec fn unmet_wild(
    a: Context,
    b: Context,
    pc: Seq<(Id, Polarity)>,
    held: ChunkPerm,
    needed: ChunkPerm,
) -> bool
    decreases needed,
{
    match needed {
        ChunkPerm::Leaf { id, .. } => exists|c: Context, d: Context, h: Id|
            {
                &&& unshown(a, c, pc, t_not(t_ltr(t_real(0 as real), Tm::Class(id))))
                &&& #[trigger] builds(c, d)
                &&& d.graph.denotes(h, perm_tm(held))
                &&& #[trigger] unmet(d, b, pc, h, Ask::Positive)
            },
        ChunkPerm::Select { cond, on, off } => {
            ||| exists|d: Context|
                #[trigger] d.leads_to(b) && unmet_wild(
                    a,
                    d,
                    pc.push((cond, Polarity::Positive)),
                    collapsed(a.graph, cond, held, true),
                    *on,
                )
            ||| exists|c: Context, d: Context|
                #[trigger] a.leads_to(c) && #[trigger] d.leads_to(b) && unmet_wild(
                    c,
                    d,
                    pc.push((cond, Polarity::Negative)),
                    collapsed(c.graph, cond, held, false),
                    *off,
                )
        },
    }
}

/// Takes a wildcard off an amount on a path. Along the choices of the demand: where
/// nothing is demanded, nothing is taken; elsewhere the amount must be positive, and a
/// fresh share that is less remains. Tells whether the amount was enough.
pub fn debit_wildcard_walk(
    ctx: &mut Context,
    held: &ChunkPerm,
    needed: &ChunkPerm,
    held_value: Id,
    needed_value: Id,
    pc: &Vec<(Id, Polarity)>,
) -> (r: (ChunkPerm, bool))
    requires
        old(ctx).wf(),
        perm_in(old(ctx).graph, *held),
        perm_in(old(ctx).graph, *needed),
        old(ctx).graph.has(held_value),
        old(ctx).graph.has(needed_value),
        cube_in(old(ctx).graph, pc@),
    ensures
        reaches(
            *old(ctx),
            *final(ctx),
            only(same_fact(held_value, needed_value)) + fresh_facts(old(ctx).next_fresh),
        ),
        perm_in(final(ctx).graph, r.0),
        !r.1 ==> unmet_wild(*old(ctx), *final(ctx), pc@, *held, *needed),
        r.1 ==> wild_taken(final(ctx).graph, pc@, r.0, *held, *needed),
        *held matches ChunkPerm::Leaf { id, .. } ==> (*needed is Leaf && known_enough(
            old(ctx).graph,
            id,
            Ask::Positive,
        ) ==> r.1),
    decreases needed,
{
    let ghost c0 = *ctx;
    let ghost fs = only(same_fact(held_value, needed_value)) + fresh_facts(c0.next_fresh);
    match needed {
        ChunkPerm::Leaf { id, .. } => {
            let sure = match held {
                ChunkPerm::Leaf { id: h, .. } => is_known_enough(&ctx.graph, *h, &Ask::Positive),
                _ => false,
            };
            let none = prove_no_demand(ctx, *id, pc);
            let ghost c2 = *ctx;
            proof {
                lemma_perm_grows(c0.graph, c2.graph, *held);
                lemma_cube_grows(c0.graph, c2.graph, pc@);
            }
            if none {
                let r = (held.copy(), true);
                proof {
                    let g = c2.graph;
                    assert forall|m: Model| #[trigger]
                        g.models(m) && cube_holds(m, pc@) && perm_sorted(m, *needed) implies wild_left(
                        perm_amt(m, r.0),
                        perm_amt(m, *held),
                        perm_amt(m, *needed),
                    ) by {
                        assert(amount(m.at(*id)) <= 0 as real);
                    }
                }
                return r;
            }
            let held_id = held.to_id(ctx);
            let ghost c3 = *ctx;
            proof {
                lemma_reaches_extended(c2, c3);
                lemma_reaches_trans(c0, c2, c3);
                lemma_cube_grows(c2.graph, c3.graph, pc@);
                lemma_perm_grows(c2.graph, c3.graph, *held);
            }
            let ok = sure || prove_ask(ctx, held_id, &Ask::Positive, pc);
            let ghost c4 = *ctx;
            proof {
                lemma_reaches_refl(c3);
                lemma_reaches_trans(c0, c3, c4);
                lemma_perm_grows(c3.graph, c4.graph, *held);
                lemma_cube_grows(c3.graph, c4.graph, pc@);
            }
            if !ok {
                proof {
                    assert(unshown(
                        c0,
                        c2,
                        pc@,
                        t_not(t_ltr(t_real(0 as real), Tm::Class(*id))),
                    ));
                    assert(builds(c2, c3) && unmet(c3, c4, pc@, held_id, Ask::Positive));
                    assert(unmet_wild(c0, c4, pc@, *held, *needed));
                }
                return (held.copy(), false);
            }
            proof {
                assert forall|m: Model| #[trigger]
                    c4.graph.models(m) && cube_holds(m, pc@) && !c4.graph.full() implies perm_amt(
                    m,
                    *held,
                ) > 0 as real by {
                    if sure {
                        lemma_grows_models(c0.graph, c4.graph, m);
                        if let ChunkPerm::Leaf { id: h, .. } = *held {
                            lemma_known_enough(c0.graph, m, h, Ask::Positive);
                        }
                    } else {
                        let leaf = ChunkPerm::Leaf { id: held_id, wild: false };
                        assert(is_enough(m, Ask::Positive, perm_amt(m, leaf)));
                        lemma_grows_denotes(c3.graph, c4.graph, held_id, perm_tm(*held));
                        lemma_to_id(c4.graph, m, held_id, *held);
                    }
                }
            }
            ctx.union(held_value, needed_value);
            let ghost c5 = *ctx;
            proof {
                lemma_reaches_asserted(c4, c5, same_fact(held_value, needed_value), fs);
                lemma_reaches_trans(c0, c4, c5);
            }
            let share = fresh_share(ctx);
            let ghost c6 = *ctx;
            proof {
                lemma_leads_trans(c0, c4, c5);
                lemma_fresh_more(c0.next_fresh, c5.next_fresh);
                lemma_reaches_more(c5, c6, fresh_facts(c5.next_fresh), fs);
                lemma_reaches_trans(c0, c5, c6);
                lemma_cube_grows(c0.graph, c6.graph, pc@);
            }
            assume_less(ctx, share, held_id, pc);
            let r = (ChunkPerm::wild_leaf(share), true);
            proof {
                let c7 = *ctx;
                let g = c7.graph;
                let n = choose|n: u32|
                    c5.next_fresh <= n && #[trigger] c6.graph.denotes(
                        share,
                        crate::context::t_fresh(n),
                    );
                lemma_less_fresh(c0, c6, c7, share, n, less_fact(pc@, share, held_id));
                lemma_reaches_more(c6, c7, fresh_facts(c0.next_fresh), fs);
                lemma_reaches_trans(c0, c6, c7);
                lemma_leads_trans(c3, c4, c5);
                lemma_leads_trans(c3, c5, c6);
                lemma_leads_trans(c3, c6, c7);
                lemma_leads_trans(c4, c5, c6);
                lemma_leads_trans(c4, c6, c7);
                lemma_grows_denotes(c3.graph, g, held_id, perm_tm(*held));
                if !g.full() {
                    assert forall|m: Model| #[trigger]
                        g.models(m) && cube_holds(m, pc@) && perm_sorted(m, *needed) implies wild_left(
                        perm_amt(m, r.0),
                        perm_amt(m, *held),
                        perm_amt(m, *needed),
                    ) by {
                        lemma_grows_models(c4.graph, g, m);
                        lemma_grows_models(c6.graph, g, m);
                        lemma_to_id(g, m, held_id, *held);
                        crate::context::lemma_learns_holds(
                            c6,
                            c7,
                            seq![less_fact(pc@, share, held_id)],
                            m,
                        );
                        let fs = seq![less_fact(pc@, share, held_id)];
                        assert(equation_holds(m, fs[0]));
                        lemma_less_on(m, pc@, share, held_id);
                        crate::context::lemma_learns_holds(
                            c5,
                            c6,
                            seq![share_fact(share)],
                            m,
                        );
                        let ss = seq![share_fact(share)];
                        assert(equation_holds(m, ss[0]));
                        lemma_share(m, share);
                    }
                }
            }
            r
        },
        ChunkPerm::Select { cond, on, off } => {
            proof {
                lemma_collapsed_in(c0.graph, *cond, *held, true);
                lemma_collapsed_in(c0.graph, *cond, *held, false);
            }
            let ht = ChunkPerm::restrict(&ctx.graph, *cond, held, true);
            let pt = with_lit(pc, (*cond, Polarity::Positive));
            let (t, t_ok) = debit_wildcard_walk(ctx, &ht, &**on, held_value, needed_value, &pt);
            let ghost c1 = *ctx;
            proof {
                lemma_perm_grows(c0.graph, c1.graph, *held);
                lemma_perm_grows(c0.graph, c1.graph, **off);
                lemma_cube_grows(c0.graph, c1.graph, pc@);
                lemma_collapsed_in(c1.graph, *cond, *held, false);
            }
            let he = ChunkPerm::restrict(&ctx.graph, *cond, held, false);
            let pe = with_lit(pc, (*cond, Polarity::Negative));
            let (e, e_ok) = debit_wildcard_walk(ctx, &he, &**off, held_value, needed_value, &pe);
            let ghost c2 = *ctx;
            proof {
                lemma_fresh_more(c0.next_fresh, c1.next_fresh);
                lemma_reaches_more(
                    c1,
                    c2,
                    only(same_fact(held_value, needed_value)) + fresh_facts(c1.next_fresh),
                    fs,
                );
                lemma_reaches_trans(c0, c1, c2);
                lemma_perm_grows(c1.graph, c2.graph, t);
            }
            let r = ChunkPerm::select(ctx, *cond, &t, &e);
            let out = (r, t_ok && e_ok);
            proof {
                let g = ctx.graph;
                lemma_leads_trans(c1, c2, *ctx);
                lemma_reaches_extended(c2, *ctx);
                assert(c2.leads_to(*ctx));
                if !t_ok {
                    assert(unmet_wild(
                        c0,
                        c1,
                        pc@.push((*cond, Polarity::Positive)),
                        collapsed(c0.graph, *cond, *held, true),
                        **on,
                    ));
                    assert(c1.leads_to(*ctx));
                    assert(unmet_wild(c0, *ctx, pc@, *held, *needed));
                } else if !e_ok {
                    assert(unmet_wild(
                        c1,
                        c2,
                        pc@.push((*cond, Polarity::Negative)),
                        collapsed(c1.graph, *cond, *held, false),
                        **off,
                    ));
                    assert(c0.leads_to(c1) && c2.leads_to(*ctx));
                    assert(unmet_wild(c0, *ctx, pc@, *held, *needed));
                }
                lemma_reaches_extended(c2, *ctx);
                lemma_reaches_trans(c0, c2, *ctx);
                if out.1 && !g.full() {
                    assert forall|m: Model| #[trigger]
                        g.models(m) && cube_holds(m, pc@) && perm_sorted(m, *needed) implies wild_left(
                        perm_amt(m, out.0),
                        perm_amt(m, *held),
                        perm_amt(m, *needed),
                    ) by {
                        lemma_grows_models(c1.graph, g, m);
                        lemma_grows_models(c0.graph, g, m);
                        law_selected(g, m, *cond, t, e);
                        if met(m, *cond) {
                            law_collapsed(c0.graph, m, *cond, *held, true);
                            lemma_cube_holds_push(m, pc@, (*cond, Polarity::Positive));
                        } else {
                            law_collapsed(c1.graph, m, *cond, *held, false);
                            lemma_cube_holds_push(m, pc@, (*cond, Polarity::Negative));
                        }
                    }
                }
            }
            out
        },
    }
}

} // verus!
