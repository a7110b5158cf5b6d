//! Adding, taking off and gating permission amounts.

use crate::context::{builds, lemma_leads_trans, Context};
use crate::graph::Graph;
use crate::heap::perm::{
    collapsed, law_collapsed, law_selected, lemma_collapsed_in, lemma_collapsed_sorted,
    lemma_perm_grows, lemma_selected_in, lemma_selected_sorted, met, perm_amt, perm_in,
    perm_sorted, selected, wild_in, ChunkPerm,
};
use crate::lang::Id;
use crate::method::merge::amount;
use crate::model::{lemma_tm_bin, t_bin, Model, Tm};
use crate::terms::{lemma_grows_models, lemma_known, Expr};
use crate::vmir::{BinOp, Value};
use vstd::prelude::*;

verus! {

broadcast use crate::context::lemma_builds_trans;

/// In every model, one amount is the sum of two others.
pub open spec fn adds(g: Graph, r: ChunkPerm, a: ChunkPerm, b: ChunkPerm) -> bool {
    g.full() || forall|m: Model| #[trigger]
        g.models(m) ==> perm_amt(m, r) == perm_amt(m, a) + perm_amt(m, b)
}

/// In every model, one amount is the difference of two others.
pub open spec fn differs(g: Graph, r: ChunkPerm, a: ChunkPerm, b: ChunkPerm) -> bool {
    g.full() || forall|m: Model| #[trigger]
        g.models(m) ==> perm_amt(m, r) == perm_amt(m, a) - perm_amt(m, b)
}

/// The number of leaves and choices.
pub open spec fn perm_size(p: ChunkPerm) -> nat
    decreases p,
{
    match p {
        ChunkPerm::Leaf { .. } => 1,
        ChunkPerm::Select { on, off, .. } => 1 + perm_size(*on) + perm_size(*off),
    }
}

pub proof fn lemma_collapsed_size(g: Graph, cond: Id, p: ChunkPerm, side: bool)
    ensures
        perm_size(collapsed(g, cond, p, side)) <= perm_size(p),
    decreases p,
{
    if let ChunkPerm::Select { cond: c, on, off } = p {
        if g.canon(c) == g.canon(cond) {
            if side {
                lemma_collapsed_size(g, cond, *on, side);
            } else {
                lemma_collapsed_size(g, cond, *off, side);
            }
        }
    }
}

/// The amounts of two classes are those of a real operation on them.
proof fn lemma_bin_amount(g: Graph, m: Model, r: Id, op: BinOp, x: Id, y: Id)
    requires
        !g.full(),
        g.models(m),
        op == BinOp::AddR || op == BinOp::SubR,
        g.denotes(r, t_bin(op, Tm::Class(x), Tm::Class(y))),
    ensures
        op == BinOp::AddR ==> amount(m.at(r)) == amount(m.at(x)) + amount(m.at(y)),
        op == BinOp::SubR ==> amount(m.at(r)) == amount(m.at(x)) - amount(m.at(y)),
{
    lemma_tm_bin(m, op, Tm::Class(x), Tm::Class(y));
}

/// The parts of a choice put together again, where each was computed inside its arm.
proof fn lemma_joined(
    g: Graph,
    h: Graph,
    m: Model,
    cond: Id,
    p: ChunkPerm,
    t: ChunkPerm,
    e: ChunkPerm,
)
    requires
        g.wf(),
        h.wf(),
        !h.full(),
        g.grows_to(h),
        h.models(m),
        g.has(cond),
        perm_in(g, p),
        perm_in(h, t),
        perm_in(h, e),
    ensures
        met(m, cond) ==> perm_amt(m, selected(h, cond, t, e)) == perm_amt(m, t) && perm_amt(
            m,
            collapsed(g, cond, p, true),
        ) == perm_amt(m, p),
        !met(m, cond) ==> perm_amt(m, selected(h, cond, t, e)) == perm_amt(m, e) && perm_amt(
            m,
            collapsed(g, cond, p, false),
        ) == perm_amt(m, p),
{
    lemma_grows_models(g, h, m);
    law_selected(h, m, cond, t, e);
    law_collapsed(g, m, cond, p, met(m, cond));
}

/// The sum of two amounts. Choices stay choices: their arms are added.
pub fn perm_add(ctx: &mut Context, a: &ChunkPerm, b: &ChunkPerm) -> (r: ChunkPerm)
    requires
        old(ctx).wf(),
        perm_in(old(ctx).graph, *a),
        perm_in(old(ctx).graph, *b),
    ensures
        old(ctx).leads_to(*final(ctx)),
        builds(*old(ctx), *final(ctx)),
        perm_in(final(ctx).graph, r),
        adds(final(ctx).graph, r, *a, *b),
        wild_in(r) ==> wild_in(*a) || wild_in(*b),
        forall|m: Model|
            perm_sorted(m, *a) && perm_sorted(m, *b) ==> #[trigger] perm_sorted(m, r),
    decreases perm_size(*a) + perm_size(*b),
{
    let ghost c0 = *ctx;
    match (a, b) {
        (ChunkPerm::Leaf { id: x, wild: wx }, ChunkPerm::Leaf { id: y, wild: wy }) => {
            let id = ctx.build(&Expr::bin(BinOp::AddR, Expr::Class(*x), Expr::Class(*y)));
            let r = ChunkPerm::Leaf { id, wild: *wx || *wy };
            proof {
                if !ctx.graph.full() {
                    assert forall|m: Model| #[trigger] ctx.graph.models(m) implies perm_amt(m, r)
                        == perm_amt(m, *a) + perm_amt(m, *b) by {
                        lemma_bin_amount(ctx.graph, m, id, BinOp::AddR, *x, *y);
                    }
                }
            }
            r
        },
        (ChunkPerm::Select { cond, on, off }, _) => {
            proof {
                lemma_collapsed_in(c0.graph, *cond, *b, true);
                lemma_collapsed_in(c0.graph, *cond, *b, false);
                lemma_collapsed_size(c0.graph, *cond, *b, true);
                lemma_collapsed_size(c0.graph, *cond, *b, false);
            }
            let bt = ChunkPerm::restrict(&ctx.graph, *cond, b, true);
            let be = ChunkPerm::restrict(&ctx.graph, *cond, b, false);
            let t = perm_add(ctx, &**on, &bt);
            let ghost c1 = *ctx;
            proof {
                lemma_perm_grows(c0.graph, c1.graph, **off);
                lemma_perm_grows(c0.graph, c1.graph, be);
            }
            let e = perm_add(ctx, &**off, &be);
            let ghost c2 = *ctx;
            proof {
                lemma_leads_trans(c0, c1, c2);
                lemma_perm_grows(c1.graph, c2.graph, t);
                lemma_selected_in(c2.graph, *cond, t, e);
            }
            let r = ChunkPerm::select(ctx, *cond, &t, &e);
            proof {
                lemma_leads_trans(c0, c2, *ctx);
                let g = ctx.graph;
                if !g.full() {
                    assert forall|m: Model| #[trigger] g.models(m) implies perm_amt(m, r)
                        == perm_amt(m, *a) + perm_amt(m, *b) by {
                        lemma_grows_models(c1.graph, g, m);
                        lemma_joined(c0.graph, g, m, *cond, *b, t, e);
                    }
                }
                assert forall|m: Model| perm_sorted(m, *a) && perm_sorted(m, *b) implies #[trigger]
                    perm_sorted(m, r) by {
                    lemma_collapsed_sorted(c0.graph, m, *cond, *b, true);
                    lemma_collapsed_sorted(c0.graph, m, *cond, *b, false);
                    lemma_selected_sorted(c2.graph, m, *cond, t, e);
                }
            }
            r
        },
        (ChunkPerm::Leaf { .. }, ChunkPerm::Select { cond, on, off }) => {
            let t = perm_add(ctx, a, &**on);
            let ghost c1 = *ctx;
            proof {
                lemma_perm_grows(c0.graph, c1.graph, **off);
                lemma_perm_grows(c0.graph, c1.graph, *a);
            }
            let e = perm_add(ctx, a, &**off);
            let ghost c2 = *ctx;
            proof {
                lemma_leads_trans(c0, c1, c2);
                lemma_perm_grows(c1.graph, c2.graph, t);
                lemma_selected_in(c2.graph, *cond, t, e);
            }
            let r = ChunkPerm::select(ctx, *cond, &t, &e);
            proof {
                lemma_leads_trans(c0, c2, *ctx);
                let g = ctx.graph;
                if !g.full() {
                    assert forall|m: Model| #[trigger] g.models(m) implies perm_amt(m, r)
                        == perm_amt(m, *a) + perm_amt(m, *b) by {
                        lemma_grows_models(c1.graph, g, m);
                        lemma_joined(c0.graph, g, m, *cond, *a, t, e);
                    }
                }
                assert forall|m: Model| perm_sorted(m, *a) && perm_sorted(m, *b) implies #[trigger]
                    perm_sorted(m, r) by {
                    lemma_selected_sorted(c2.graph, m, *cond, t, e);
                }
            }
            r
        },
    }
}

/// An amount without a class of one.
pub fn perm_sub(ctx: &mut Context, held: &ChunkPerm, needed: Id) -> (r: ChunkPerm)
    requires
        old(ctx).wf(),
        perm_in(old(ctx).graph, *held),
        old(ctx).graph.has(needed),
    ensures
        old(ctx).leads_to(*final(ctx)),
        builds(*old(ctx), *final(ctx)),
        perm_in(final(ctx).graph, r),
        differs(final(ctx).graph, r, *held, ChunkPerm::Leaf { id: needed, wild: false }),
        wild_in(r) ==> wild_in(*held),
    decreases held,
{
    let ghost c0 = *ctx;
    let ghost n = ChunkPerm::Leaf { id: needed, wild: false };
    match held {
        ChunkPerm::Leaf { id: x, wild } => {
            let id = ctx.build(&Expr::bin(BinOp::SubR, Expr::Class(*x), Expr::Class(needed)));
            let r = ChunkPerm::Leaf { id, wild: *wild };
            proof {
                if !ctx.graph.full() {
                    assert forall|m: Model| #[trigger] ctx.graph.models(m) implies perm_amt(m, r)
                        == perm_amt(m, *held) - perm_amt(m, n) by {
                        lemma_bin_amount(ctx.graph, m, id, BinOp::SubR, *x, needed);
                    }
                }
            }
            r
        },
        ChunkPerm::Select { cond, on, off } => {
            let t = perm_sub(ctx, &**on, needed);
            let ghost c1 = *ctx;
            proof {
                lemma_perm_grows(c0.graph, c1.graph, **off);
            }
            let e = perm_sub(ctx, &**off, needed);
            let ghost c2 = *ctx;
            proof {
                lemma_leads_trans(c0, c1, c2);
                lemma_perm_grows(c1.graph, c2.graph, t);
                lemma_selected_in(c2.graph, *cond, t, e);
            }
            let r = ChunkPerm::select(ctx, *cond, &t, &e);
            proof {
                lemma_leads_trans(c0, c2, *ctx);
                let g = ctx.graph;
                if !g.full() {
                    assert forall|m: Model| #[trigger] g.models(m) implies perm_amt(m, r)
                        == perm_amt(m, *held) - perm_amt(m, n) by {
                        lemma_grows_models(c1.graph, g, m);
                        law_selected(g, m, *cond, t, e);
                    }
                }
            }
            r
        },
    }
}

/// An amount without another. The arms of the choices of both are taken off each
/// other.
pub fn perm_sub_aligned(ctx: &mut Context, held: &ChunkPerm, needed: &ChunkPerm) -> (r: ChunkPerm)
    requires
        old(ctx).wf(),
        perm_in(old(ctx).graph, *held),
        perm_in(old(ctx).graph, *needed),
    ensures
        old(ctx).leads_to(*final(ctx)),
        builds(*old(ctx), *final(ctx)),
        perm_in(final(ctx).graph, r),
        differs(final(ctx).graph, r, *held, *needed),
        wild_in(r) ==> wild_in(*held),
    decreases needed,
{
    let ghost c0 = *ctx;
    match needed {
        ChunkPerm::Leaf { id, .. } => {
            let r = perm_sub(ctx, held, *id);
            proof {
                if !ctx.graph.full() {
                    assert forall|m: Model| #[trigger] ctx.graph.models(m) implies perm_amt(m, r)
                        == perm_amt(m, *held) - perm_amt(m, *needed) by {}
                }
            }
            r
        },
        ChunkPerm::Select { cond, on, off } => {
            proof {
                lemma_collapsed_in(c0.graph, *cond, *held, true);
                lemma_collapsed_in(c0.graph, *cond, *held, false);
            }
            let ht = ChunkPerm::restrict(&ctx.graph, *cond, held, true);
            let he = ChunkPerm::restrict(&ctx.graph, *cond, held, false);
            let t = perm_sub_aligned(ctx, &ht, &**on);
            let ghost c1 = *ctx;
            proof {
                lemma_perm_grows(c0.graph, c1.graph, **off);
                lemma_perm_grows(c0.graph, c1.graph, he);
            }
            let e = perm_sub_aligned(ctx, &he, &**off);
            let ghost c2 = *ctx;
            proof {
                lemma_leads_trans(c0, c1, c2);
                lemma_perm_grows(c1.graph, c2.graph, t);
                lemma_selected_in(c2.graph, *cond, t, e);
            }
            let r = ChunkPerm::select(ctx, *cond, &t, &e);
            proof {
                lemma_leads_trans(c0, c2, *ctx);
                let g = ctx.graph;
                if !g.full() {
                    assert forall|m: Model| #[trigger] g.models(m) implies perm_amt(m, r)
                        == perm_amt(m, *held) - perm_amt(m, *needed) by {
                        lemma_grows_models(c1.graph, g, m);
                        lemma_joined(c0.graph, g, m, *cond, *held, t, e);
                    }
                }
            }
            r
        },
    }
}

/// Every leaf is known to be zero.
pub open spec fn all_zero(g: Graph, p: ChunkPerm) -> bool
    decreases p,
{
    match p {
        ChunkPerm::Leaf { id, .. } => g.known_value(id) == Some(Value::Real(0 as real)),
        ChunkPerm::Select { on, off, .. } => all_zero(g, *on) && all_zero(g, *off),
    }
}

/// Whether every leaf is known to be zero.
pub fn perm_all_zero(g: &Graph, p: &ChunkPerm) -> (r: bool)
    requires
        g.wf(),
        perm_in(*g, *p),
    ensures
        r == all_zero(*g, *p),
    decreases p,
{
    match p {
        ChunkPerm::Leaf { id, .. } => crate::method::subtract::known_zero(g, *id),
        ChunkPerm::Select { on, off, .. } => {
            let t = perm_all_zero(g, &**on);
            let e = perm_all_zero(g, &**off);
            t && e
        },
    }
}

/// Where every leaf is known to be zero, the amount is zero.
pub proof fn law_all_zero(g: Graph, m: Model, p: ChunkPerm)
    requires
        g.wf(),
        g.models(m),
        perm_in(g, p),
        all_zero(g, p),
    ensures
        perm_amt(m, p) == 0 as real,
    decreases p,
{
    match p {
        ChunkPerm::Leaf { id, .. } => {
            lemma_known(g, m, id);
        },
        ChunkPerm::Select { on, off, .. } => {
            law_all_zero(g, m, *on);
            law_all_zero(g, m, *off);
        },
    }
}

} // verus!
