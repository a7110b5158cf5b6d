//! The value of a location that two chunks cover, and sums with a wildcard.

use crate::context::{
    cube_in, learns, lemma_cube_grows, lemma_leads_trans, lemma_learns_asserted,
    lemma_learns_extended, lemma_learns_holds, lemma_learns_refl, Context,
};
use crate::graph::Graph;
use crate::heap::amount::{lemma_collapsed_size, perm_size};
use crate::heap::facts::{
    agree_fact, fresh_facts, is_fresh_fact, is_share_fact, lemma_fresh_more, lemma_reaches_asserted,
    lemma_reaches_extended, lemma_reaches_more, lemma_reaches_refl, lemma_reaches_trans, less_fact,
    only, reaches, share_fact,
};
use crate::heap::perm::{
    law_collapsed, law_selected, lemma_collapsed_in, lemma_perm_grows, met, perm_amt, perm_in,
    wild_in, ChunkPerm,
};
use crate::heap::sign::{perm_known_positive, signed};
use crate::lang::Id;
use crate::method::merge::{agreement, amount};
use crate::method::plain::Chunk;
use crate::model::{
    equation_holds, lemma_tm_bin, lemma_tm_lit, t_bool, t_ite, t_ltr, t_real, Model, Tm,
};
use crate::rewrite::guards::{class_guards, guard_expr};
use crate::terms::{lemma_grows_denotes, lemma_grows_models, Expr};
use crate::vmir::{BinOp, Polarity, Value};
use vstd::prelude::*;

verus! {

/// The class of a value: the first where the first amount is positive, else the
/// second.
pub open spec fn picks(g: Graph, r: Id, p: Id, v: Id, w: Id) -> bool {
    &&& g.has(r)
    &&& g.denotes(
        r,
        t_ite(t_ltr(t_real(0 as real), Tm::Class(p)), Tm::Class(v), Tm::Class(w)),
    )
}

/// Assumes that two values agree where an amount is positive on the path.
pub fn assume_values_agree(ctx: &mut Context, p: Id, v: Id, w: Id, pc: &Vec<(Id, Polarity)>)
    requires
        old(ctx).wf(),
        old(ctx).graph.has(p),
        old(ctx).graph.has(v),
        old(ctx).graph.has(w),
        cube_in(old(ctx).graph, pc@),
    ensures
        learns(*old(ctx), *final(ctx), seq![agree_fact(pc@, p, v, w)]),
        reaches(*old(ctx), *final(ctx), only(agree_fact(pc@, p, v, w))),
        crate::rewrite::pins::asserted(
            old(ctx).graph,
            final(ctx).graph,
            seq![agree_fact(pc@, p, v, w)],
        ),
{
    let ghost c0 = *ctx;
    let held = Expr::bin(BinOp::LtR, Expr::zero(), Expr::Class(p));
    let same = Expr::bin(BinOp::Eq, Expr::Class(v), Expr::Class(w));
    let fact = guard_expr(pc, Expr::ite(held, same, Expr::boolean(true)));
    ctx.assume_expr(&fact);
    proof {
        let f = agree_fact(pc@, p, v, w);
        lemma_reaches_asserted(c0, *ctx, f, only(f));
    }
}

/// The value of a location that two chunks cover. It is assumed that the values agree
/// where both amounts are positive on the path.
pub fn merge_values(
    ctx: &mut Context,
    p0: Id,
    v0: Id,
    p1: Id,
    v1: Id,
    pc: &Vec<(Id, Polarity)>,
) -> (r: Id)
    requires
        old(ctx).wf(),
        old(ctx).graph.has(p0),
        old(ctx).graph.has(v0),
        old(ctx).graph.has(p1),
        old(ctx).graph.has(v1),
        cube_in(old(ctx).graph, pc@),
    ensures
        learns(
            *old(ctx),
            *final(ctx),
            seq![
                (
                    agreement(
                        pc@,
                        Chunk { perm: p0, value: v0 },
                        Chunk { perm: p1, value: v1 },
                    ),
                    t_bool(true),
                ),
            ],
        ),
        reaches(
            *old(ctx),
            *final(ctx),
            only(
                (
                    agreement(
                        pc@,
                        Chunk { perm: p0, value: v0 },
                        Chunk { perm: p1, value: v1 },
                    ),
                    t_bool(true),
                ),
            ),
        ),
        exists|mid: Context|
            {
                &&& #[trigger] crate::context::builds(*old(ctx), mid)
                &&& mid.leads_to(*final(ctx))
                &&& crate::rewrite::pins::asserted(
                    mid.graph,
                    final(ctx).graph,
                    seq![
                        (
                            agreement(
                                pc@,
                                Chunk { perm: p0, value: v0 },
                                Chunk { perm: p1, value: v1 },
                            ),
                            t_bool(true),
                        ),
                    ],
                )
            },
        picks(final(ctx).graph, r, p0, v0, v1),
{
    let ghost c0 = *ctx;
    let ghost a = Chunk { perm: p0, value: v0 };
    let ghost b = Chunk { perm: p1, value: v1 };
    let held = Expr::bin(BinOp::LtR, Expr::zero(), Expr::Class(p0));
    let value = ctx.build(&Expr::ite(held, Expr::Class(v0), Expr::Class(v1)));
    let ghost c1 = *ctx;
    let same = Expr::bin(BinOp::Eq, Expr::Class(v0), Expr::Class(v1));
    let second = Expr::bin(BinOp::LtR, Expr::zero(), Expr::Class(p1));
    let inner = Expr::ite(second, same, Expr::boolean(true));
    let first = Expr::bin(BinOp::LtR, Expr::zero(), Expr::Class(p0));
    let fact = guard_expr(pc, Expr::ite(first, inner, Expr::boolean(true)));
    proof {
        lemma_cube_grows(c0.graph, c1.graph, pc@);
    }
    ctx.assume_expr(&fact);
    proof {
        let f = (agreement(pc@, a, b), t_bool(true));
        let facts = seq![f];
        lemma_learns_refl(c0);
        lemma_learns_extended(c0, c0, c1, Seq::empty());
        lemma_learns_asserted(c0, c1, *ctx, Seq::empty(), facts);
        assert(Seq::<(Tm, Tm)>::empty() + facts =~= facts);
        lemma_reaches_extended(c0, c1);
        lemma_reaches_asserted(c1, *ctx, f, only(f));
        lemma_reaches_trans(c0, c1, *ctx);
        lemma_grows_denotes(
            c1.graph,
            ctx.graph,
            value,
            t_ite(t_ltr(t_real(0 as real), Tm::Class(p0)), Tm::Class(v0), Tm::Class(v1)),
        );
    }
    value
}

/// The total of two amounts, one of which may have a wildcard: their sum, or a share
/// that is more than one of them where the other is positive.
pub open spec fn wild_total(r: real, x: real, y: real) -> bool {
    ||| r == x + y
    ||| r > 0 as real && ((y > 0 as real && x < r) || (x > 0 as real && y < r))
}

/// In every model an amount is a total of two others.
pub open spec fn wild_adds(g: Graph, r: ChunkPerm, a: ChunkPerm, b: ChunkPerm) -> bool {
    g.full() || forall|m: Model| #[trigger]
        g.models(m) ==> wild_total(perm_amt(m, r), perm_amt(m, a), perm_amt(m, b))
}

proof fn lemma_less(m: Model, x: Id, y: Id)
    requires
        equation_holds(m, less_fact(Seq::empty(), x, y)),
    ensures
        amount(m.at(x)) < amount(m.at(y)),
{
    assert(class_guards(Seq::<(Id, Polarity)>::empty()) =~= Seq::empty());
    lemma_tm_bin(m, BinOp::LtR, Tm::Class(x), Tm::Class(y));
    lemma_tm_lit(m, Value::Bool(true));
}

pub proof fn lemma_share(m: Model, s: Id)
    requires
        equation_holds(m, share_fact(s)),
    ensures
        amount(m.at(s)) > 0 as real,
{
    lemma_tm_lit(m, Value::Real(0 as real));
    lemma_tm_bin(m, BinOp::LtR, t_real(0 as real), Tm::Class(s));
    lemma_tm_lit(m, Value::Bool(true));
}

/// A fresh positive share.
pub fn fresh_share(ctx: &mut Context) -> (r: Id)
    requires
        old(ctx).wf(),
    ensures
        reaches(*old(ctx), *final(ctx), fresh_facts(old(ctx).next_fresh)),
        learns(*old(ctx), *final(ctx), seq![share_fact(r)]),
        final(ctx).graph.has(r),
        exists|n: u32|
            old(ctx).next_fresh <= n && #[trigger] final(ctx).graph.denotes(
                r,
                crate::context::t_fresh(n),
            ),
{
    let ghost c0 = *ctx;
    let s = ctx.fresh_wildcard();
    proof {
        let (mid, n) = choose|mid: Context, n: u32|
            {
                &&& #[trigger] crate::context::builds(c0, mid)
                &&& mid.leads_to(*ctx)
                &&& c0.next_fresh <= n
                &&& mid.graph.denotes(s, #[trigger] crate::context::t_fresh(n))
                &&& crate::rewrite::pins::asserted(mid.graph, ctx.graph, seq![share_fact(s)])
            };
        let fs = fresh_facts(c0.next_fresh);
        assert(is_share_fact(s, share_fact(s)));
        assert(is_fresh_fact(mid.graph, c0.next_fresh, share_fact(s)));
        assert(fs.contains((mid.graph, share_fact(s))));
        lemma_reaches_extended(c0, mid);
        lemma_reaches_asserted(mid, *ctx, share_fact(s), fs);
        lemma_reaches_trans(c0, mid, *ctx);
        lemma_grows_denotes(mid.graph, ctx.graph, s, crate::context::t_fresh(n));
        let facts = seq![share_fact(s)];
        lemma_learns_refl(c0);
        lemma_learns_asserted(c0, c0, *ctx, Seq::empty(), facts);
        assert(Seq::<(Tm, Tm)>::empty() + facts =~= facts);
    }
    s
}

/// Assumes that one amount is less than another on a path.
pub fn assume_less(ctx: &mut Context, x: Id, y: Id, pc: &Vec<(Id, Polarity)>)
    requires
        old(ctx).wf(),
        old(ctx).graph.has(x),
        old(ctx).graph.has(y),
        cube_in(old(ctx).graph, pc@),
    ensures
        reaches(*old(ctx), *final(ctx), only(less_fact(pc@, x, y))),
        learns(*old(ctx), *final(ctx), seq![less_fact(pc@, x, y)]),
        crate::rewrite::pins::asserted(
            old(ctx).graph,
            final(ctx).graph,
            seq![less_fact(pc@, x, y)],
        ),
{
    let ghost c0 = *ctx;
    let fact = guard_expr(pc, Expr::bin(BinOp::LtR, Expr::Class(x), Expr::Class(y)));
    ctx.assume_expr(&fact);
    proof {
        let f = less_fact(pc@, x, y);
        lemma_reaches_asserted(c0, *ctx, f, only(f));
    }
}

/// That a share is less or more than an amount may be assumed of a share.
pub proof fn lemma_less_fresh(
    c0: Context,
    a: Context,
    b: Context,
    s: Id,
    n: u32,
    f: (Tm, Tm),
)
    requires
        c0.next_fresh <= n,
        a.wf(),
        a.leads_to(b),
        a.graph.denotes(s, crate::context::t_fresh(n)),
        is_share_fact(s, f),
        crate::rewrite::pins::asserted(a.graph, b.graph, seq![f]),
    ensures
        reaches(a, b, fresh_facts(c0.next_fresh)),
{
    let fs = fresh_facts(c0.next_fresh);
    assert(is_fresh_fact(a.graph, c0.next_fresh, f));
    assert(fs.contains((a.graph, f)));
    lemma_reaches_asserted(a, b, f, fs);
}

/// The total of two classes, one of which has a wildcard.
fn share_of(ctx: &mut Context, x: Id, y: Id, wild: bool) -> (r: ChunkPerm)
    requires
        old(ctx).wf(),
        old(ctx).graph.has(x),
        old(ctx).graph.has(y),
    ensures
        reaches(*old(ctx), *final(ctx), fresh_facts(old(ctx).next_fresh)),
        perm_in(final(ctx).graph, r),
        wild_adds(
            final(ctx).graph,
            r,
            ChunkPerm::Leaf { id: x, wild: false },
            ChunkPerm::Leaf { id: y, wild: false },
        ),
        wild_in(r) == wild,
{
    let ghost c0 = *ctx;
    let ghost a = ChunkPerm::Leaf { id: x, wild: false };
    let ghost b = ChunkPerm::Leaf { id: y, wild: false };
    let xpos = perm_known_positive(&ctx.graph, x);
    let ypos = perm_known_positive(&ctx.graph, y);
    if !wild || !(xpos || ypos) {
        let id = ctx.build(&Expr::bin(BinOp::AddR, Expr::Class(x), Expr::Class(y)));
        let r = ChunkPerm::Leaf { id, wild };
        proof {
            lemma_reaches_extended(c0, *ctx);
            if !ctx.graph.full() {
                assert forall|m: Model| #[trigger] ctx.graph.models(m) implies wild_total(
                    perm_amt(m, r),
                    perm_amt(m, a),
                    perm_amt(m, b),
                ) by {
                    lemma_tm_bin(m, BinOp::AddR, Tm::Class(x), Tm::Class(y));
                }
            }
        }
        return r;
    }
    let s = fresh_share(ctx);
    let ghost c1 = *ctx;
    let always: Vec<(Id, Polarity)> = Vec::new();
    if ypos {
        assume_less(ctx, x, s, &always);
    } else {
        proof {
            lemma_reaches_refl(c1);
        }
    }
    let ghost c2 = *ctx;
    if xpos {
        assume_less(ctx, y, s, &always);
    } else {
        proof {
            lemma_reaches_refl(c2);
        }
    }
    let r = ChunkPerm::wild_leaf(s);
    proof {
        let n = choose|n: u32|
            c0.next_fresh <= n && #[trigger] c1.graph.denotes(s, crate::context::t_fresh(n));
        if ypos {
            lemma_less_fresh(c0, c1, c2, s, n, less_fact(always@, x, s));
        }
        lemma_leads_trans(c1, c2, *ctx);
        lemma_grows_denotes(c1.graph, c2.graph, s, crate::context::t_fresh(n));
        if xpos {
            lemma_less_fresh(c0, c2, *ctx, s, n, less_fact(always@, y, s));
        }
        lemma_reaches_trans(c0, c1, c2);
        lemma_reaches_trans(c0, c2, *ctx);
        let g = ctx.graph;
        assert(always@ =~= Seq::empty());
        if !g.full() {
            assert forall|m: Model| #[trigger] g.models(m) implies wild_total(
                perm_amt(m, r),
                perm_amt(m, a),
                perm_amt(m, b),
            ) by {
                lemma_grows_models(c0.graph, g, m);
                lemma_grows_models(c1.graph, g, m);
                lemma_grows_models(c2.graph, g, m);
                lemma_learns_holds(c0, c1, seq![share_fact(s)], m);
                assert(equation_holds(m, seq![share_fact(s)][0]));
                lemma_share(m, s);
                if ypos {
                    let f = less_fact(always@, x, s);
                    lemma_learns_holds(c1, c2, seq![f], m);
                    assert(equation_holds(m, seq![f][0]));
                    lemma_less(m, x, s);
                    assert(signed(m, y, true));
                }
                if xpos {
                    let f = less_fact(always@, y, s);
                    lemma_learns_holds(c2, *ctx, seq![f], m);
                    assert(equation_holds(m, seq![f][0]));
                    lemma_less(m, y, s);
                    assert(signed(m, x, true));
                }
            }
        }
    }
    r
}

/// The total of two amounts where a leaf with a wildcard becomes a fresh share.
pub fn perm_add_wildcard(ctx: &mut Context, a: &ChunkPerm, b: &ChunkPerm) -> (r: ChunkPerm)
    requires
        old(ctx).wf(),
        perm_in(old(ctx).graph, *a),
        perm_in(old(ctx).graph, *b),
    ensures
        reaches(*old(ctx), *final(ctx), fresh_facts(old(ctx).next_fresh)),
        perm_in(final(ctx).graph, r),
        wild_adds(final(ctx).graph, r, *a, *b),
    decreases perm_size(*a) + perm_size(*b),
{
    let ghost c0 = *ctx;
    match (a, b) {
        (ChunkPerm::Leaf { id: x, wild: wx }, ChunkPerm::Leaf { id: y, wild: wy }) => {
            let r = share_of(ctx, *x, *y, *wx || *wy);
            proof {
                if !ctx.graph.full() {
                    assert forall|m: Model| #[trigger] ctx.graph.models(m) implies wild_total(
                        perm_amt(m, r),
                        perm_amt(m, *a),
                        perm_amt(m, *b),
                    ) by {
                        let l = ChunkPerm::Leaf { id: *x, wild: false };
                        let k = ChunkPerm::Leaf { id: *y, wild: false };
                        assert(wild_total(perm_amt(m, r), perm_amt(m, l), perm_amt(m, k)));
                    }
                }
            }
            r
        },
        (ChunkPerm::Select { cond, on, off }, _) => {
            proof {
                lemma_collapsed_in(c0.graph, *cond, *b, true);
                lemma_collapsed_in(c0.graph, *cond, *b, false);
                lemma_collapsed_size(c0.graph, *cond, *b, true);
                lemma_collapsed_size(c0.graph, *cond, *b, false);
            }
            let bt = ChunkPerm::restrict(&ctx.graph, *cond, b, true);
            let be = ChunkPerm::restrict(&ctx.graph, *cond, b, false);
            let t = perm_add_wildcard(ctx, &**on, &bt);
            let ghost c1 = *ctx;
            proof {
                lemma_perm_grows(c0.graph, c1.graph, **off);
                lemma_perm_grows(c0.graph, c1.graph, be);
            }
            let e = perm_add_wildcard(ctx, &**off, &be);
            let ghost c2 = *ctx;
            proof {
                lemma_fresh_more(c0.next_fresh, c1.next_fresh);
                lemma_reaches_more(
                    c1,
                    c2,
                    fresh_facts(c1.next_fresh),
                    fresh_facts(c0.next_fresh),
                );
                lemma_reaches_trans(c0, c1, c2);
                lemma_perm_grows(c1.graph, c2.graph, t);
            }
            let r = ChunkPerm::select(ctx, *cond, &t, &e);
            proof {
                lemma_reaches_extended(c2, *ctx);
                lemma_reaches_trans(c0, c2, *ctx);
                let g = ctx.graph;
                if !g.full() {
                    assert forall|m: Model| #[trigger] g.models(m) implies wild_total(
                        perm_amt(m, r),
                        perm_amt(m, *a),
                        perm_amt(m, *b),
                    ) by {
                        lemma_grows_models(c0.graph, g, m);
                        lemma_grows_models(c1.graph, g, m);
                        law_selected(g, m, *cond, t, e);
                        law_collapsed(c0.graph, m, *cond, *b, met(m, *cond));
                    }
                }
            }
            r
        },
        (ChunkPerm::Leaf { .. }, ChunkPerm::Select { cond, on, off }) => {
            let t = perm_add_wildcard(ctx, a, &**on);
            let ghost c1 = *ctx;
            proof {
                lemma_perm_grows(c0.graph, c1.graph, **off);
                lemma_perm_grows(c0.graph, c1.graph, *a);
            }
            let e = perm_add_wildcard(ctx, a, &**off);
            let ghost c2 = *ctx;
            proof {
                lemma_fresh_more(c0.next_fresh, c1.next_fresh);
                lemma_reaches_more(
                    c1,
                    c2,
                    fresh_facts(c1.next_fresh),
                    fresh_facts(c0.next_fresh),
                );
                lemma_reaches_trans(c0, c1, c2);
                lemma_perm_grows(c1.graph, c2.graph, t);
            }
            let r = ChunkPerm::select(ctx, *cond, &t, &e);
            proof {
                lemma_reaches_extended(c2, *ctx);
                lemma_reaches_trans(c0, c2, *ctx);
                let g = ctx.graph;
                if !g.full() {
                    assert forall|m: Model| #[trigger] g.models(m) implies wild_total(
                        perm_amt(m, r),
                        perm_amt(m, *a),
                        perm_amt(m, *b),
                    ) by {
                        lemma_grows_models(c1.graph, g, m);
                        law_selected(g, m, *cond, t, e);
                    }
                }
            }
            r
        },
    }
}

} // verus!
