//! The heap where two branches join.

use crate::context::{builds, cube_in, lemma_leads_refl, lemma_leads_trans, Context};
use crate::graph::{lemma_same_class, Graph};
use crate::heap::alias::no_canon;
use crate::heap::bounds::{assume_location_axioms, keeps_bounds, location_facts, numbered};
use crate::heap::chunk::{chunk_amt, chunk_in, chunk_share, lemma_chunk_grows, Chunk, Kinds};
use crate::heap::cube::{cube_push, has_literal, pushed};
use crate::heap::facts::{lemma_reaches_extended, lemma_reaches_trans, reaches};
use crate::heap::gate::{cube_on, lemma_cube_on_push, lit_on};
use crate::heap::groups::{
    chunks_in, find_canon, first_canon, heap_in, lemma_chunks_grow, lemma_heap_grows,
    lemma_place_is, total, Heap,
};
use crate::heap::join::{guards_match, in_step, share_guard};
use crate::heap::perm::{
    law_same_perm, law_selected, lemma_perm_grows, met, perm_amt, perm_in, same_perm, ChunkPerm,
};
use crate::heap::subtract::classes_apart;
use crate::heap::union::lemma_heap_with;
use crate::lang::Id;
use crate::model::{lemma_tm_ite, Model, Tm};
use crate::rewrite::rules::{lemma_stepped_trans, stepped};
use crate::terms::{lemma_grows_models, Expr};
use crate::vmir::{Polarity, Value};
use std::rc::Rc;
use vstd::prelude::*;

verus! {

broadcast use crate::context::lemma_builds_trans;

/// What two chunks of one class are where their branches join, in a model: the amount
/// and the value of the branch that was taken.
pub open spec fn joined_in(
    m: Model,
    one_guard: bool,
    cond: Id,
    a: Chunk,
    b: Chunk,
    r: Chunk,
) -> bool {
    &&& m.at(r.value) == (if met(m, cond) {
        m.at(a.value)
    } else {
        m.at(b.value)
    })
    &&& perm_amt(m, r.perm) == (if met(m, cond) {
        crate::heap::join::part(m, one_guard, a)
    } else {
        crate::heap::join::part(m, one_guard, b)
    })
}

/// The chunk where two branches join. A chunk of one branch alone is there where that
/// branch was taken. Chunks of both branches are one: with their guard where they share
/// it, and else with their guards in the amount.
pub open spec fn joined_chunk(
    g: Graph,
    h: Graph,
    cond: Id,
    ct: Option<Chunk>,
    ce: Option<Chunk>,
    r: Chunk,
) -> bool {
    match (ct, ce) {
        (Some(a), Some(b)) => {
            let one = guards_match(g, a, b);
            &&& r.addr == a.addr
            &&& r.recipe == (if g.canon(a.value) == g.canon(b.value) {
                a.recipe
            } else {
                None
            })
            &&& g.canon(a.value) == g.canon(b.value) ==> r.value == a.value
            &&& one && same_perm(g, a.perm, b.perm) ==> r.perm == a.perm
            &&& one ==> r.guard == a.guard
            &&& !one ==> r.guard@.len() == 0
            &&& h.full() || forall|m: Model| #[trigger]
                h.models(m) ==> joined_in(m, one, cond, a, b, r)
        },
        (Some(a), None) => {
            &&& r == (Chunk { guard: r.guard, ..a })
            &&& r.guard@ == pushed(g, a.guard@, (cond, Polarity::Positive))
        },
        (None, Some(b)) => {
            &&& r == (Chunk { guard: r.guard, ..b })
            &&& r.guard@ == pushed(g, b.guard@, (cond, Polarity::Negative))
        },
        (None, None) => false,
    }
}

/// What was joined at some point between two graphs.
pub open spec fn joined_at(
    a: Graph,
    b: Graph,
    cond: Id,
    ct: Option<Chunk>,
    ce: Option<Chunk>,
    r: Chunk,
) -> bool {
    exists|g: Graph|
        stepped(a, g) && stepped(g, b) && #[trigger] joined_chunk(g, b, cond, ct, ce, r)
}

proof fn lemma_joined_grows(
    a: Graph,
    b: Graph,
    c: Graph,
    cond: Id,
    ct: Option<Chunk>,
    ce: Option<Chunk>,
    r: Chunk,
)
    requires
        b.wf(),
        stepped(b, c),
        joined_at(a, b, cond, ct, ce, r),
    ensures
        joined_at(a, c, cond, ct, ce, r),
{
    let g = choose|g: Graph|
        stepped(a, g) && stepped(g, b) && #[trigger] joined_chunk(g, b, cond, ct, ce, r);
    lemma_stepped_trans(g, b, c);
    if let (Some(x), Some(y)) = (ct, ce) {
        let one = guards_match(g, x, y);
        if !c.full() {
            assert forall|m: Model| #[trigger] c.models(m) implies joined_in(
                m,
                one,
                cond,
                x,
                y,
                r,
            ) by {
                lemma_grows_models(b, c, m);
            }
        }
    }
    assert(joined_chunk(g, c, cond, ct, ce, r));
}

proof fn lemma_on_pushed(g: Graph, m: Model, cube: Seq<(Id, Polarity)>, lit: (Id, Polarity))
    requires
        g.wf(),
        g.models(m),
        cube_in(g, cube),
        g.has(lit.0),
    ensures
        cube_on(m, pushed(g, cube, lit)) == (cube_on(m, cube) && lit_on(m, lit)),
{
    lemma_cube_on_push(m, cube, lit);
    if has_literal(g, cube, lit) {
        let i = choose|i: int|
            0 <= i < cube.len() && (#[trigger] cube[i]).1 == lit.1 && g.canon(cube[i].0)
                == g.canon(lit.0);
        assert(g.has(cube[i].0));
        lemma_same_class(g, m, cube[i].0, lit.0);
        if cube_on(m, cube) {
            assert(lit_on(m, cube[i]));
        }
    }
}

/// Where branches join, a chunk holds what it held in the branch that was taken, and
/// nothing where it was not in that branch.
pub proof fn law_joined(
    g: Graph,
    h: Graph,
    m: Model,
    cond: Id,
    ct: Option<Chunk>,
    ce: Option<Chunk>,
    r: Chunk,
)
    requires
        g.wf(),
        stepped(g, h),
        !h.full(),
        h.models(m),
        g.has(cond),
        ct matches Some(a) ==> chunk_in(g, a),
        ce matches Some(b) ==> chunk_in(g, b),
        joined_chunk(g, h, cond, ct, ce, r),
        ct matches Some(a) ==> (ce matches Some(b) ==> in_step(m, guards_match(g, a, b), a, b)),
    ensures
        chunk_amt(m, r) == (if met(m, cond) {
            match ct {
                Some(a) => chunk_amt(m, a),
                None => 0 as real,
            }
        } else {
            match ce {
                Some(b) => chunk_amt(m, b),
                None => 0 as real,
            }
        }),
{
    lemma_grows_models(g, h, m);
    match (ct, ce) {
        (Some(a), None) => {
            lemma_on_pushed(g, m, a.guard@, (cond, Polarity::Positive));
        },
        (None, Some(b)) => {
            lemma_on_pushed(g, m, b.guard@, (cond, Polarity::Negative));
        },
        (Some(a), Some(b)) => {
            assert(joined_in(m, guards_match(g, a, b), cond, a, b, r));
        },
        _ => {},
    }
}

/// The value where two branches join: a choice, unless both branches have one class.
fn join_values(ctx: &mut Context, cond: Id, v: Id, w: Id) -> (r: Id)
    requires
        old(ctx).wf(),
        old(ctx).graph.has(cond),
        old(ctx).graph.has(v),
        old(ctx).graph.has(w),
    ensures
        old(ctx).leads_to(*final(ctx)),
        builds(*old(ctx), *final(ctx)),
        final(ctx).graph.has(r),
        old(ctx).graph.canon(v) == old(ctx).graph.canon(w) ==> r == v,
        final(ctx).graph.full() || forall|m: Model| #[trigger]
            final(ctx).graph.models(m) ==> m.at(r) == (if met(m, cond) {
                m.at(v)
            } else {
                m.at(w)
            }),
{
    let ghost c0 = *ctx;
    if ctx.graph.find(v) == ctx.graph.find(w) {
        proof {
            lemma_leads_refl(c0);
            assert forall|m: Model| #[trigger] c0.graph.models(m) implies m.at(v) == m.at(w) by {
                lemma_same_class(c0.graph, m, v, w);
            }
        }
        return v;
    }
    let r = ctx.build(&Expr::ite(Expr::Class(cond), Expr::Class(v), Expr::Class(w)));
    proof {
        let g = ctx.graph;
        if !g.full() {
            assert forall|m: Model| #[trigger] g.models(m) implies m.at(r) == (if met(m, cond) {
                m.at(v)
            } else {
                m.at(w)
            }) by {
                lemma_tm_ite(m, Tm::Class(cond), Tm::Class(v), Tm::Class(w));
            }
        }
    }
    r
}

/// The amount of two chunks of one class where their branches join, and its guard.
fn join_amounts(ctx: &mut Context, cond: Id, a: &Chunk, b: &Chunk) -> (r: (
    ChunkPerm,
    Rc<Vec<(Id, Polarity)>>,
))
    requires
        old(ctx).wf(),
        old(ctx).graph.has(cond),
        chunk_in(old(ctx).graph, *a),
        chunk_in(old(ctx).graph, *b),
    ensures
        old(ctx).leads_to(*final(ctx)),
        builds(*old(ctx), *final(ctx)),
        perm_in(final(ctx).graph, r.0),
        cube_in(final(ctx).graph, r.1@),
        guards_match(old(ctx).graph, *a, *b) ==> r.1 == a.guard,
        !guards_match(old(ctx).graph, *a, *b) ==> r.1@.len() == 0,
        guards_match(old(ctx).graph, *a, *b) && same_perm(old(ctx).graph, a.perm, b.perm) ==> r.0
            == a.perm,
        final(ctx).graph.full() || forall|m: Model| #[trigger]
            final(ctx).graph.models(m) ==> perm_amt(m, r.0) == (if met(m, cond) {
                crate::heap::join::part(m, guards_match(old(ctx).graph, *a, *b), *a)
            } else {
                crate::heap::join::part(m, guards_match(old(ctx).graph, *a, *b), *b)
            }),
{
    let ghost c0 = *ctx;
    if share_guard(&ctx.graph, a, b) {
        if ChunkPerm::same(&ctx.graph, &a.perm, &b.perm) {
            proof {
                lemma_leads_refl(c0);
                assert forall|m: Model| #[trigger] c0.graph.models(m) implies perm_amt(m, a.perm)
                    == perm_amt(m, b.perm) by {
                    law_same_perm(c0.graph, m, a.perm, b.perm);
                }
            }
            return (a.perm.copy(), a.guard.clone());
        }
        let p = ChunkPerm::select(ctx, cond, &a.perm, &b.perm);
        proof {
            assert forall|m: Model| #[trigger] c0.graph.models(m) implies perm_amt(m, p) == (if met(
                m,
                cond,
            ) {
                perm_amt(m, a.perm)
            } else {
                perm_amt(m, b.perm)
            }) by {
                law_selected(c0.graph, m, cond, a.perm, b.perm);
            }
        }
        return (p, a.guard.clone());
    }
    ctx.trace.bump_zero();
    let ghost c1 = *ctx;
    proof {
        lemma_leads_refl(c0);
        assert(c0.leads_to(c1));
    }
    let pa = a.gated_perm(ctx);
    let ghost c2 = *ctx;
    proof {
        lemma_leads_trans(c0, c1, c2);
        lemma_chunk_grows(c0.graph, c2.graph, *b);
    }
    let pb = b.gated_perm(ctx);
    let ghost c3 = *ctx;
    proof {
        lemma_leads_trans(c0, c2, c3);
        lemma_perm_grows(c2.graph, c3.graph, pa);
    }
    let p = ChunkPerm::select(ctx, cond, &pa, &pb);
    proof {
        let g = ctx.graph;
        lemma_leads_trans(c0, c3, *ctx);
        if !g.full() {
            assert forall|m: Model| #[trigger] g.models(m) implies perm_amt(m, p) == (if met(
                m,
                cond,
            ) {
                chunk_amt(m, *a)
            } else {
                chunk_amt(m, *b)
            }) by {
                lemma_grows_models(c2.graph, g, m);
                law_selected(c3.graph, m, cond, pa, pb);
            }
        }
    }
    (p, Rc::new(Vec::new()))
}

/// The chunk where two branches join.
fn join_chunk(ctx: &mut Context, cond: Id, ct: Option<&Chunk>, ce: Option<&Chunk>) -> (r: Option<
    Chunk,
>)
    requires
        old(ctx).wf(),
        old(ctx).graph.has(cond),
        ct matches Some(a) ==> chunk_in(old(ctx).graph, *a),
        ce matches Some(b) ==> chunk_in(old(ctx).graph, *b),
    ensures
        old(ctx).leads_to(*final(ctx)),
        builds(*old(ctx), *final(ctx)),
        r is None == (ct is None && ce is None),
        r matches Some(c) ==> chunk_in(final(ctx).graph, c) && joined_chunk(
            old(ctx).graph,
            final(ctx).graph,
            cond,
            match ct {
                Some(a) => Some(*a),
                None => None,
            },
            match ce {
                Some(b) => Some(*b),
                None => None,
            },
            c,
        ),
{
    let ghost c0 = *ctx;
    proof {
        lemma_leads_refl(c0);
    }
    match (ct, ce) {
        (Some(a), Some(b)) => {
            let one_value = ctx.graph.find(a.value) == ctx.graph.find(b.value);
            let (perm, guard) = join_amounts(ctx, cond, a, b);
            let ghost c1 = *ctx;
            proof {
                lemma_chunk_grows(c0.graph, c1.graph, *a);
                lemma_chunk_grows(c0.graph, c1.graph, *b);
            }
            let value = join_values(ctx, cond, a.value, b.value);
            let recipe = if one_value {
                a.shared_recipe()
            } else {
                None
            };
            let r = Chunk::new_perm(a.addr, perm, value).with_guard(guard).with_recipe(recipe);
            proof {
                let g = ctx.graph;
                let one = guards_match(c0.graph, *a, *b);
                lemma_leads_trans(c0, c1, *ctx);
                lemma_perm_grows(c1.graph, g, perm);
                crate::context::lemma_cube_grows(c1.graph, g, guard@);
                lemma_chunk_grows(c1.graph, g, *a);
                if !g.full() {
                    assert forall|m: Model| #[trigger] g.models(m) implies joined_in(
                        m,
                        one,
                        cond,
                        *a,
                        *b,
                        r,
                    ) by {
                        lemma_grows_models(c1.graph, g, m);
                    }
                }
            }
            Some(r)
        },
        (Some(a), None) => {
            let guard = cube_push(&ctx.graph, &a.guard, (cond, Polarity::Positive));
            Some(a.copy().with_guard(Rc::new(guard)))
        },
        (None, Some(b)) => {
            let guard = cube_push(&ctx.graph, &b.guard, (cond, Polarity::Negative));
            Some(b.copy().with_guard(Rc::new(guard)))
        },
        (None, None) => None,
    }
}

/// The chunk at an index, where there is one.
pub open spec fn chunk_at(cs: Seq<Chunk>, i: Option<usize>) -> Option<Chunk> {
    match i {
        Some(k) => Some(cs[k as int]),
        None => None,
    }
}

/// The address of a pair of chunks of two branches.
pub open spec fn pair_addr(
    ts: Seq<Chunk>,
    es: Seq<Chunk>,
    p: (Option<usize>, Option<usize>),
) -> Id {
    match p.0 {
        Some(i) => ts[i as int].addr,
        None => es[p.1.unwrap() as int].addr,
    }
}

/// The first chunk of a class in each branch.
pub open spec fn is_pair(
    g: Graph,
    ts: Seq<Chunk>,
    es: Seq<Chunk>,
    p: (Option<usize>, Option<usize>),
) -> bool {
    let addr = pair_addr(ts, es, p);
    &&& p.0 is Some || p.1 is Some
    &&& match p.0 {
        Some(i) => first_canon(g, ts, addr, i as int),
        None => no_canon(g, ts, addr),
    }
    &&& match p.1 {
        Some(j) => first_canon(g, es, addr, j as int),
        None => no_canon(g, es, addr),
    }
}

/// Every class of two branches is there once.
pub open spec fn pairs_up(
    g: Graph,
    ts: Seq<Chunk>,
    es: Seq<Chunk>,
    ps: Seq<(Option<usize>, Option<usize>)>,
) -> bool {
    &&& forall|n: int| 0 <= n < ps.len() ==> is_pair(g, ts, es, #[trigger] ps[n])
    &&& forall|a: int, b: int|
        0 <= a < b < ps.len() ==> g.canon(pair_addr(ts, es, #[trigger] ps[a])) != g.canon(
            pair_addr(ts, es, #[trigger] ps[b]),
        )
    &&& forall|i: int|
        0 <= i < ts.len() ==> has_class(g, ts, es, ps, (#[trigger] ts[i]).addr)
    &&& forall|j: int|
        0 <= j < es.len() ==> has_class(g, ts, es, ps, (#[trigger] es[j]).addr)
}

/// A class is there.
pub open spec fn has_class(
    g: Graph,
    ts: Seq<Chunk>,
    es: Seq<Chunk>,
    ps: Seq<(Option<usize>, Option<usize>)>,
    addr: Id,
) -> bool {
    exists|n: int|
        0 <= n < ps.len() && g.canon(pair_addr(ts, es, #[trigger] ps[n])) == g.canon(addr)
}

proof fn lemma_class_kept(
    g: Graph,
    ts: Seq<Chunk>,
    es: Seq<Chunk>,
    ps: Seq<(Option<usize>, Option<usize>)>,
    p: (Option<usize>, Option<usize>),
    addr: Id,
)
    requires
        has_class(g, ts, es, ps, addr),
    ensures
        has_class(g, ts, es, ps.push(p), addr),
{
    let n = choose|n: int|
        0 <= n < ps.len() && g.canon(pair_addr(ts, es, #[trigger] ps[n])) == g.canon(addr);
    assert(ps.push(p)[n] == ps[n]);
}

/// Adds the classes of a list that are not there yet.
fn pair_list(
    g: &Graph,
    ts: &Vec<Chunk>,
    es: &Vec<Chunk>,
    on: bool,
    out: &mut Vec<(Option<usize>, Option<usize>)>,
)
    requires
        g.wf(),
        chunks_in(*g, ts@),
        chunks_in(*g, es@),
        forall|n: int| 0 <= n < old(out)@.len() ==> is_pair(*g, ts@, es@, #[trigger] old(out)@[n]),
        forall|a: int, b: int|
            0 <= a < b < old(out)@.len() ==> g.canon(pair_addr(ts@, es@, #[trigger] old(out)@[a]))
                != g.canon(pair_addr(ts@, es@, #[trigger] old(out)@[b])),
        on ==> old(out)@.len() == 0,
        !on ==> forall|i: int|
            0 <= i < ts@.len() ==> has_class(*g, ts@, es@, old(out)@, (#[trigger] ts@[i]).addr),
        !on ==> forall|n: int| 0 <= n < old(out)@.len() ==> (#[trigger] old(out)@[n]).0 is Some,
    ensures
        forall|n: int|
            0 <= n < final(out)@.len() ==> is_pair(*g, ts@, es@, #[trigger] final(out)@[n]),
        forall|a: int, b: int|
            0 <= a < b < final(out)@.len() ==> g.canon(
                pair_addr(ts@, es@, #[trigger] final(out)@[a]),
            ) != g.canon(pair_addr(ts@, es@, #[trigger] final(out)@[b])),
        forall|i: int|
            0 <= i < ts@.len() ==> has_class(*g, ts@, es@, final(out)@, (#[trigger] ts@[i]).addr),
        !on ==> forall|j: int|
            0 <= j < es@.len() ==> has_class(*g, ts@, es@, final(out)@, (#[trigger] es@[j]).addr),
        on ==> forall|n: int| 0 <= n < final(out)@.len() ==> (#[trigger] final(out)@[n]).0 is Some,
{
    let count: usize = if on {
        ts.len()
    } else {
        es.len()
    };
    let ghost list = if on {
        ts@
    } else {
        es@
    };
    let mut i: usize = 0;
    while i < count
        invariant
            i <= count,
            count == list.len(),
            list == (if on {
                ts@
            } else {
                es@
            }),
            g.wf(),
            chunks_in(*g, ts@),
            chunks_in(*g, es@),
            forall|n: int| 0 <= n < out@.len() ==> is_pair(*g, ts@, es@, #[trigger] out@[n]),
            forall|a: int, b: int|
                0 <= a < b < out@.len() ==> g.canon(pair_addr(ts@, es@, #[trigger] out@[a]))
                    != g.canon(pair_addr(ts@, es@, #[trigger] out@[b])),
            forall|k: int|
                0 <= k < i ==> has_class(*g, ts@, es@, out@, (#[trigger] list[k]).addr),
            forall|n: int|
                0 <= n < out@.len() && on ==> (#[trigger] out@[n]).0 is Some && out@[n].0.unwrap()
                    < i,
            forall|n: int|
                0 <= n < out@.len() && !on && (#[trigger] out@[n]).0 is None ==> out@[n].1 is Some
                    && out@[n].1.unwrap() < i,
            !on ==> forall|k: int|
                0 <= k < ts@.len() ==> has_class(*g, ts@, es@, out@, (#[trigger] ts@[k]).addr),
        decreases count - i,
    {
        let ghost before = out@;
        proof {
            if on {
                assert(chunk_in(*g, ts@[i as int]));
            } else {
                assert(chunk_in(*g, es@[i as int]));
            }
        }
        let addr = if on {
            ts[i].addr
        } else {
            es[i].addr
        };
        let t = find_canon(g, ts, addr);
        let e = find_canon(g, es, addr);
        let fresh = if on {
            t == Some(i)
        } else {
            t.is_none() && e == Some(i)
        };
        if fresh {
            let p = (t, e);
            proof {
                assert(is_pair(*g, ts@, es@, p));
                assert forall|n: int| 0 <= n < before.len() implies g.canon(
                    pair_addr(ts@, es@, #[trigger] before[n]),
                ) != g.canon(addr) by {
                    let q = before[n];
                    assert(is_pair(*g, ts@, es@, q));
                    if on {
                        let x = q.0.unwrap() as int;
                        assert(x < i);
                        assert(g.canon(ts@[x].addr) != g.canon(addr));
                    } else {
                        match q.0 {
                            Some(x) => {
                                assert(g.canon(ts@[x as int].addr) != g.canon(addr));
                            },
                            None => {
                                let x = q.1.unwrap() as int;
                                assert(g.canon(es@[x].addr) != g.canon(addr));
                            },
                        }
                    }
                }
            }
            out.push(p);
            proof {
                assert forall|k: int| 0 <= k < i implies has_class(
                    *g,
                    ts@,
                    es@,
                    out@,
                    (#[trigger] list[k]).addr,
                ) by {
                    lemma_class_kept(*g, ts@, es@, before, p, list[k].addr);
                }
                if !on {
                    assert forall|k: int| 0 <= k < ts@.len() implies has_class(
                        *g,
                        ts@,
                        es@,
                        out@,
                        (#[trigger] ts@[k]).addr,
                    ) by {
                        lemma_class_kept(*g, ts@, es@, before, p, ts@[k].addr);
                    }
                }
                assert(out@[before.len() as int] == p);
                assert(has_class(*g, ts@, es@, out@, addr));
            }
        } else {
            proof {
                assert(has_class(*g, ts@, es@, out@, addr)) by {
                    let x: int = if t is Some {
                        t.unwrap() as int
                    } else {
                        e.unwrap() as int
                    };
                    if on {
                        if t is None {
                            assert(g.canon(ts@[i as int].addr) != g.canon(addr));
                        }
                        assert(x < i);
                        assert(has_class(*g, ts@, es@, out@, list[x].addr));
                        let n = choose|n: int|
                            0 <= n < out@.len() && g.canon(
                                pair_addr(ts@, es@, #[trigger] out@[n]),
                            ) == g.canon(list[x].addr);
                        assert(g.canon(pair_addr(ts@, es@, out@[n])) == g.canon(addr));
                    } else if t is Some {
                        assert(has_class(*g, ts@, es@, out@, ts@[x].addr));
                        let n = choose|n: int|
                            0 <= n < out@.len() && g.canon(
                                pair_addr(ts@, es@, #[trigger] out@[n]),
                            ) == g.canon(ts@[x].addr);
                        assert(g.canon(pair_addr(ts@, es@, out@[n])) == g.canon(addr));
                    } else {
                        if e is None {
                            assert(g.canon(es@[i as int].addr) != g.canon(addr));
                        }
                        assert(x < i);
                        assert(has_class(*g, ts@, es@, out@, list[x].addr));
                        let n = choose|n: int|
                            0 <= n < out@.len() && g.canon(
                                pair_addr(ts@, es@, #[trigger] out@[n]),
                            ) == g.canon(list[x].addr);
                        assert(g.canon(pair_addr(ts@, es@, out@[n])) == g.canon(addr));
                    }
                }
            }
        }
        i += 1;
    }
}

/// The first chunks of every class of two branches.
fn pair_up(g: &Graph, ts: &Vec<Chunk>, es: &Vec<Chunk>) -> (r: Vec<(Option<usize>, Option<usize>)>)
    requires
        g.wf(),
        chunks_in(*g, ts@),
        chunks_in(*g, es@),
    ensures
        pairs_up(*g, ts@, es@, r@),
{
    let mut out: Vec<(Option<usize>, Option<usize>)> = Vec::new();
    pair_list(g, ts, es, true, &mut out);
    pair_list(g, ts, es, false, &mut out);
    out
}

/// The chunks where two branches join: one for every class, in order.
pub open spec fn joined_pairs(
    a: Graph,
    b: Graph,
    cond: Id,
    ts: Seq<Chunk>,
    es: Seq<Chunk>,
    ps: Seq<(Option<usize>, Option<usize>)>,
    r: Seq<Chunk>,
) -> bool {
    &&& r.len() <= ps.len()
    &&& forall|n: int|
        0 <= n < r.len() ==> joined_at(
            a,
            b,
            cond,
            chunk_at(ts, ps[n].0),
            chunk_at(es, ps[n].1),
            #[trigger] r[n],
        )
}

/// A group where two branches join.
pub open spec fn joined_group(
    a: Graph,
    b: Graph,
    cond: Id,
    ts: Seq<Chunk>,
    es: Seq<Chunk>,
    r: Seq<Chunk>,
) -> bool {
    exists|ps: Seq<(Option<usize>, Option<usize>)>| #[trigger]
        pairs_up(a, ts, es, ps) && ps.len() == r.len() && joined_pairs(a, b, cond, ts, es, ps, r)
}

/// A group where two branches join, at some point after a graph.
pub open spec fn joined_after(
    a: Graph,
    b: Graph,
    cond: Id,
    ts: Seq<Chunk>,
    es: Seq<Chunk>,
    r: Seq<Chunk>,
) -> bool {
    exists|g: Graph|
        stepped(a, g) && stepped(g, b) && #[trigger] joined_group(g, b, cond, ts, es, r)
}

proof fn lemma_pairs_grow(
    a: Graph,
    b: Graph,
    c: Graph,
    cond: Id,
    ts: Seq<Chunk>,
    es: Seq<Chunk>,
    ps: Seq<(Option<usize>, Option<usize>)>,
    r: Seq<Chunk>,
)
    requires
        b.wf(),
        stepped(b, c),
        joined_pairs(a, b, cond, ts, es, ps, r),
    ensures
        joined_pairs(a, c, cond, ts, es, ps, r),
{
    assert forall|n: int| 0 <= n < r.len() implies joined_at(
        a,
        c,
        cond,
        chunk_at(ts, ps[n].0),
        chunk_at(es, ps[n].1),
        #[trigger] r[n],
    ) by {
        lemma_joined_grows(
            a,
            b,
            c,
            cond,
            chunk_at(ts, ps[n].0),
            chunk_at(es, ps[n].1),
            r[n],
        );
    }
}

proof fn lemma_after_grows(
    a: Graph,
    b: Graph,
    c: Graph,
    cond: Id,
    ts: Seq<Chunk>,
    es: Seq<Chunk>,
    r: Seq<Chunk>,
)
    requires
        b.wf(),
        stepped(b, c),
        joined_after(a, b, cond, ts, es, r),
    ensures
        joined_after(a, c, cond, ts, es, r),
{
    let g = choose|g: Graph|
        stepped(a, g) && stepped(g, b) && #[trigger] joined_group(g, b, cond, ts, es, r);
    lemma_stepped_trans(g, b, c);
    let ps = choose|ps: Seq<(Option<usize>, Option<usize>)>| #[trigger]
        pairs_up(g, ts, es, ps) && ps.len() == r.len() && joined_pairs(g, b, cond, ts, es, ps, r);
    lemma_pairs_grow(g, b, c, cond, ts, es, ps, r);
    assert(joined_group(g, c, cond, ts, es, r));
}

/// Puts what two groups are where their branches join into a heap.
fn join_group(
    ctx: &mut Context,
    out: Heap,
    kind: usize,
    cond: Id,
    ts: &Vec<Chunk>,
    es: &Vec<Chunk>,
) -> (r: Heap)
    requires
        old(ctx).wf(),
        old(ctx).graph.has(cond),
        heap_in(old(ctx).graph, out),
        out.group(kind).len() == 0,
        chunks_in(old(ctx).graph, ts@),
        chunks_in(old(ctx).graph, es@),
    ensures
        old(ctx).leads_to(*final(ctx)),
        builds(*old(ctx), *final(ctx)),
        heap_in(final(ctx).graph, r),
        forall|k: usize| k != kind ==> #[trigger] r.group(k) == out.group(k),
        joined_group(old(ctx).graph, final(ctx).graph, cond, ts@, es@, r.group(kind)),
{
    let ghost c0 = *ctx;
    let ghost out0 = out;
    let pairs = pair_up(&ctx.graph, ts, es);
    let mut h = out;
    let mut i: usize = 0;
    proof {
        lemma_leads_refl(c0);
    }
    while i < pairs.len()
        invariant
            i <= pairs@.len(),
            c0.wf(),
            c0.graph.has(cond),
            ctx.wf(),
            c0.leads_to(*ctx),
            builds(c0, *ctx),
            chunks_in(c0.graph, ts@),
            chunks_in(c0.graph, es@),
            pairs_up(c0.graph, ts@, es@, pairs@),
            heap_in(ctx.graph, h),
            forall|k: usize| k != kind ==> #[trigger] h.group(k) == out0.group(k),
            h.group(kind).len() == i,
            forall|n: int|
                0 <= n < i ==> (#[trigger] h.group(kind)[n]).addr == pair_addr(
                    ts@,
                    es@,
                    pairs@[n],
                ),
            joined_pairs(c0.graph, ctx.graph, cond, ts@, es@, pairs@, h.group(kind)),
        decreases pairs.len() - i,
    {
        let ghost c1 = *ctx;
        let ghost h0 = h;
        let (pt, pe) = pairs[i];
        proof {
            assert(is_pair(c0.graph, ts@, es@, pairs@[i as int]));
            lemma_chunks_grow(c0.graph, c1.graph, ts@);
            lemma_chunks_grow(c0.graph, c1.graph, es@);
        }
        let ct: Option<&Chunk> = match pt {
            Some(k) => {
                proof {
                    assert(chunk_in(c1.graph, ts@[k as int]));
                }
                Some(&ts[k])
            },
            None => None,
        };
        let ce: Option<&Chunk> = match pe {
            Some(k) => {
                proof {
                    assert(chunk_in(c1.graph, es@[k as int]));
                }
                Some(&es[k])
            },
            None => None,
        };
        let joined = join_chunk(ctx, cond, ct, ce);
        let ghost c2 = *ctx;
        proof {
            lemma_leads_trans(c0, c1, c2);
            lemma_heap_grows(c1.graph, c2.graph, h);
            assert(chunks_in(c2.graph, h.group(kind)));
            lemma_pairs_grow(
                c0.graph,
                c1.graph,
                c2.graph,
                cond,
                ts@,
                es@,
                pairs@,
                h.group(kind),
            );
        }
        if let Some(c) = joined {
            let ghost put = c;
            let ghost had = h.group(kind);
            proof {
                assert(put.addr == pair_addr(ts@, es@, pairs@[i as int]));
                assert forall|n: int| 0 <= n < had.len() implies (#[trigger] had[n]).addr
                    != put.addr by {
                    assert(c0.graph.canon(pair_addr(ts@, es@, pairs@[n])) != c0.graph.canon(
                        pair_addr(ts@, es@, pairs@[i as int]),
                    ));
                }
                lemma_place_is(had, put.addr, had.len() as int);
                crate::heap::union::lemma_with_in(c2.graph, had, put);
                assert(joined_chunk(
                    c1.graph,
                    c2.graph,
                    cond,
                    chunk_at(ts@, pairs@[i as int].0),
                    chunk_at(es@, pairs@[i as int].1),
                    put,
                ));
            }
            h = h.with_chunk(kind, c);
            proof {
                lemma_heap_with(c2.graph, h0, h, kind);
                assert(h.group(kind) =~= had.push(put));
                assert forall|n: int| 0 <= n < i + 1 implies joined_at(
                    c0.graph,
                    c2.graph,
                    cond,
                    chunk_at(ts@, pairs@[n].0),
                    chunk_at(es@, pairs@[n].1),
                    #[trigger] h.group(kind)[n],
                ) by {
                    if n < i {
                        assert(h.group(kind)[n] == had[n]);
                    }
                }
            }
        }
        i += 1;
    }
    proof {
        assert(joined_group(c0.graph, ctx.graph, cond, ts@, es@, h.group(kind)));
    }
    h
}

/// The kinds of two heaps.
fn kinds_of_both(a: &Heap, b: &Heap) -> (r: Vec<usize>)
    ensures
        r@.no_duplicates(),
        forall|k: usize|
            (#[trigger] a.group(k)).len() > 0 || b.group(k).len() > 0 ==> r@.contains(k),
        forall|n: int|
            0 <= n < r@.len() ==> a.group(#[trigger] r@[n]).len() > 0 || b.group(r@[n]).len() > 0,
{
    let mut out = a.kinds();
    let more = b.kinds();
    let ghost first = out@;
    let mut i: usize = 0;
    proof {
        assert forall|n: int| 0 <= n < out@.len() implies a.group(#[trigger] out@[n]).len() > 0 by {
            assert(out@.contains(out@[n]));
        }
    }
    while i < more.len()
        invariant
            i <= more@.len(),
            out@.no_duplicates(),
            forall|k: usize| more@.contains(k) == ((#[trigger] b.group(k)).len() > 0),
            forall|k: usize| (#[trigger] a.group(k)).len() > 0 ==> out@.contains(k),
            forall|n: int| 0 <= n < i ==> out@.contains(#[trigger] more@[n]),
            forall|n: int|
                0 <= n < out@.len() ==> a.group(#[trigger] out@[n]).len() > 0 || b.group(
                    out@[n],
                ).len() > 0,
        decreases more.len() - i,
    {
        let k = more[i];
        let ghost before = out@;
        if !listed(&out, k) {
            out.push(k);
            proof {
                assert(more@.contains(k));
                assert(b.group(k).len() > 0);
                assert forall|x: usize| before.contains(x) implies #[trigger] out@.contains(x) by {
                    let n = choose|n: int| 0 <= n < before.len() && before[n] == x;
                    assert(out@[n] == x);
                }
                assert(out@[before.len() as int] == k);
                assert forall|x: int, y: int|
                    0 <= x < out@.len() && 0 <= y < out@.len() && x != y implies #[trigger] out@[x]
                    != #[trigger] out@[y] by {
                    if x < before.len() && y < before.len() {
                        assert(before[x] != before[y]);
                    } else if x < before.len() {
                        assert(before.contains(before[x]));
                    } else {
                        assert(before.contains(before[y]));
                    }
                }
            }
        }
        i += 1;
    }
    proof {
        assert forall|k: usize| (#[trigger] a.group(k)).len() > 0 || b.group(k).len()
            > 0 implies out@.contains(k) by {
            if b.group(k).len() > 0 {
                assert(more@.contains(k));
                let n = choose|n: int| 0 <= n < more@.len() && more@[n] == k;
                assert(out@.contains(more@[n]));
            }
        }
    }
    out
}

fn listed(ks: &Vec<usize>, k: usize) -> (r: bool)
    ensures
        r == ks@.contains(k),
{
    let mut i: usize = 0;
    while i < ks.len()
        invariant
            i <= ks@.len(),
            forall|n: int| 0 <= n < i ==> #[trigger] ks@[n] != k,
        decreases ks.len() - i,
    {
        if ks[i] == k {
            return true;
        }
        i += 1;
    }
    false
}

/// The heap where two branches join. What the bounds of locations say is assumed.
pub fn merge_heaps(ctx: &mut Context, kinds: &Kinds, cond: Id, h_then: &Heap, h_els: &Heap) -> (r:
    Heap)
    requires
        old(ctx).wf(),
        old(ctx).graph.has(cond),
        heap_in(old(ctx).graph, *h_then),
        heap_in(old(ctx).graph, *h_els),
        numbered(*kinds, *h_then),
        numbered(*kinds, *h_els),
    ensures
        reaches(*old(ctx), *final(ctx), location_facts(old(ctx).cube@, *kinds, r)),
        heap_in(final(ctx).graph, r),
        numbered(*kinds, r),
        keeps_bounds(final(ctx).graph, old(ctx).cube@, *kinds, r),
        forall|k: usize|
            joined_after(
                old(ctx).graph,
                final(ctx).graph,
                cond,
                h_then.group(k),
                h_els.group(k),
                #[trigger] r.group(k),
            ),
{
    let ghost c0 = *ctx;
    let ks = kinds_of_both(h_then, h_els);
    let mut h = Heap::empty();
    let mut i: usize = 0;
    proof {
        lemma_leads_refl(c0);
    }
    while i < ks.len()
        invariant
            i <= ks@.len(),
            ks@.no_duplicates(),
            c0.wf(),
            c0.graph.has(cond),
            ctx.wf(),
            c0.leads_to(*ctx),
            builds(c0, *ctx),
            heap_in(c0.graph, *h_then),
            heap_in(c0.graph, *h_els),
            heap_in(ctx.graph, h),
            forall|n: int|
                0 <= n < i ==> joined_after(
                    c0.graph,
                    ctx.graph,
                    cond,
                    h_then.group(#[trigger] ks@[n]),
                    h_els.group(ks@[n]),
                    h.group(ks@[n]),
                ),
            forall|k: usize|
                !ks@.take(i as int).contains(k) ==> (#[trigger] h.group(k)).len() == 0,
        decreases ks.len() - i,
    {
        let ghost c1 = *ctx;
        let ghost h0 = h;
        let kind = ks[i];
        let ts = h_then.chunks_of(kind);
        let es = h_els.chunks_of(kind);
        proof {
            lemma_heap_grows(c0.graph, c1.graph, *h_then);
            lemma_heap_grows(c0.graph, c1.graph, *h_els);
            assert(chunks_in(c1.graph, h_then.group(kind)));
            assert(chunks_in(c1.graph, h_els.group(kind)));
            assert(!ks@.take(i as int).contains(kind)) by {
                if ks@.take(i as int).contains(kind) {
                    let n = choose|n: int| 0 <= n < i && ks@.take(i as int)[n] == kind;
                    assert(ks@[n] == ks@[i as int]);
                }
            }
            assert(h.group(kind).len() == 0);
        }
        h = join_group(ctx, h, kind, cond, &ts, &es);
        let ghost c2 = *ctx;
        proof {
            lemma_leads_trans(c0, c1, c2);
            assert forall|n: int| 0 <= n < i + 1 implies joined_after(
                c0.graph,
                c2.graph,
                cond,
                h_then.group(#[trigger] ks@[n]),
                h_els.group(ks@[n]),
                h.group(ks@[n]),
            ) by {
                let k = ks@[n];
                if n < i {
                    assert(k != kind);
                    assert(h.group(k) == h0.group(k));
                    lemma_after_grows(
                        c0.graph,
                        c1.graph,
                        c2.graph,
                        cond,
                        h_then.group(k),
                        h_els.group(k),
                        h.group(k),
                    );
                } else {
                    assert(joined_group(
                        c1.graph,
                        c2.graph,
                        cond,
                        h_then.group(k),
                        h_els.group(k),
                        h.group(k),
                    ));
                }
            }
            assert forall|k: usize| !ks@.take(i + 1).contains(k) implies (#[trigger] h.group(
                k,
            )).len() == 0 by {
                assert(ks@.take(i + 1)[i as int] == kind);
                if ks@.take(i as int).contains(k) {
                    let n = choose|n: int| 0 <= n < i && ks@.take(i as int)[n] == k;
                    assert(ks@.take(i + 1)[n] == k);
                }
                assert(h0.group(k).len() == 0);
            }
        }
        i += 1;
    }
    let ghost c3 = *ctx;
    proof {
        lemma_reaches_extended(c0, c3);
        assert(ks@.take(ks@.len() as int) =~= ks@);
        assert forall|k: usize| (#[trigger] h.group(k)).len() > 0 implies k < kinds.list@.len() by {
            assert(ks@.contains(k));
            let n = choose|n: int| 0 <= n < ks@.len() && ks@[n] == k;
            assert(h_then.group(ks@[n]).len() > 0 || h_els.group(ks@[n]).len() > 0);
        }
    }
    assume_location_axioms(ctx, kinds, &h);
    proof {
        let c4 = *ctx;
        lemma_reaches_trans(c0, c3, c4);
        lemma_heap_grows(c3.graph, c4.graph, h);
        assert forall|k: usize| joined_after(
            c0.graph,
            c4.graph,
            cond,
            h_then.group(k),
            h_els.group(k),
            #[trigger] h.group(k),
        ) by {
            if ks@.contains(k) {
                let n = choose|n: int| 0 <= n < ks@.len() && ks@[n] == k;
                assert(ks@[n] == k);
                lemma_after_grows(
                    c0.graph,
                    c3.graph,
                    c4.graph,
                    cond,
                    h_then.group(k),
                    h_els.group(k),
                    h.group(k),
                );
            } else {
                assert(h_then.group(k).len() == 0);
                let ps = Seq::<(Option<usize>, Option<usize>)>::empty();
                assert(pairs_up(c4.graph, h_then.group(k), h_els.group(k), ps));
                lemma_leads_refl(c4);
                assert(joined_group(
                    c4.graph,
                    c4.graph,
                    cond,
                    h_then.group(k),
                    h_els.group(k),
                    h.group(k),
                ));
            }
        }
    }
    h
}

/// What the chunks at chosen indices give to a location.
spec fn chosen_total(m: Model, cs: Seq<Chunk>, s: Set<int>, n: int, loc: Value) -> real
    decreases n,
{
    if n <= 0 {
        0 as real
    } else {
        chosen_total(m, cs, s, n - 1, loc) + (if s.contains(n - 1) {
            chunk_share(m, cs[n - 1], loc)
        } else {
            0 as real
        })
    }
}

proof fn lemma_chosen_more(m: Model, cs: Seq<Chunk>, s: Set<int>, x: int, n: int, loc: Value)
    requires
        0 <= n <= cs.len(),
        0 <= x,
        !s.contains(x),
    ensures
        chosen_total(m, cs, s.insert(x), n, loc) == chosen_total(m, cs, s, n, loc) + (if x < n {
            chunk_share(m, cs[x], loc)
        } else {
            0 as real
        }),
    decreases n,
{
    if n > 0 {
        lemma_chosen_more(m, cs, s, x, n - 1, loc);
    }
}

proof fn lemma_chosen_all(m: Model, cs: Seq<Chunk>, s: Set<int>, n: int, loc: Value)
    requires
        0 <= n <= cs.len(),
        forall|i: int| 0 <= i < n ==> s.contains(i),
    ensures
        chosen_total(m, cs, s, n, loc) == total(m, cs.take(n), loc),
    decreases n,
{
    if n > 0 {
        lemma_chosen_all(m, cs, s, n - 1, loc);
        assert(cs.take(n).drop_last() =~= cs.take(n - 1));
        assert(cs.take(n).last() == cs[n - 1]);
    }
}

/// The chunk of a pair that is of the branch that was taken.
spec fn side(on: bool, p: (Option<usize>, Option<usize>)) -> Option<usize> {
    if on {
        p.0
    } else {
        p.1
    }
}

/// The indices in the first pairs.
spec fn paired(on: bool, ps: Seq<(Option<usize>, Option<usize>)>, n: int) -> Set<int> {
    Set::new(|i: int| exists|k: int| 0 <= k < n && side(on, #[trigger] ps[k]) == Some(i as usize) && 0 <= i <= usize::MAX)
}

proof fn lemma_pairs_total(
    a: Graph,
    b: Graph,
    m: Model,
    cond: Id,
    ts: Seq<Chunk>,
    es: Seq<Chunk>,
    ps: Seq<(Option<usize>, Option<usize>)>,
    r: Seq<Chunk>,
    n: int,
    loc: Value,
)
    requires
        0 <= n <= r.len(),
        a.wf(),
        !b.full(),
        b.models(m),
        a.has(cond),
        stepped(a, b),
        chunks_in(a, ts),
        chunks_in(a, es),
        pairs_up(a, ts, es, ps),
        joined_pairs(a, b, cond, ts, es, ps, r),
        guards_in_step(m, ts, es),
    ensures
        total(m, r.take(n), loc) == (if met(m, cond) {
            chosen_total(m, ts, paired(true, ps, n), ts.len() as int, loc)
        } else {
            chosen_total(m, es, paired(false, ps, n), es.len() as int, loc)
        }),
    decreases n,
{
    let on = met(m, cond);
    let cs = if on {
        ts
    } else {
        es
    };
    if n == 0 {
        assert(r.take(0).len() == 0);
        lemma_chosen_none(m, cs, paired(on, ps, 0), cs.len() as int, loc);
        return;
    }
    lemma_pairs_total(a, b, m, cond, ts, es, ps, r, n - 1, loc);
    assert(r.take(n).drop_last() =~= r.take(n - 1));
    assert(r.take(n).last() == r[n - 1]);
    let p = ps[n - 1];
    assert(is_pair(a, ts, es, p));
    let ct = chunk_at(ts, p.0);
    let ce = chunk_at(es, p.1);
    assert(joined_at(a, b, cond, ct, ce, r[n - 1]));
    let g = choose|g: Graph|
        stepped(a, g) && stepped(g, b) && #[trigger] joined_chunk(g, b, cond, ct, ce, r[n - 1]);
    if let Some(c) = ct {
        assert(chunk_in(a, ts[p.0.unwrap() as int]));
        lemma_chunk_grows(a, g, c);
    }
    if let Some(c) = ce {
        assert(chunk_in(a, es[p.1.unwrap() as int]));
        lemma_chunk_grows(a, g, c);
    }
    if p.0 is Some && p.1 is Some {
        let x = ts[p.0.unwrap() as int];
        let y = es[p.1.unwrap() as int];
        assert(in_step(m, guards_match(g, x, y), x, y));
    }
    law_joined(g, b, m, cond, ct, ce, r[n - 1]);
    lemma_grows_models(a, b, m);
    let before = paired(on, ps, n - 1);
    let after = paired(on, ps, n);
    match side(on, p) {
        Some(i) => {
            let c = cs[i as int];
            lemma_same_class(a, m, c.addr, pair_addr(ts, es, p));
            assert(r[n - 1].addr == pair_addr(ts, es, p));
            assert(!before.contains(i as int)) by {
                if before.contains(i as int) {
                    let k = choose|k: int|
                        0 <= k < n - 1 && side(on, #[trigger] ps[k]) == Some(i);
                    assert(is_pair(a, ts, es, ps[k]));
                    assert(a.canon(pair_addr(ts, es, ps[k])) != a.canon(
                        pair_addr(ts, es, ps[n - 1]),
                    ));
                }
            }
            assert(after =~= before.insert(i as int)) by {
                assert forall|x: int| after.contains(x) == before.insert(i as int).contains(x) by {
                    if after.contains(x) {
                        let k = choose|k: int|
                            0 <= k < n && side(on, #[trigger] ps[k]) == Some(x as usize);
                        if k < n - 1 {
                            assert(before.contains(x));
                        }
                    }
                    if before.contains(x) {
                        let k = choose|k: int|
                            0 <= k < n - 1 && side(on, #[trigger] ps[k]) == Some(x as usize);
                        assert(after.contains(x));
                    }
                    if x == i {
                        assert(side(on, ps[n - 1]) == Some(x as usize));
                    }
                }
            }
            lemma_chosen_more(m, cs, before, i as int, cs.len() as int, loc);
        },
        None => {
            assert(after =~= before) by {
                assert forall|x: int| after.contains(x) == before.contains(x) by {
                    if after.contains(x) {
                        let k = choose|k: int|
                            0 <= k < n && side(on, #[trigger] ps[k]) == Some(x as usize);
                        assert(k < n - 1);
                    }
                    if before.contains(x) {
                        let k = choose|k: int|
                            0 <= k < n - 1 && side(on, #[trigger] ps[k]) == Some(x as usize);
                        assert(side(on, ps[k]) == Some(x as usize));
                    }
                }
            }
        },
    }
}

proof fn lemma_chosen_none(m: Model, cs: Seq<Chunk>, s: Set<int>, n: int, loc: Value)
    requires
        0 <= n <= cs.len(),
        forall|i: int| !s.contains(i),
    ensures
        chosen_total(m, cs, s, n, loc) == 0 as real,
    decreases n,
{
    if n > 0 {
        lemma_chosen_none(m, cs, s, n - 1, loc);
    }
}

/// Guards that are taken for one are met together.
pub open spec fn guards_in_step(m: Model, ts: Seq<Chunk>, es: Seq<Chunk>) -> bool {
    forall|g: Graph, i: int, j: int|
        #![trigger guards_match(g, ts[i], es[j])]
        0 <= i < ts.len() && 0 <= j < es.len() ==> in_step(
            m,
            guards_match(g, ts[i], es[j]),
            ts[i],
            es[j],
        )
}

/// Where two branches join, no two chunks of a branch in one class, each location has
/// what it had in the branch that was taken.
pub proof fn law_merged_heaps(
    a: Graph,
    b: Graph,
    m: Model,
    cond: Id,
    ts: Seq<Chunk>,
    es: Seq<Chunk>,
    r: Seq<Chunk>,
    loc: Value,
)
    requires
        a.wf(),
        !b.full(),
        b.models(m),
        a.has(cond),
        chunks_in(a, ts),
        chunks_in(a, es),
        ts.len() <= usize::MAX,
        es.len() <= usize::MAX,
        classes_apart(b, ts),
        classes_apart(b, es),
        guards_in_step(m, ts, es),
        joined_after(a, b, cond, ts, es, r),
    ensures
        total(m, r, loc) == (if met(m, cond) {
            total(m, ts, loc)
        } else {
            total(m, es, loc)
        }),
{
    let g = choose|g: Graph|
        stepped(a, g) && stepped(g, b) && #[trigger] joined_group(g, b, cond, ts, es, r);
    let ps = choose|ps: Seq<(Option<usize>, Option<usize>)>| #[trigger]
        pairs_up(g, ts, es, ps) && ps.len() == r.len() && joined_pairs(g, b, cond, ts, es, ps, r);
    lemma_chunks_grow(a, g, ts);
    lemma_chunks_grow(a, g, es);
    let n = r.len() as int;
    lemma_pairs_total(g, b, m, cond, ts, es, ps, r, n, loc);
    assert(r.take(n) =~= r);
    let on = met(m, cond);
    let cs = if on {
        ts
    } else {
        es
    };
    assert forall|i: int| 0 <= i < cs.len() implies paired(on, ps, n).contains(i) by {
        assert(has_class(g, ts, es, ps, cs[i].addr)) by {
            if on {
                let _ = ts[i];
            } else {
                let _ = es[i];
            }
        }
        let k = choose|k: int|
            0 <= k < ps.len() && g.canon(pair_addr(ts, es, #[trigger] ps[k])) == g.canon(
                cs[i].addr,
            );
        assert(is_pair(g, ts, es, ps[k]));
        assert(chunk_in(g, cs[i]));
        match side(on, ps[k]) {
            Some(x) => {
                let y = x as int;
                assert(chunk_in(g, cs[y]));
                if y < i {
                    assert(b.canon(cs[y].addr) != b.canon(cs[i].addr));
                } else if i < y {
                    assert(b.canon(cs[i].addr) != b.canon(cs[y].addr));
                }
                assert(side(on, ps[k]) == Some(i as usize));
            },
            None => {
                assert(g.canon(cs[i].addr) != g.canon(pair_addr(ts, es, ps[k])));
            },
        }
    }
    lemma_chosen_all(m, cs, paired(on, ps, n), cs.len() as int, loc);
    assert(cs.take(cs.len() as int) =~= cs);
}

} // verus!
