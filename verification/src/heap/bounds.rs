//! What is assumed of the locations of a heap: that they keep to their bounds.

use crate::context::{
    cube_holds, cube_in, learns, lemma_cube_grows, lemma_leads_trans, lemma_learns_holds, lit_holds,
    Context,
};
use crate::graph::Graph;
use crate::heap::chunk::{chunk_in, lemma_chunk_grows, Chunk, Kinds};
use crate::heap::cube::{cube_meet, law_meet, meet};

use crate::heap::facts::{
    apart_fact, bound_fact, lemma_reaches_asserted, lemma_reaches_follows, lemma_reaches_more,
    lemma_reaches_refl, lemma_reaches_trans, only, over_tm, reaches,
};
use crate::heap::gate::{
    copy_cube, cube_on, gate_expr, law_leaves, leaves_under, lemma_gate_tm,
    lit_on,
};
use crate::heap::groups::{apart, chunks_in, heap_in, Heap};
use crate::heap::perm::{leaves_of, perm_amt, perm_in, perm_sorted, ChunkPerm};
use crate::lang::Id;
use crate::method::merge::amount;
use crate::model::{
    equation_holds, lemma_tm_bin, lemma_tm_ite, lemma_tm_lit, lemma_tm_not, t_bin, t_bool, t_eq,
    t_ltr, t_not, t_real, Model, Tm,
};
use crate::nums::Rat;
use crate::prove::{cube_bools, law_guard_value};
use crate::rewrite::guards::guard_expr;
use crate::rewrite::rules::stepped;
use crate::terms::{lemma_grows_models, Expr};
use crate::vmir::{BinOp, Bound, Literal, Polarity, Value};
use vstd::prelude::*;

verus! {

/// Where a chunk is there in a block, its amount is at most a bound.
pub open spec fn bounded_chunk(g: Graph, block: Seq<(Id, Polarity)>, b: real, c: Chunk) -> bool {
    g.full() || forall|m: Model| #[trigger]
        g.models(m) && cube_holds(m, block) && cube_holds(m, c.guard@) && perm_sorted(m, c.perm)
            ==> perm_amt(m, c.perm) <= b
}

proof fn lemma_bounded_grows(g: Graph, h: Graph, block: Seq<(Id, Polarity)>, b: real, c: Chunk)
    requires
        g.grows_to(h),
        bounded_chunk(g, block, b, c),
    ensures
        bounded_chunk(h, block, b, c),
{
    if !h.full() {
        assert forall|m: Model| #[trigger]
            h.models(m) && cube_holds(m, block) && cube_holds(m, c.guard@) && perm_sorted(
                m,
                c.perm,
            ) implies perm_amt(m, c.perm) <= b by {
            lemma_grows_models(g, h, m);
        }
    }
}

/// What the bound says of one leaf under the literals that lead to it.
spec fn leaf_bounded(
    g: Graph,
    block: Seq<(Id, Polarity)>,
    guard: Seq<(Id, Polarity)>,
    b: real,
    leaf: (Id, Seq<(Id, Polarity)>),
) -> bool {
    g.full() || forall|m: Model| #[trigger]
        g.models(m) && cube_holds(m, block) && cube_holds(m, guard) && cube_holds(m, leaf.1)
            ==> amount(m.at(leaf.0)) <= b
}

proof fn lemma_leaf_grows(
    g: Graph,
    h: Graph,
    block: Seq<(Id, Polarity)>,
    guard: Seq<(Id, Polarity)>,
    b: real,
    leaf: (Id, Seq<(Id, Polarity)>),
)
    requires
        g.grows_to(h),
        leaf_bounded(g, block, guard, b, leaf),
    ensures
        leaf_bounded(h, block, guard, b, leaf),
{
    if !h.full() {
        assert forall|m: Model| #[trigger]
            h.models(m) && cube_holds(m, block) && cube_holds(m, guard) && cube_holds(
                m,
                leaf.1,
            ) implies amount(m.at(leaf.0)) <= b by {
            lemma_grows_models(g, h, m);
        }
    }
}

proof fn lemma_leaves_in(g: Graph, p: ChunkPerm, path: Seq<(Id, Polarity)>)
    requires
        perm_in(g, p),
        cube_in(g, path),
    ensures
        forall|i: int|
            0 <= i < leaves_of(p, path).len() ==> g.has((#[trigger] leaves_of(p, path)[i]).0)
                && cube_in(g, leaves_of(p, path)[i].1),
    decreases p,
{
    if let ChunkPerm::Select { cond, on, off } = p {
        let yes = path.push((cond, Polarity::Positive));
        let no = path.push((cond, Polarity::Negative));
        assert forall|i: int| 0 <= i < yes.len() implies g.has((#[trigger] yes[i]).0) by {
            if i < path.len() {
                assert(g.has(path[i].0));
            }
        }
        assert forall|i: int| 0 <= i < no.len() implies g.has((#[trigger] no[i]).0) by {
            if i < path.len() {
                assert(g.has(path[i].0));
            }
        }
        lemma_leaves_in(g, *on, yes);
        lemma_leaves_in(g, *off, no);
        let a = leaves_of(*on, yes);
        let b = leaves_of(*off, no);
        assert forall|i: int| 0 <= i < (a + b).len() implies g.has((#[trigger] (a + b)[i]).0)
            && cube_in(g, (a + b)[i].1) by {
            if i < a.len() {
                assert((a + b)[i] == a[i]);
            } else {
                assert((a + b)[i] == b[i - a.len()]);
            }
        }
    }
}

proof fn lemma_leaves_sorted(m: Model, p: ChunkPerm, path: Seq<(Id, Polarity)>)
    requires
        perm_sorted(m, p),
        cube_bools(m, path),
    ensures
        forall|i: int|
            0 <= i < leaves_of(p, path).len() ==> cube_bools(m, (#[trigger] leaves_of(p, path)[i]).1),
    decreases p,
{
    if let ChunkPerm::Select { cond, on, off } = p {
        let yes = path.push((cond, Polarity::Positive));
        let no = path.push((cond, Polarity::Negative));
        assert forall|i: int| 0 <= i < yes.len() implies m.at((#[trigger] yes[i]).0) is Bool by {
            if i < path.len() {
                assert(m.at(path[i].0) is Bool);
            }
        }
        assert forall|i: int| 0 <= i < no.len() implies m.at((#[trigger] no[i]).0) is Bool by {
            if i < path.len() {
                assert(m.at(path[i].0) is Bool);
            }
        }
        lemma_leaves_sorted(m, *on, yes);
        lemma_leaves_sorted(m, *off, no);
        let a = leaves_of(*on, yes);
        let b = leaves_of(*off, no);
        assert forall|i: int| 0 <= i < (a + b).len() implies cube_bools(
            m,
            (#[trigger] (a + b)[i]).1,
        ) by {
            if i < a.len() {
                assert((a + b)[i] == a[i]);
            } else {
                assert((a + b)[i] == b[i - a.len()]);
            }
        }
    }
}

pub proof fn lemma_on_holds(m: Model, cube: Seq<(Id, Polarity)>)
    requires
        cube_on(m, cube),
        cube_bools(m, cube),
    ensures
        cube_holds(m, cube),
{
    assert forall|i: int| 0 <= i < cube.len() implies lit_holds(m, #[trigger] cube[i]) by {
        assert(lit_on(m, cube[i]));
        assert(m.at(cube[i].0) is Bool);
    }
}

proof fn lemma_bound_fact(m: Model, gate: Seq<(Id, Polarity)>, b: real, leaf: Id)
    requires
        equation_holds(m, bound_fact(gate, b, leaf)),
        cube_holds(m, gate),
    ensures
        amount(m.at(leaf)) <= b,
{
    let inner = t_ltr(t_real(b), Tm::Class(leaf));
    lemma_tm_lit(m, Value::Bool(true));
    lemma_tm_lit(m, Value::Real(b));
    law_guard_value(m, gate, t_not(inner));
    lemma_tm_not(m, inner);
    lemma_tm_bin(m, BinOp::LtR, t_real(b), Tm::Class(leaf));
}

/// The bound of a chunk, said of one of its leaves: where the chunk is there in a block,
/// and the conditions of the leaf hold.
pub open spec fn is_bound_fact(
    g: Graph,
    g0: Graph,
    block: Seq<(Id, Polarity)>,
    b: real,
    c: Chunk,
    i: int,
    f: (Tm, Tm),
) -> bool {
    let ls = leaves_of(c.perm, Seq::empty());
    &&& stepped(g0, g)
    &&& 0 <= i < ls.len()
    &&& meet(g0, block, c.guard@) matches Some(cube) && (meet(g, cube, ls[i].1) matches Some(gate)
        && f == bound_fact(gate, b, ls[i].0))
}

/// What the bound of a chunk says.
pub open spec fn bound_facts(block: Seq<(Id, Polarity)>, b: real, c: Chunk) -> Set<
    (Graph, (Tm, Tm)),
> {
    Set::new(|e: (Graph, (Tm, Tm))| bounds_leaf(e.0, block, b, c, e.1))
}

/// What the bound of a chunk says of some leaf.
pub open spec fn bounds_leaf(
    g: Graph,
    block: Seq<(Id, Polarity)>,
    b: real,
    c: Chunk,
    f: (Tm, Tm),
) -> bool {
    exists|g0: Graph, i: int| #[trigger] is_bound_fact(g, g0, block, b, c, i, f)
}

/// The bound of two chunks: where both are there in a block, and are more than the bound
/// together, they are at different addresses.
pub open spec fn is_apart_fact(
    g: Graph,
    g0: Graph,
    block: Seq<(Id, Polarity)>,
    b: real,
    c: Chunk,
    d: Chunk,
    f: (Tm, Tm),
) -> bool {
    let x = g0.canon(c.addr);
    let y = g0.canon(d.addr);
    &&& stepped(g0, g)
    &&& c.perm matches ChunkPerm::Leaf { id: p, .. } && (d.perm matches ChunkPerm::Leaf {
        id: q,
        ..
    } && (meet(g0, block, c.guard@) matches Some(ci) && (meet(g0, block, d.guard@) matches Some(cj)
        && (meet(g0, ci, cj) matches Some(gs) && (f == apart_fact(gs, b, p, q, x, y) || f
        == apart_fact(gs, b, p, q, y, x))))))
}

/// What the bound of two chunks says.
pub open spec fn apart_facts(block: Seq<(Id, Polarity)>, b: real, c: Chunk, d: Chunk) -> Set<
    (Graph, (Tm, Tm)),
> {
    Set::new(|e: (Graph, (Tm, Tm))| keeps_apart(e.0, block, b, c, d, e.1))
}

/// What the bound of two chunks says, as it was at some point.
pub open spec fn keeps_apart(
    g: Graph,
    block: Seq<(Id, Polarity)>,
    b: real,
    c: Chunk,
    d: Chunk,
    f: (Tm, Tm),
) -> bool {
    exists|g0: Graph| #[trigger] is_apart_fact(g, g0, block, b, c, d, f)
}

/// What the bound of its kind says of one chunk of a list.
pub open spec fn says_bound(
    e: (Graph, (Tm, Tm)),
    block: Seq<(Id, Polarity)>,
    kinds: Kinds,
    c: (usize, Chunk),
) -> bool {
    kinds.list@[c.0 as int].bound@ matches Some(b) && bound_facts(block, b, c.1).contains(e)
}

/// What the bound of their group says of two chunks of a list.
pub open spec fn says_apart(
    e: (Graph, (Tm, Tm)),
    block: Seq<(Id, Polarity)>,
    kinds: Kinds,
    c: (usize, Chunk),
    d: (usize, Chunk),
) -> bool {
    &&& kinds.list@[c.0 as int].group == kinds.list@[d.0 as int].group
    &&& c != d
    &&& kinds.list@[c.0 as int].bound@ matches Some(b) && apart_facts(block, b, c.1, d.1).contains(
        e,
    )
}

/// What the bounds of their kinds say of the chunks of a list.
pub open spec fn entry_facts(
    block: Seq<(Id, Polarity)>,
    kinds: Kinds,
    es: Seq<(usize, Chunk)>,
) -> Set<(Graph, (Tm, Tm))> {
    Set::new(
        |e: (Graph, (Tm, Tm))|
            {
                ||| exists|i: int|
                    0 <= i < es.len() && says_bound(e, block, kinds, #[trigger] es[i])
                ||| exists|i: int, j: int|
                    0 <= i < j < es.len() && says_apart(
                        e,
                        block,
                        kinds,
                        #[trigger] es[i],
                        #[trigger] es[j],
                    )
            },
    )
}

/// A chunk of a heap and its kind.
pub open spec fn in_heap(h: Heap, c: (usize, Chunk)) -> bool {
    h.group(c.0).contains(c.1)
}

/// What the bounds of their kinds say of the chunks of a heap, in a block: each leaf of a
/// chunk keeps to the bound, and two chunks that are more than the bound together are
/// at different addresses.
pub open spec fn location_facts(block: Seq<(Id, Polarity)>, kinds: Kinds, h: Heap) -> Set<
    (Graph, (Tm, Tm)),
> {
    Set::new(
        |e: (Graph, (Tm, Tm))|
            {
                ||| exists|c: (usize, Chunk)| #[trigger]
                    in_heap(h, c) && says_bound(e, block, kinds, c)
                ||| exists|c: (usize, Chunk), d: (usize, Chunk)| #[trigger]
                    in_heap(h, c) && #[trigger] in_heap(h, d) && says_apart(e, block, kinds, c, d)
            },
    )
}

proof fn lemma_bound_entry(
    block: Seq<(Id, Polarity)>,
    kinds: Kinds,
    es: Seq<(usize, Chunk)>,
    i: int,
)
    requires
        0 <= i < es.len(),
        kinds.list@[es[i].0 as int].bound@ is Some,
    ensures
        bound_facts(block, kinds.list@[es[i].0 as int].bound@.unwrap(), es[i].1).subset_of(
            entry_facts(block, kinds, es),
        ),
{
    let b = kinds.list@[es[i].0 as int].bound@.unwrap();
    assert forall|e: (Graph, (Tm, Tm))| bound_facts(block, b, es[i].1).contains(
        e,
    ) implies entry_facts(block, kinds, es).contains(e) by {
        assert(says_bound(e, block, kinds, es[i]));
    }
}

proof fn lemma_apart_entry(
    block: Seq<(Id, Polarity)>,
    kinds: Kinds,
    es: Seq<(usize, Chunk)>,
    i: int,
    j: int,
)
    requires
        0 <= i < j < es.len(),
        kinds.list@[es[i].0 as int].group == kinds.list@[es[j].0 as int].group,
        es[i] != es[j],
        kinds.list@[es[i].0 as int].bound@ is Some,
    ensures
        apart_facts(
            block,
            kinds.list@[es[i].0 as int].bound@.unwrap(),
            es[i].1,
            es[j].1,
        ).subset_of(entry_facts(block, kinds, es)),
{
    let b = kinds.list@[es[i].0 as int].bound@.unwrap();
    assert forall|e: (Graph, (Tm, Tm))| apart_facts(block, b, es[i].1, es[j].1).contains(
        e,
    ) implies entry_facts(block, kinds, es).contains(e) by {
        assert(says_apart(e, block, kinds, es[i], es[j]));
    }
}

proof fn lemma_entry_location(
    block: Seq<(Id, Polarity)>,
    kinds: Kinds,
    h: Heap,
    es: Seq<(usize, Chunk)>,
)
    requires
        forall|j: int| 0 <= j < es.len() ==> in_heap(h, #[trigger] es[j]),
    ensures
        entry_facts(block, kinds, es).subset_of(location_facts(block, kinds, h)),
{
    assert forall|e: (Graph, (Tm, Tm))| entry_facts(block, kinds, es).contains(
        e,
    ) implies location_facts(block, kinds, h).contains(e) by {
        if exists|i: int| 0 <= i < es.len() && says_bound(e, block, kinds, #[trigger] es[i]) {
            let i = choose|i: int|
                0 <= i < es.len() && says_bound(e, block, kinds, #[trigger] es[i]);
            assert(in_heap(h, es[i]));
        } else {
            let (i, j) = choose|i: int, j: int|
                0 <= i < j < es.len() && says_apart(
                    e,
                    block,
                    kinds,
                    #[trigger] es[i],
                    #[trigger] es[j],
                );
            assert(in_heap(h, es[i]) && in_heap(h, es[j]));
        }
    }
}

/// Assumes that an amount is at most a bound under literals.
fn assume_leaf(ctx: &mut Context, gate: &Vec<(Id, Polarity)>, b: &Rat, leaf: Id)
    requires
        old(ctx).wf(),
        old(ctx).graph.has(leaf),
        cube_in(old(ctx).graph, gate@),
    ensures
        crate::rewrite::pins::asserted(
            old(ctx).graph,
            final(ctx).graph,
            seq![bound_fact(gate@, b@, leaf)],
        ),
        learns(*old(ctx), *final(ctx), seq![bound_fact(gate@, b@, leaf)]),
{
    let ghost c0 = *ctx;
    let over = Expr::bin(BinOp::LtR, Expr::Lit(Literal::Real(b.clone())), Expr::Class(leaf));
    let fact = guard_expr(gate, Expr::negation(over));
    ctx.assume_expr(&fact);
    proof {
        let f = bound_fact(gate@, b@, leaf);
        lemma_reaches_asserted(c0, *ctx, f, only(f));
    }
}

/// Assumes that a chunk keeps to a bound where it is there in a block.
fn assume_bound(ctx: &mut Context, block: &Vec<(Id, Polarity)>, b: &Rat, c: &Chunk)
    requires
        old(ctx).wf(),
        cube_in(old(ctx).graph, block@),
        chunk_in(old(ctx).graph, *c),
    ensures
        reaches(*old(ctx), *final(ctx), bound_facts(block@, b@, *c)),
        bounded_chunk(final(ctx).graph, block@, b@, *c),
{
    let ghost c0 = *ctx;
    let ghost fs = bound_facts(block@, b@, *c);
    proof {
        lemma_reaches_refl(c0);
    }
    let cube = match cube_meet(&ctx.graph, block, &c.guard) {
        Some(cube) => cube,
        None => {
            proof {
                assert forall|m: Model| #[trigger]
                    c0.graph.models(m) && cube_holds(m, block@) && cube_holds(m, c.guard@)
                        && perm_sorted(m, c.perm) implies perm_amt(m, c.perm) <= b@ by {
                    law_meet(c0.graph, m, block@, c.guard@);
                }
            }
            return ;
        },
    };
    let none: Vec<(Id, Polarity)> = Vec::new();
    let leaves = leaves_under(&c.perm, &none);
    let ghost ls = leaves_of(c.perm, none@);
    proof {
        lemma_leaves_in(c0.graph, c.perm, none@);
    }
    let mut i: usize = 0;
    while i < leaves.len()
        invariant
            i <= leaves@.len(),
            c0.wf(),
            ctx.wf(),
            reaches(c0, *ctx, fs),
            fs == bound_facts(block@, b@, *c),
            none@.len() == 0,
            cube_in(c0.graph, block@),
            chunk_in(c0.graph, *c),
            cube_in(c0.graph, cube@),
            meet(c0.graph, block@, c.guard@) == Some(cube@),
            leaves@.len() == ls.len(),
            ls == leaves_of(c.perm, none@),
            forall|k: int|
                0 <= k < leaves@.len() ==> (#[trigger] leaves@[k]).0 == ls[k].0 && leaves@[k].1@
                    == ls[k].1,
            forall|k: int|
                0 <= k < ls.len() ==> c0.graph.has((#[trigger] ls[k]).0) && cube_in(
                    c0.graph,
                    ls[k].1,
                ),
            forall|k: int|
                0 <= k < i ==> leaf_bounded(
                    ctx.graph,
                    block@,
                    c.guard@,
                    b@,
                    #[trigger] ls[k],
                ),
        decreases leaves.len() - i,
    {
        let ghost c1 = *ctx;
        let leaf = leaves[i].0;
        proof {
            assert(c0.graph.has(ls[i as int].0));
            lemma_cube_grows(c0.graph, c1.graph, cube@);
            lemma_cube_grows(c0.graph, c1.graph, ls[i as int].1);
        }
        let gate = cube_meet(&ctx.graph, &cube, &leaves[i].1);
        match &gate {
            Some(gate) => {
                assume_leaf(ctx, gate, b, leaf);
                proof {
                    let f = bound_fact(gate@, b@, leaf);
                    assert(none@ =~= Seq::empty());
                    assert(is_bound_fact(c1.graph, c0.graph, block@, b@, *c, i as int, f));
                    assert(bounds_leaf(c1.graph, block@, b@, *c, f));
                    assert(fs.contains((c1.graph, f)));
                    lemma_reaches_asserted(c1, *ctx, f, fs);
                }
            },
            None => {
                proof {
                    lemma_reaches_refl(c1);
                }
            },
        }
        proof {
            lemma_reaches_trans(c0, c1, *ctx);
            let g = ctx.graph;
            let arm = ls[i as int].1;
            if !g.full() {
                assert forall|m: Model| #[trigger]
                    g.models(m) && cube_holds(m, block@) && cube_holds(m, c.guard@) && cube_holds(
                        m,
                        arm,
                    ) implies amount(m.at(leaf)) <= b@ by {
                    lemma_grows_models(c0.graph, g, m);
                    lemma_grows_models(c1.graph, g, m);
                    law_meet(c0.graph, m, block@, c.guard@);
                    law_meet(c1.graph, m, cube@, arm);
                    if let Some(gt) = gate {
                        let f = bound_fact(gt@, b@, leaf);
                        lemma_learns_holds(c1, *ctx, seq![f], m);
                        assert(equation_holds(m, seq![f][0]));
                        lemma_bound_fact(m, gt@, b@, leaf);
                    }
                }
            }
            assert forall|k: int| 0 <= k < i + 1 implies leaf_bounded(
                g,
                block@,
                c.guard@,
                b@,
                #[trigger] ls[k],
            ) by {
                if k < i {
                    lemma_leaf_grows(c1.graph, g, block@, c.guard@, b@, ls[k]);
                }
            }
        }
        i += 1;
    }
    proof {
        let g = ctx.graph;
        if !g.full() {
            assert forall|m: Model| #[trigger]
                g.models(m) && cube_holds(m, block@) && cube_holds(m, c.guard@) && perm_sorted(
                    m,
                    c.perm,
                ) implies perm_amt(m, c.perm) <= b@ by {
                let k = law_leaves(m, c.perm, none@);
                lemma_leaves_sorted(m, c.perm, none@);
                lemma_on_holds(m, ls[k].1);
                assert(leaf_bounded(g, block@, c.guard@, b@, ls[k]));
            }
        }
    }
}

/// Two chunks without a choice are not at one address where both are there in a block
/// and hold more than a bound together.
pub open spec fn apart_chunks(
    g: Graph,
    block: Seq<(Id, Polarity)>,
    b: real,
    c: Chunk,
    d: Chunk,
) -> bool {
    (c.perm is Leaf && d.perm is Leaf) ==> (g.full() || forall|m: Model| #[trigger]
        g.models(m) && cube_holds(m, block) && cube_holds(m, c.guard@) && cube_holds(m, d.guard@)
            && perm_amt(m, c.perm) + perm_amt(m, d.perm) > b ==> m.at(c.addr) != m.at(d.addr))
}

proof fn lemma_apart_grows(
    g: Graph,
    h: Graph,
    block: Seq<(Id, Polarity)>,
    b: real,
    c: Chunk,
    d: Chunk,
)
    requires
        g.grows_to(h),
        apart_chunks(g, block, b, c, d),
    ensures
        apart_chunks(h, block, b, c, d),
{
    if c.perm is Leaf && d.perm is Leaf && !h.full() {
        assert forall|m: Model| #[trigger]
            h.models(m) && cube_holds(m, block) && cube_holds(m, c.guard@) && cube_holds(
                m,
                d.guard@,
            ) && perm_amt(m, c.perm) + perm_amt(m, d.perm) > b implies m.at(c.addr) != m.at(d.addr) by {
            lemma_grows_models(g, h, m);
        }
    }
}

proof fn lemma_apart_fact(
    m: Model,
    gs: Seq<(Id, Polarity)>,
    b: real,
    p: Id,
    q: Id,
    x: Id,
    y: Id,
)
    requires
        equation_holds(m, apart_fact(gs, b, p, q, x, y)),
        cube_holds(m, gs),
        amount(m.at(p)) + amount(m.at(q)) > b,
    ensures
        m.at(x) != m.at(y),
{
    let eq = t_eq(Tm::Class(x), Tm::Class(y));
    let sum = t_bin(BinOp::AddR, Tm::Class(p), Tm::Class(q));
    let gt = t_ltr(t_real(b), sum);
    lemma_tm_bin(m, BinOp::Eq, Tm::Class(x), Tm::Class(y));
    lemma_tm_lit(m, Value::Bool(false));
    lemma_tm_lit(m, Value::Real(b));
    lemma_tm_bin(m, BinOp::AddR, Tm::Class(p), Tm::Class(q));
    lemma_tm_bin(m, BinOp::LtR, t_real(b), sum);
    lemma_gate_tm(m, gs, gt, t_bool(false));
    lemma_tm_ite(m, over_tm(gs, b, p, q), t_bool(false), eq);
}

/// Assumes that two amounts over a bound are at different addresses.
fn assume_pair(
    ctx: &mut Context,
    guard: &Vec<(Id, Polarity)>,
    b: &Rat,
    p: Id,
    q: Id,
    x: Id,
    y: Id,
)
    requires
        old(ctx).wf(),
        old(ctx).graph.has(p),
        old(ctx).graph.has(q),
        old(ctx).graph.has(x),
        old(ctx).graph.has(y),
        cube_in(old(ctx).graph, guard@),
    ensures
        crate::rewrite::pins::asserted(
            old(ctx).graph,
            final(ctx).graph,
            seq![apart_fact(guard@, b@, p, q, x, y)],
        ),
        learns(*old(ctx), *final(ctx), seq![apart_fact(guard@, b@, p, q, x, y)]),
{
    let ghost c0 = *ctx;
    let sum = Expr::bin(BinOp::AddR, Expr::Class(p), Expr::Class(q));
    let gt = Expr::bin(BinOp::LtR, Expr::Lit(Literal::Real(b.clone())), sum);
    let over = gate_expr(guard, gt, false);
    let eq = Expr::bin(BinOp::Eq, Expr::Class(x), Expr::Class(y));
    let again = Expr::bin(BinOp::Eq, Expr::Class(x), Expr::Class(y));
    let right = Expr::ite(over, Expr::boolean(false), again);
    ctx.assume_equal(eq, right);
    proof {
        let f = apart_fact(guard@, b@, p, q, x, y);
        lemma_reaches_asserted(c0, *ctx, f, only(f));
    }
}

/// Assumes that two chunks over a bound are at different addresses where both are
/// there in a block.
fn assume_apart(ctx: &mut Context, block: &Vec<(Id, Polarity)>, b: &Rat, c: &Chunk, d: &Chunk)
    requires
        old(ctx).wf(),
        cube_in(old(ctx).graph, block@),
        chunk_in(old(ctx).graph, *c),
        chunk_in(old(ctx).graph, *d),
    ensures
        reaches(*old(ctx), *final(ctx), apart_facts(block@, b@, *c, *d)),
        apart_chunks(final(ctx).graph, block@, b@, *c, *d),
        apart_chunks(final(ctx).graph, block@, b@, *d, *c),
{
    let ghost c0 = *ctx;
    proof {
        lemma_reaches_refl(c0);
    }
    let (p, q) = match (c.perm.as_leaf(), d.perm.as_leaf()) {
        (Some(p), Some(q)) => (p, q),
        _ => {
            return ;
        },
    };
    let ci = cube_meet(&ctx.graph, block, &c.guard);
    let cj = cube_meet(&ctx.graph, block, &d.guard);
    let guard = match (&ci, &cj) {
        (Some(x), Some(y)) => cube_meet(&ctx.graph, x, y),
        _ => None,
    };
    let x = ctx.graph.find(c.addr);
    let y = ctx.graph.find(d.addr);
    match &guard {
        Some(gs) => {
            assume_pair(ctx, gs, b, p, q, x, y);
            let ghost c1 = *ctx;
            proof {
                lemma_cube_grows(c0.graph, c1.graph, gs@);
            }
            assume_pair(ctx, gs, b, p, q, y, x);
            proof {
                let fs = apart_facts(block@, b@, *c, *d);
                let f1 = apart_fact(gs@, b@, p, q, x, y);
                let f2 = apart_fact(gs@, b@, p, q, y, x);
                crate::context::lemma_leads_refl(c0);
                assert(is_apart_fact(c0.graph, c0.graph, block@, b@, *c, *d, f1));
                assert(is_apart_fact(c1.graph, c0.graph, block@, b@, *c, *d, f2));
                assert(keeps_apart(c0.graph, block@, b@, *c, *d, f1));
                assert(keeps_apart(c1.graph, block@, b@, *c, *d, f2));
                assert(fs.contains((c0.graph, f1)));
                assert(fs.contains((c1.graph, f2)));
                lemma_reaches_asserted(c0, c1, f1, fs);
                lemma_reaches_asserted(c1, *ctx, f2, fs);
                lemma_reaches_trans(c0, c1, *ctx);
                let g = ctx.graph;
                if !g.full() {
                    assert forall|m: Model| #[trigger]
                        g.models(m) && cube_holds(m, block@) && cube_holds(m, c.guard@)
                            && cube_holds(m, d.guard@) && perm_amt(m, c.perm) + perm_amt(m, d.perm)
                            > b@ implies m.at(c.addr) != m.at(d.addr) by {
                        lemma_grows_models(c0.graph, g, m);
                        lemma_grows_models(c1.graph, g, m);
                        law_meet(c0.graph, m, block@, c.guard@);
                        law_meet(c0.graph, m, block@, d.guard@);
                        law_meet(c0.graph, m, ci.unwrap()@, cj.unwrap()@);
                        let f = apart_fact(gs@, b@, p, q, x, y);
                        lemma_learns_holds(c0, c1, seq![f], m);
                        assert(equation_holds(m, seq![f][0]));
                        lemma_apart_fact(m, gs@, b@, p, q, x, y);
                        crate::graph::lemma_canon_value(c0.graph, m, c.addr);
                        crate::graph::lemma_canon_value(c0.graph, m, d.addr);
                    }
                }
            }
        },
        None => {
            proof {
                let g = c0.graph;
                assert forall|m: Model| #[trigger]
                    g.models(m) && cube_holds(m, block@) && cube_holds(m, c.guard@) && cube_holds(
                        m,
                        d.guard@,
                    ) implies false by {
                    law_meet(g, m, block@, c.guard@);
                    law_meet(g, m, block@, d.guard@);
                    law_meet(g, m, ci.unwrap()@, cj.unwrap()@);
                }
            }
        },
    }
}

/// A chunk of a heap.
pub open spec fn is_entry(h: Heap, e: (usize, Chunk)) -> bool {
    exists|i: int| 0 <= i < h.group(e.0).len() && #[trigger] h.group(e.0)[i] == e.1
}

/// Every chunk of a heap is listed with the number of its kind, and nothing else.
pub open spec fn lists_chunks(h: Heap, es: Seq<(usize, Chunk)>) -> bool {
    &&& forall|j: int| 0 <= j < es.len() ==> is_entry(h, #[trigger] es[j])
    &&& forall|k: usize, i: int|
        0 <= i < h.group(k).len() ==> es.contains((k, #[trigger] h.group(k)[i]))
}

/// No two chunks of one kind that are listed have one address.
pub open spec fn once_each(es: Seq<(usize, Chunk)>) -> bool {
    forall|i: int, j: int|
        0 <= i < j < es.len() && (#[trigger] es[i]).0 == (#[trigger] es[j]).0 ==> es[i].1.addr
            != es[j].1.addr
}

impl Heap {
    /// Every chunk with the number of its kind, in some order of the kinds.
    pub fn entries(&self) -> (r: Vec<(usize, Chunk)>)
        ensures
            lists_chunks(*self, r@),
            once_each(r@),
            forall|k: usize| apart(#[trigger] self.group(k)),
    {
        let kinds = self.kinds();
        let mut out: Vec<(usize, Chunk)> = Vec::new();
        let mut i: usize = 0;
        while i < kinds.len()
            invariant
                i <= kinds@.len(),
                forall|k: usize| kinds@.contains(k) == ((#[trigger] self.group(k)).len() > 0),
                kinds@.no_duplicates(),
                forall|k: usize| apart(#[trigger] self.group(k)),
                once_each(out@),
                forall|j: int|
                    0 <= j < out@.len() ==> kinds@.take(i as int).contains((#[trigger] out@[j]).0),
                forall|j: int| 0 <= j < out@.len() ==> is_entry(*self, #[trigger] out@[j]),
                forall|n: int, j: int|
                    0 <= n < i && 0 <= j < self.group(kinds@[n]).len() ==> out@.contains(
                        (kinds@[n], #[trigger] self.group(kinds@[n])[j]),
                    ),
            decreases kinds.len() - i,
        {
            let k = kinds[i];
            let cs = self.chunks_of(k);
            let ghost before = out@;
            let mut j: usize = 0;
            proof {
                assert forall|n: int| 0 <= n < before.len() implies (#[trigger] before[n]).0 != k by {
                    if before[n].0 == k {
                        let x = choose|x: int|
                            0 <= x < i && kinds@.take(i as int)[x] == before[n].0;
                        assert(kinds@[x] == kinds@[i as int]);
                    }
                }
            }
            while j < cs.len()
                invariant
                    j <= cs@.len(),
                    cs@ == self.group(k),
                    apart(self.group(k)),
                    once_each(out@),
                    forall|n: int| 0 <= n < before.len() ==> (#[trigger] before[n]).0 != k,
                    forall|n: int| 0 <= n < out@.len() ==> is_entry(*self, #[trigger] out@[n]),
                    out@.len() == before.len() + j,
                    forall|n: int| 0 <= n < before.len() ==> out@[n] == #[trigger] before[n],
                    forall|n: int|
                        0 <= n < j ==> out@[before.len() + n] == (k, #[trigger] self.group(k)[n]),
                decreases cs.len() - j,
            {
                let ghost had = out@;
                out.push((k, cs[j].copy()));
                proof {
                    assert forall|a: int, b: int|
                        0 <= a < b < out@.len() && (#[trigger] out@[a]).0 == (#[trigger] out@[b]).0
                            implies out@[a].1.addr != out@[b].1.addr by {
                        if b < had.len() {
                            assert(had[a].0 == had[b].0);
                        } else if a < before.len() {
                            assert(out@[a] == before[a]);
                        } else {
                            let n = a - before.len();
                            assert(out@[before.len() + n] == (k, self.group(k)[n]));
                            assert(self.group(k)[n].addr != self.group(k)[j as int].addr);
                        }
                    }
                    let e = out@[out@.len() - 1];
                    assert(self.group(e.0)[j as int] == e.1);
                    assert(is_entry(*self, e));
                }
                j += 1;
            }
            proof {
                assert forall|n: int| 0 <= n < out@.len() implies kinds@.take(i + 1).contains(
                    (#[trigger] out@[n]).0,
                ) by {
                    assert(kinds@.take(i + 1)[i as int] == k);
                    if n < before.len() {
                        assert(out@[n] == before[n]);
                        let x = choose|x: int|
                            0 <= x < i && kinds@.take(i as int)[x] == before[n].0;
                        assert(kinds@.take(i + 1)[x] == before[n].0);
                    } else {
                        let y = n - before.len();
                        assert(out@[before.len() + y] == (k, self.group(k)[y]));
                    }
                }
                assert forall|n: int, j: int|
                    0 <= n < i + 1 && 0 <= j < self.group(kinds@[n]).len() implies out@.contains(
                    (kinds@[n], #[trigger] self.group(kinds@[n])[j]),
                ) by {
                    let e = (kinds@[n], self.group(kinds@[n])[j]);
                    if n < i {
                        assert(before.contains(e));
                        let x = choose|x: int| 0 <= x < before.len() && before[x] == e;
                        assert(out@[x] == e);
                    } else {
                        assert(out@[before.len() + j] == e);
                    }
                }
            }
            i += 1;
        }
        proof {
            assert forall|k: usize, j: int| 0 <= j < self.group(k).len() implies out@.contains(
                (k, #[trigger] self.group(k)[j]),
            ) by {
                assert(kinds@.contains(k));
                let n = choose|n: int| 0 <= n < kinds@.len() && kinds@[n] == k;
                assert(self.group(kinds@[n])[j] == self.group(k)[j]);
            }
        }
        out
    }
}

/// Every kind of the chunks of a heap has a number.
pub open spec fn numbered(kinds: Kinds, h: Heap) -> bool {
    forall|k: usize| (#[trigger] h.group(k)).len() > 0 ==> k < kinds.list@.len()
}

/// Where bounds apply, the chunks of a heap keep to them, and chunks of one kind that
/// hold more than their bound together are at different addresses.
pub open spec fn keeps_bounds(
    g: Graph,
    block: Seq<(Id, Polarity)>,
    kinds: Kinds,
    h: Heap,
) -> bool {
    forall|k: usize|
        #![trigger h.group(k)]
        h.group(k).len() > 0 && kinds.list@[k as int].bound@ is Some ==> {
            let b = kinds.list@[k as int].bound@.unwrap();
            let cs = h.group(k);
            &&& forall|i: int| 0 <= i < cs.len() ==> bounded_chunk(g, block, b, #[trigger] cs[i])
            &&& forall|i: int, j: int|
                0 <= i < cs.len() && 0 <= j < cs.len() && i != j ==> apart_chunks(
                    g,
                    block,
                    b,
                    #[trigger] cs[i],
                    #[trigger] cs[j],
                )
        }
}

spec fn entry_bounded(
    g: Graph,
    block: Seq<(Id, Polarity)>,
    kinds: Kinds,
    e: (usize, Chunk),
) -> bool {
    kinds.list@[e.0 as int].bound@ matches Some(b) ==> bounded_chunk(g, block, b, e.1)
}

spec fn entries_apart(
    g: Graph,
    block: Seq<(Id, Polarity)>,
    kinds: Kinds,
    e: (usize, Chunk),
    f: (usize, Chunk),
) -> bool {
    e.0 == f.0 ==> (kinds.list@[e.0 as int].bound@ matches Some(b) ==> apart_chunks(
        g,
        block,
        b,
        e.1,
        f.1,
    ) && apart_chunks(g, block, b, f.1, e.1))
}

/// Assumes the bounds of all chunks.
fn assume_bounds(
    ctx: &mut Context,
    block: &Vec<(Id, Polarity)>,
    kinds: &Kinds,
    es: &Vec<(usize, Chunk)>,
)
    requires
        old(ctx).wf(),
        cube_in(old(ctx).graph, block@),
        forall|j: int|
            0 <= j < es@.len() ==> chunk_in(old(ctx).graph, (#[trigger] es@[j]).1) && es@[j].0
                < kinds.list@.len(),
    ensures
        reaches(*old(ctx), *final(ctx), entry_facts(block@, *kinds, es@)),
        forall|j: int|
            0 <= j < es@.len() ==> entry_bounded(
                final(ctx).graph,
                block@,
                *kinds,
                #[trigger] es@[j],
            ),
{
    let ghost c0 = *ctx;
    let ghost fs = entry_facts(block@, *kinds, es@);
    let mut i: usize = 0;
    proof {
        lemma_reaches_refl(c0);
    }
    while i < es.len()
        invariant
            i <= es@.len(),
            c0.wf(),
            ctx.wf(),
            reaches(c0, *ctx, fs),
            fs == entry_facts(block@, *kinds, es@),
            cube_in(c0.graph, block@),
            forall|j: int|
                0 <= j < es@.len() ==> chunk_in(c0.graph, (#[trigger] es@[j]).1) && es@[j].0
                    < kinds.list@.len(),
            forall|j: int|
                0 <= j < i ==> entry_bounded(ctx.graph, block@, *kinds, #[trigger] es@[j]),
        decreases es.len() - i,
    {
        let ghost c1 = *ctx;
        proof {
            assert(chunk_in(c0.graph, es@[i as int].1));
            lemma_chunk_grows(c0.graph, c1.graph, es@[i as int].1);
            lemma_cube_grows(c0.graph, c1.graph, block@);
        }
        match &kinds.list[es[i].0].bound {
            Bound::Bounded(b) => {
                assume_bound(ctx, block, b, &es[i].1);
                proof {
                    lemma_bound_entry(block@, *kinds, es@, i as int);
                    lemma_reaches_more(c1, *ctx, bound_facts(block@, b@, es@[i as int].1), fs);
                }
            },
            Bound::Unbounded => {
                proof {
                    lemma_reaches_refl(c1);
                }
            },
        }
        proof {
            lemma_reaches_trans(c0, c1, *ctx);
            assert forall|j: int| 0 <= j < i + 1 implies entry_bounded(
                ctx.graph,
                block@,
                *kinds,
                #[trigger] es@[j],
            ) by {
                if j < i {
                    if let Some(b) = kinds.list@[es@[j].0 as int].bound@ {
                        lemma_bounded_grows(c1.graph, ctx.graph, block@, b, es@[j].1);
                    }
                }
            }
        }
        i += 1;
    }
}

/// Assumes that one chunk is apart from those after it.
fn assume_apart_from(
    ctx: &mut Context,
    block: &Vec<(Id, Polarity)>,
    kinds: &Kinds,
    es: &Vec<(usize, Chunk)>,
    i: usize,
)
    requires
        old(ctx).wf(),
        i < es@.len(),
        once_each(es@),
        cube_in(old(ctx).graph, block@),
        forall|j: int|
            0 <= j < es@.len() ==> chunk_in(old(ctx).graph, (#[trigger] es@[j]).1) && es@[j].0
                < kinds.list@.len(),
    ensures
        reaches(*old(ctx), *final(ctx), entry_facts(block@, *kinds, es@)),
        forall|j: int|
            i < j < es@.len() ==> entries_apart(
                final(ctx).graph,
                block@,
                *kinds,
                es@[i as int],
                #[trigger] es@[j],
            ),
{
    let ghost c0 = *ctx;
    let ghost fs = entry_facts(block@, *kinds, es@);
    let n = es.len();
    let mut j: usize = i + 1;
    proof {
        lemma_reaches_refl(c0);
    }
    while j < n
        invariant
            n == es@.len(),
            i < j <= es@.len(),
            c0.wf(),
            ctx.wf(),
            reaches(c0, *ctx, fs),
            fs == entry_facts(block@, *kinds, es@),
            once_each(es@),
            cube_in(c0.graph, block@),
            forall|k: int|
                0 <= k < es@.len() ==> chunk_in(c0.graph, (#[trigger] es@[k]).1) && es@[k].0
                    < kinds.list@.len(),
            forall|k: int|
                i < k < j ==> entries_apart(
                    ctx.graph,
                    block@,
                    *kinds,
                    es@[i as int],
                    #[trigger] es@[k],
                ),
        decreases n - j,
    {
        let ghost c1 = *ctx;
        proof {
            assert(chunk_in(c0.graph, es@[i as int].1) && chunk_in(c0.graph, es@[j as int].1));
            lemma_chunk_grows(c0.graph, c1.graph, es@[i as int].1);
            lemma_chunk_grows(c0.graph, c1.graph, es@[j as int].1);
            lemma_cube_grows(c0.graph, c1.graph, block@);
            lemma_reaches_refl(c1);
        }
        if kinds.group(es[i].0) == kinds.group(es[j].0) {
            if let Bound::Bounded(b) = &kinds.list[es[i].0].bound {
                assume_apart(ctx, block, b, &es[i].1, &es[j].1);
                proof {
                    assert(es@[i as int] != es@[j as int]);
                    lemma_apart_entry(block@, *kinds, es@, i as int, j as int);
                    lemma_reaches_more(
                        c1,
                        *ctx,
                        apart_facts(block@, b@, es@[i as int].1, es@[j as int].1),
                        fs,
                    );
                }
            }
        }
        proof {
            lemma_reaches_trans(c0, c1, *ctx);
            assert forall|k: int| i < k < j + 1 implies entries_apart(
                ctx.graph,
                block@,
                *kinds,
                es@[i as int],
                #[trigger] es@[k],
            ) by {
                if k < j && es@[i as int].0 == es@[k].0 {
                    if let Some(b) = kinds.list@[es@[i as int].0 as int].bound@ {
                        lemma_apart_grows(
                            c1.graph,
                            ctx.graph,
                            block@,
                            b,
                            es@[i as int].1,
                            es@[k].1,
                        );
                        lemma_apart_grows(
                            c1.graph,
                            ctx.graph,
                            block@,
                            b,
                            es@[k].1,
                            es@[i as int].1,
                        );
                    }
                }
            }
        }
        j += 1;
    }
}

/// Assumes that all chunks are apart.
fn assume_all_apart(
    ctx: &mut Context,
    block: &Vec<(Id, Polarity)>,
    kinds: &Kinds,
    es: &Vec<(usize, Chunk)>,
)
    requires
        old(ctx).wf(),
        once_each(es@),
        cube_in(old(ctx).graph, block@),
        forall|j: int|
            0 <= j < es@.len() ==> chunk_in(old(ctx).graph, (#[trigger] es@[j]).1) && es@[j].0
                < kinds.list@.len(),
    ensures
        reaches(*old(ctx), *final(ctx), entry_facts(block@, *kinds, es@)),
        forall|i: int, j: int|
            0 <= i < j < es@.len() ==> entries_apart(
                final(ctx).graph,
                block@,
                *kinds,
                #[trigger] es@[i],
                #[trigger] es@[j],
            ),
{
    let ghost c0 = *ctx;
    let ghost fs = entry_facts(block@, *kinds, es@);
    let mut i: usize = 0;
    proof {
        lemma_reaches_refl(c0);
    }
    while i < es.len()
        invariant
            i <= es@.len(),
            c0.wf(),
            ctx.wf(),
            reaches(c0, *ctx, fs),
            fs == entry_facts(block@, *kinds, es@),
            once_each(es@),
            cube_in(c0.graph, block@),
            forall|j: int|
                0 <= j < es@.len() ==> chunk_in(c0.graph, (#[trigger] es@[j]).1) && es@[j].0
                    < kinds.list@.len(),
            forall|n: int, j: int|
                0 <= n < i && n < j < es@.len() ==> entries_apart(
                    ctx.graph,
                    block@,
                    *kinds,
                    #[trigger] es@[n],
                    #[trigger] es@[j],
                ),
        decreases es.len() - i,
    {
        let ghost c1 = *ctx;
        proof {
            lemma_cube_grows(c0.graph, c1.graph, block@);
            assert forall|j: int| 0 <= j < es@.len() implies chunk_in(
                c1.graph,
                (#[trigger] es@[j]).1,
            ) && es@[j].0 < kinds.list@.len() by {
                assert(chunk_in(c0.graph, es@[j].1));
                lemma_chunk_grows(c0.graph, c1.graph, es@[j].1);
            }
        }
        assume_apart_from(ctx, block, kinds, es, i);
        proof {
            lemma_reaches_trans(c0, c1, *ctx);
            assert forall|n: int, j: int|
                0 <= n < i + 1 && n < j < es@.len() implies entries_apart(
                ctx.graph,
                block@,
                *kinds,
                #[trigger] es@[n],
                #[trigger] es@[j],
            ) by {
                if n < i && es@[n].0 == es@[j].0 {
                    assert(entries_apart(c1.graph, block@, *kinds, es@[n], es@[j]));
                    if let Some(b) = kinds.list@[es@[n].0 as int].bound@ {
                        lemma_apart_grows(c1.graph, ctx.graph, block@, b, es@[n].1, es@[j].1);
                        lemma_apart_grows(c1.graph, ctx.graph, block@, b, es@[j].1, es@[n].1);
                    }
                }
            }
        }
        i += 1;
    }
}

/// Assumes what the bounds of the locations of a heap say: no location holds more than
/// its bound. Predicates have none.
pub fn assume_location_axioms(ctx: &mut Context, kinds: &Kinds, h: &Heap)
    requires
        old(ctx).wf(),
        heap_in(old(ctx).graph, *h),
        numbered(*kinds, *h),
    ensures
        reaches(*old(ctx), *final(ctx), location_facts(old(ctx).cube@, *kinds, *h)),
        keeps_bounds(final(ctx).graph, old(ctx).cube@, *kinds, *h),
{
    let ghost c0 = *ctx;
    let es = h.entries();
    let block = copy_cube(ctx.current_cube());
    proof {
        assert forall|j: int| 0 <= j < es@.len() implies chunk_in(c0.graph, (#[trigger] es@[j]).1)
            && es@[j].0 < kinds.list@.len() by {
            let i = choose|i: int|
                0 <= i < h.group(es@[j].0).len() && #[trigger] h.group(es@[j].0)[i] == es@[j].1;
            assert(chunks_in(c0.graph, h.group(es@[j].0)));
        }
    }
    assume_bounds(ctx, &block, kinds, &es);
    let ghost c1 = *ctx;
    proof {
        lemma_cube_grows(c0.graph, c1.graph, block@);
        assert forall|j: int| 0 <= j < es@.len() implies chunk_in(c1.graph, (#[trigger] es@[j]).1)
            && es@[j].0 < kinds.list@.len() by {
            assert(chunk_in(c0.graph, es@[j].1));
            lemma_chunk_grows(c0.graph, c1.graph, es@[j].1);
        }
    }
    assume_all_apart(ctx, &block, kinds, &es);
    let ghost c2 = *ctx;
    ctx.rebuild();
    proof {
        lemma_reaches_follows(c2, *ctx);
        lemma_reaches_trans(c0, c1, c2);
        assert forall|j: int| 0 <= j < es@.len() implies in_heap(*h, #[trigger] es@[j]) by {
            assert(is_entry(*h, es@[j]));
        }
        lemma_entry_location(block@, *kinds, *h, es@);
        lemma_reaches_more(
            c0,
            c2,
            entry_facts(block@, *kinds, es@),
            location_facts(block@, *kinds, *h),
        );
        lemma_reaches_trans(c0, c2, *ctx);
        lemma_leads_trans(c1, c2, *ctx);
        lemma_keeps_bounds(c1.graph, c2.graph, ctx.graph, block@, *kinds, *h, es@);
    }
}

proof fn lemma_keeps_bounds(
    g: Graph,
    k: Graph,
    r: Graph,
    block: Seq<(Id, Polarity)>,
    kinds: Kinds,
    h: Heap,
    es: Seq<(usize, Chunk)>,
)
    requires
        g.grows_to(r),
        k.grows_to(r),
        lists_chunks(h, es),
        forall|j: int| 0 <= j < es.len() ==> entry_bounded(g, block, kinds, #[trigger] es[j]),
        forall|i: int, j: int|
            0 <= i < j < es.len() ==> entries_apart(
                k,
                block,
                kinds,
                #[trigger] es[i],
                #[trigger] es[j],
            ),
        forall|n: usize| apart(#[trigger] h.group(n)),
    ensures
        keeps_bounds(r, block, kinds, h),
{
    assert forall|n: usize|
        #![trigger h.group(n)]
        h.group(n).len() > 0 && kinds.list@[n as int].bound@ is Some implies {
        let b = kinds.list@[n as int].bound@.unwrap();
        let cs = h.group(n);
        &&& forall|i: int| 0 <= i < cs.len() ==> bounded_chunk(r, block, b, #[trigger] cs[i])
        &&& forall|i: int, j: int|
            0 <= i < cs.len() && 0 <= j < cs.len() && i != j ==> apart_chunks(
                r,
                block,
                b,
                #[trigger] cs[i],
                #[trigger] cs[j],
            )
    } by {
        let b = kinds.list@[n as int].bound@.unwrap();
        let cs = h.group(n);
        assert forall|i: int| 0 <= i < cs.len() implies bounded_chunk(
            r,
            block,
            b,
            #[trigger] cs[i],
        ) by {
            assert(es.contains((n, h.group(n)[i])));
            let x = choose|x: int| 0 <= x < es.len() && es[x] == (n, cs[i]);
            assert(entry_bounded(g, block, kinds, es[x]));
            lemma_bounded_grows(g, r, block, b, cs[i]);
        }
        assert forall|i: int, j: int|
            0 <= i < cs.len() && 0 <= j < cs.len() && i != j implies apart_chunks(
            r,
            block,
            b,
            #[trigger] cs[i],
            #[trigger] cs[j],
        ) by {
            assert(es.contains((n, h.group(n)[i])));
            assert(es.contains((n, h.group(n)[j])));
            let x = choose|x: int| 0 <= x < es.len() && es[x] == (n, cs[i]);
            let y = choose|y: int| 0 <= y < es.len() && es[y] == (n, cs[j]);
            assert(cs[i].addr != cs[j].addr) by {
                assert(apart(cs));
                if i < j {
                    assert(cs[i].addr != cs[j].addr);
                } else {
                    assert(cs[j].addr != cs[i].addr);
                }
            }
            if x < y {
                assert(entries_apart(k, block, kinds, es[x], es[y]));
            } else {
                assert(entries_apart(k, block, kinds, es[y], es[x]));
            }
            lemma_apart_grows(k, r, block, b, cs[i], cs[j]);
        }
    }
}

} // verus!
