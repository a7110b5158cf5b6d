//! Two heaps held at once.

use crate::context::{
    cube_holds, cube_in, lemma_cube_grows, lemma_leads_refl, lemma_leads_trans,
    lemma_learns_holds, Context,
};
use crate::graph::{lemma_same_class, Graph};
use crate::heap::alias::no_canon;
use crate::heap::chunk::{chunk_amt, chunk_in, lemma_chunk_grows, Chunk};
use crate::heap::enough::prove_perm_positive;
use crate::heap::facts::{
    agree_fact, fresh_facts, group_fact, group_facts, held_as, joins, lemma_fresh_more,
    lemma_made_grows, lemma_reaches_asserted, lemma_reaches_extended, lemma_reaches_follows,
    lemma_reaches_more, lemma_reaches_refl, lemma_reaches_trans, made_of, pair_facts, reaches,
    value_fact, weighs,
};
use crate::heap::gate::cube_on;
use crate::heap::groups::{
    apart, chunks_in, find_canon, first_canon, heap_in, law_with, lemma_heap_grows, lemma_place,
    lemma_with_apart, place, total, with, Heap,
};
use crate::heap::join::{
    guards_match, law_guards_match, lemma_picks, lemma_to_id, lemma_weighs, part, part_total,
    perm_total, read_parts,
};
use crate::heap::perm::{lemma_perm_grows, perm_amt, perm_in, perm_tm, wild_in, ChunkPerm};
use crate::heap::union::{lemma_heap_with, lemma_member_holds, lemma_with_in, plain};
use crate::heap::values::{assume_values_agree, merge_values};
use crate::lang::Id;
use crate::method::merge::{agreement, amount, law_agreement};
use crate::method::subtract::same_fact;
use crate::model::{
    equation_holds, lemma_tm_bin, lemma_tm_ite, lemma_tm_lit, t_bool, t_eq, t_ite, t_ltr, t_real,
    Model, Tm,
};
use crate::prove::law_guard_value;
use crate::rewrite::rules::stepped;
use crate::terms::{lemma_grows_denotes, lemma_grows_models};
use crate::vmir::{BinOp, Polarity, Val, Value};
use std::rc::Rc;
use vstd::prelude::*;

verus! {

/// What two chunks at one address are together in a model: their amounts add up, and
/// on the path the value is that of each chunk that is held.
pub open spec fn united_in(
    m: Model,
    one_guard: bool,
    pc: Seq<(Id, Polarity)>,
    a: Chunk,
    b: Chunk,
    r: Chunk,
) -> bool {
    let x = part(m, one_guard, a);
    let y = part(m, one_guard, b);
    &&& part_total(perm_amt(m, r.perm), x, y, wild_in(a.perm) || wild_in(b.perm))
    &&& cube_holds(m, pc) && x > 0 as real ==> m.at(r.value) == m.at(a.value)
    &&& cube_holds(m, pc) && y > 0 as real ==> m.at(r.value) == m.at(b.value)
}

/// What two chunks at one address are together.
pub open spec fn united_with(
    g: Graph,
    one_guard: bool,
    pc: Seq<(Id, Polarity)>,
    a: Chunk,
    b: Chunk,
    r: Chunk,
) -> bool {
    &&& r.addr == a.addr
    &&& one_guard ==> r.guard == a.guard
    &&& !one_guard ==> r.guard@.len() == 0
    &&& !wild_in(a.perm) && !wild_in(b.perm) ==> !wild_in(r.perm)
    &&& g.full() || forall|m: Model| #[trigger]
        g.models(m) ==> united_in(m, one_guard, pc, a, b, r)
}

/// The recipe of a value of two chunks: that of the first chunk that has one. A value
/// that was merged from two has none.
pub open spec fn united_recipe(g: Graph, a: Chunk, b: Chunk) -> Option<Rc<Val>> {
    if g.canon(a.value) != g.canon(b.value) {
        None
    } else if a.recipe is Some {
        a.recipe
    } else {
        b.recipe
    }
}

/// Where an amount is positive on the path, two values agree.
proof fn lemma_agree(m: Model, pc: Seq<(Id, Polarity)>, p: Id, v: Id, w: Id)
    requires
        equation_holds(m, agree_fact(pc, p, v, w)),
        cube_holds(m, pc),
        amount(m.at(p)) > 0 as real,
    ensures
        m.at(v) == m.at(w),
{
    let cond = t_ltr(t_real(0 as real), Tm::Class(p));
    let eq = t_eq(Tm::Class(v), Tm::Class(w));
    law_guard_value(m, pc, t_ite(cond, eq, t_bool(true)));
    lemma_tm_lit(m, Value::Bool(true));
    lemma_tm_lit(m, Value::Real(0 as real));
    lemma_tm_ite(m, cond, eq, t_bool(true));
    lemma_tm_bin(m, BinOp::LtR, t_real(0 as real), Tm::Class(p));
    lemma_tm_bin(m, BinOp::Eq, Tm::Class(v), Tm::Class(w));
}

/// The value of two chunks at one address: one value where both are proven to be held,
/// that of the one that is, or a choice.
fn unite_values(
    ctx: &mut Context,
    pa: &ChunkPerm,
    pb: &ChunkPerm,
    v: Id,
    w: Id,
    pc: &Vec<(Id, Polarity)>,
    Ghost(a): Ghost<Chunk>,
    Ghost(b): Ghost<Chunk>,
    Ghost(one): Ghost<bool>,
) -> (r: Id)
    requires
        v == a.value,
        w == b.value,
        old(ctx).graph.full() || forall|m: Model| #[trigger]
            old(ctx).graph.models(m) ==> perm_amt(m, *pa) == part(m, one, a) && perm_amt(m, *pb)
                == part(m, one, b),
        old(ctx).wf(),
        perm_in(old(ctx).graph, *pa),
        perm_in(old(ctx).graph, *pb),
        old(ctx).graph.has(v),
        old(ctx).graph.has(w),
        cube_in(old(ctx).graph, pc@),
    ensures
        reaches(*old(ctx), *final(ctx), pair_facts(pc@, a, b)),
        final(ctx).graph.has(r),
        final(ctx).graph.full() || forall|m: Model| #[trigger]
            final(ctx).graph.models(m) && cube_holds(m, pc@) ==> {
                &&& perm_amt(m, *pa) > 0 as real ==> m.at(r) == m.at(v)
                &&& perm_amt(m, *pb) > 0 as real ==> m.at(r) == m.at(w)
            },
{
    let ghost c0 = *ctx;
    let a_held = prove_perm_positive(ctx, pa, pc);
    let ghost c1 = *ctx;
    proof {
        lemma_perm_grows(c0.graph, c1.graph, *pb);
        lemma_cube_grows(c0.graph, c1.graph, pc@);
    }
    let b_held = prove_perm_positive(ctx, pb, pc);
    let ghost c2 = *ctx;
    proof {
        lemma_reaches_trans(c0, c1, c2);
        lemma_perm_grows(c0.graph, c2.graph, *pa);
    }
    let ia = pa.to_id(ctx);
    let ghost c3 = *ctx;
    proof {
        lemma_leads_trans(c0, c2, c3);
        lemma_perm_grows(c0.graph, c3.graph, *pb);
    }
    let ib = pb.to_id(ctx);
    let ghost c4 = *ctx;
    proof {
        lemma_leads_trans(c2, c3, c4);
        lemma_reaches_extended(c2, c4);
        lemma_reaches_trans(c0, c2, c4);
        lemma_cube_grows(c0.graph, c4.graph, pc@);
        lemma_leads_trans(c0, c2, c4);
        lemma_leads_trans(c0, c3, c4);
        lemma_leads_trans(c1, c2, c4);
        lemma_leads_refl(c4);
        lemma_weighs(c0.graph, c3.graph, c4.graph, one, a, *pa, ia);
        lemma_weighs(c0.graph, c4.graph, c4.graph, one, b, *pb, ib);
        if !c4.graph.full() {
            assert forall|m: Model| #[trigger] c4.graph.models(m) implies c0.graph.models(m)
                && c1.graph.models(m) && c2.graph.models(m) by {
                lemma_grows_models(c0.graph, c4.graph, m);
                lemma_grows_models(c1.graph, c4.graph, m);
                lemma_grows_models(c2.graph, c4.graph, m);
            }
        }
        if a_held {
            assert(held_as(c4.graph, pc@, one, a, *pa));
        }
        if b_held {
            assert(held_as(c4.graph, pc@, one, b, *pb));
        }
    }
    let ghost fs = pair_facts(pc@, a, b);
    let r = if a_held && b_held {
        ctx.union(v, w);
        proof {
            let f = same_fact(v, w);
            assert(value_fact(c4.graph, pc@, a, b, f));
            assert(fs.contains((c4.graph, f)));
            lemma_reaches_asserted(c4, *ctx, f, fs);
        }
        v
    } else if a_held {
        assume_values_agree(ctx, ib, v, w, pc);
        proof {
            let f = agree_fact(pc@, ib, v, w);
            assert(weighs(c4.graph, ib, b));
            assert(value_fact(c4.graph, pc@, a, b, f));
            assert(fs.contains((c4.graph, f)));
            lemma_reaches_asserted(c4, *ctx, f, fs);
        }
        v
    } else if b_held {
        assume_values_agree(ctx, ia, w, v, pc);
        proof {
            let f = agree_fact(pc@, ia, w, v);
            assert(weighs(c4.graph, ia, a));
            assert(value_fact(c4.graph, pc@, a, b, f));
            assert(fs.contains((c4.graph, f)));
            lemma_reaches_asserted(c4, *ctx, f, fs);
        }
        w
    } else {
        let u = merge_values(ctx, ia, v, ib, w, pc);
        proof {
            let x = crate::method::plain::Chunk { perm: ia, value: v };
            let y = crate::method::plain::Chunk { perm: ib, value: w };
            let f = (agreement(pc@, x, y), t_bool(true));
            let mid = choose|mid: Context|
                {
                    &&& #[trigger] crate::context::builds(c4, mid)
                    &&& mid.leads_to(*ctx)
                    &&& crate::rewrite::pins::asserted(mid.graph, ctx.graph, seq![f])
                };
            lemma_leads_trans(c3, c4, mid);
            lemma_leads_trans(c0, c4, mid);
            lemma_weighs(c0.graph, c3.graph, mid.graph, one, a, *pa, ia);
            lemma_weighs(c0.graph, c4.graph, mid.graph, one, b, *pb, ib);
            assert(value_fact(mid.graph, pc@, a, b, f));
            assert(fs.contains((mid.graph, f)));
            lemma_reaches_asserted(mid, *ctx, f, fs);
            lemma_reaches_extended(c4, mid);
            lemma_reaches_trans(c4, mid, *ctx);
        }
        u
    };
    proof {
        let c5 = *ctx;
        let g = c5.graph;
        lemma_reaches_trans(c0, c4, c5);
        lemma_leads_trans(c3, c4, c5);
        lemma_grows_denotes(c3.graph, g, ia, perm_tm(*pa));
        lemma_grows_denotes(c4.graph, g, ib, perm_tm(*pb));
        if !g.full() {
            assert forall|m: Model| #[trigger] g.models(m) && cube_holds(m, pc@) implies {
                &&& perm_amt(m, *pa) > 0 as real ==> m.at(r) == m.at(v)
                &&& perm_amt(m, *pb) > 0 as real ==> m.at(r) == m.at(w)
            } by {
                lemma_to_id(g, m, ia, *pa);
                lemma_to_id(g, m, ib, *pb);
                if a_held && b_held {
                    lemma_same_class(g, m, v, w);
                } else if a_held {
                    let f = seq![agree_fact(pc@, ib, v, w)];
                    lemma_learns_holds(c4, c5, f, m);
                    assert(equation_holds(m, f[0]));
                    if perm_amt(m, *pb) > 0 as real {
                        lemma_agree(m, pc@, ib, v, w);
                    }
                } else if b_held {
                    let f = seq![agree_fact(pc@, ia, w, v)];
                    lemma_learns_holds(c4, c5, f, m);
                    assert(equation_holds(m, f[0]));
                    if perm_amt(m, *pa) > 0 as real {
                        lemma_agree(m, pc@, ia, w, v);
                    }
                } else {
                    lemma_picks(g, m, r, ia, v, w);
                    let x = crate::method::plain::Chunk { perm: ia, value: v };
                    let y = crate::method::plain::Chunk { perm: ib, value: w };
                    let f = seq![(agreement(pc@, x, y), t_bool(true))];
                    lemma_learns_holds(c4, c5, f, m);
                    assert(equation_holds(m, f[0]));
                    if perm_amt(m, *pa) > 0 as real && perm_amt(m, *pb) > 0 as real {
                        law_agreement(m, pc@, x, y);
                    }
                }
            }
        }
    }
    r
}

/// Two chunks at one address as one.
pub fn unite_chunks(ctx: &mut Context, a: &Chunk, b: &Chunk, pc: &Vec<(Id, Polarity)>) -> (r: Chunk)
    requires
        old(ctx).wf(),
        chunk_in(old(ctx).graph, *a),
        chunk_in(old(ctx).graph, *b),
        cube_in(old(ctx).graph, pc@),
    ensures
        reaches(
            *old(ctx),
            *final(ctx),
            pair_facts(pc@, *a, *b) + fresh_facts(old(ctx).next_fresh),
        ),
        chunk_in(final(ctx).graph, r),
        united_with(
            final(ctx).graph,
            guards_match(old(ctx).graph, *a, *b),
            pc@,
            *a,
            *b,
            r,
        ),
        r.recipe == united_recipe(old(ctx).graph, *a, *b),
{
    let ghost c0 = *ctx;
    let ghost one = guards_match(c0.graph, *a, *b);
    let ghost fs = pair_facts(pc@, *a, *b) + fresh_facts(c0.next_fresh);
    let one_value = ctx.graph.find(a.value) == ctx.graph.find(b.value);
    let (pa, pb, guard) = read_parts(ctx, a, b);
    let ghost c1 = *ctx;
    proof {
        lemma_reaches_extended(c0, c1);
        lemma_cube_grows(c0.graph, c1.graph, pc@);
        lemma_chunk_grows(c0.graph, c1.graph, *a);
        lemma_chunk_grows(c0.graph, c1.graph, *b);
    }
    let value = unite_values(
        ctx,
        &pa,
        &pb,
        a.value,
        b.value,
        pc,
        Ghost(*a),
        Ghost(*b),
        Ghost(one),
    );
    let ghost c2 = *ctx;
    proof {
        lemma_reaches_more(c1, c2, pair_facts(pc@, *a, *b), fs);
        lemma_reaches_trans(c0, c1, c2);
        lemma_perm_grows(c1.graph, c2.graph, pa);
        lemma_perm_grows(c1.graph, c2.graph, pb);
    }
    let perm = perm_total(ctx, &pa, &pb);
    let recipe = if !one_value {
        None
    } else {
        match &a.recipe {
            Some(v) => Some(v.clone()),
            None => b.shared_recipe(),
        }
    };
    let r = Chunk::new_perm(a.addr, perm, value).with_guard(guard).with_recipe(recipe);
    proof {
        let c3 = *ctx;
        let g = c3.graph;
        lemma_fresh_more(c0.next_fresh, c2.next_fresh);
        lemma_reaches_more(c2, c3, fresh_facts(c2.next_fresh), fs);
        lemma_reaches_trans(c0, c2, c3);
        lemma_leads_trans(c1, c2, c3);
        lemma_chunk_grows(c1.graph, g, *a);
        lemma_cube_grows(c1.graph, g, guard@);
        if !g.full() {
            assert forall|m: Model| #[trigger] g.models(m) implies united_in(
                m,
                one,
                pc@,
                *a,
                *b,
                r,
            ) by {
                lemma_grows_models(c1.graph, g, m);
                lemma_grows_models(c2.graph, g, m);
            }
        }
    }
    r
}


/// What is put in for a chunk: itself, or the chunk in its class together with it.
pub open spec fn united_chunk(
    g: Graph,
    h: Graph,
    pc: Seq<(Id, Polarity)>,
    cs: Seq<Chunk>,
    cb: Chunk,
    r: Chunk,
) -> bool {
    ||| no_canon(g, cs, cb.addr) && r == cb
    ||| exists|j: int| #[trigger]
        first_canon(g, cs, cb.addr, j) && united_with(
            h,
            guards_match(g, cs[j], cb),
            pc,
            cs[j],
            cb,
            r,
        ) && r.recipe == united_recipe(g, cs[j], cb)
}

/// What was put in for a chunk at some point between two graphs.
pub open spec fn united_at(
    a: Graph,
    b: Graph,
    pc: Seq<(Id, Polarity)>,
    cs: Seq<Chunk>,
    cb: Chunk,
    r: Chunk,
) -> bool {
    exists|g: Graph|
        {
            &&& stepped(a, g)
            &&& g.wf()
            &&& stepped(g, b)
            &&& chunks_in(g, cs)
            &&& chunk_in(g, cb)
            &&& #[trigger] united_chunk(g, b, pc, cs, cb, r)
        }
}

/// A chunk was put into a list.
pub open spec fn put_in(
    a: Graph,
    b: Graph,
    pc: Seq<(Id, Polarity)>,
    cs: Seq<Chunk>,
    cb: Chunk,
    now: Seq<Chunk>,
) -> bool {
    exists|r: Chunk| #[trigger] united_at(a, b, pc, cs, cb, r) && now == with(cs, r)
}

/// The lists that a group goes through while the chunks of another are put in, each
/// together with what the list holds by then.
pub open spec fn all_united(
    a: Graph,
    b: Graph,
    pc: Seq<(Id, Polarity)>,
    css: Seq<Seq<Chunk>>,
    bcs: Seq<Chunk>,
    n: int,
) -> bool {
    &&& css.len() == n + 1
    &&& forall|i: int| 0 <= i < n ==> put_in(a, b, pc, #[trigger] css[i], bcs[i], css[i + 1])
}

/// Two groups held at once.
pub open spec fn united_groups(
    a: Graph,
    b: Graph,
    pc: Seq<(Id, Polarity)>,
    acs: Seq<Chunk>,
    bcs: Seq<Chunk>,
    r: Seq<Chunk>,
) -> bool {
    exists|css: Seq<Seq<Chunk>>| #[trigger]
        all_united(a, b, pc, css, bcs, bcs.len() as int) && css[0] == acs && css.last() == r
}

proof fn lemma_united_grows(
    a0: Graph,
    a: Graph,
    b: Graph,
    c: Graph,
    pc: Seq<(Id, Polarity)>,
    cs: Seq<Chunk>,
    cb: Chunk,
    now: Seq<Chunk>,
)
    requires
        b.wf(),
        stepped(a0, a),
        stepped(b, c),
        put_in(a, b, pc, cs, cb, now),
    ensures
        put_in(a0, c, pc, cs, cb, now),
{
    let r = choose|r: Chunk| #[trigger] united_at(a, b, pc, cs, cb, r) && now == with(cs, r);
    let g = choose|g: Graph|
        {
            &&& stepped(a, g)
            &&& g.wf()
            &&& stepped(g, b)
            &&& chunks_in(g, cs)
            &&& chunk_in(g, cb)
            &&& #[trigger] united_chunk(g, b, pc, cs, cb, r)
        };
    crate::rewrite::rules::lemma_stepped_trans(g, b, c);
    crate::rewrite::rules::lemma_stepped_trans(a0, a, g);
    if !(no_canon(g, cs, cb.addr) && r == cb) {
        let j = choose|j: int| #[trigger]
            first_canon(g, cs, cb.addr, j) && united_with(
                b,
                guards_match(g, cs[j], cb),
                pc,
                cs[j],
                cb,
                r,
            ) && r.recipe == united_recipe(g, cs[j], cb);
        let one = guards_match(g, cs[j], cb);
        if !c.full() {
            assert forall|m: Model| #[trigger] c.models(m) implies united_in(
                m,
                one,
                pc,
                cs[j],
                cb,
                r,
            ) by {
                lemma_grows_models(b, c, m);
            }
        }
        assert(united_with(c, one, pc, cs[j], cb, r));
    }
    assert(united_chunk(g, c, pc, cs, cb, r));
    assert(united_at(a0, c, pc, cs, cb, r));
}

/// What two chunks of which the first was made of others may assume, a list of those
/// others may.
pub proof fn lemma_pair_group(
    g: Graph,
    pc: Seq<(Id, Polarity)>,
    all: Seq<Chunk>,
    a: Chunk,
    b: Chunk,
    n: nat,
)
    requires
        chunks_in(g, all),
        g.wf(),
        made_of(g, pc, all, a, n),
        all.contains(b),
        g.canon(a.addr) == g.canon(b.addr),
    ensures
        forall|k: Graph, f: (Tm, Tm)|
            stepped(g, k) && #[trigger] value_fact(k, pc, a, b, f) ==> group_fact(k, pc, all, f),
{
    assert forall|k: Graph, f: (Tm, Tm)|
        stepped(g, k) && #[trigger] value_fact(k, pc, a, b, f) implies group_fact(k, pc, all, f) by {
        lemma_made_grows(g, k, pc, all, a, n);
        let i = choose|i: int| 0 <= i < all.len() && all[i] == b;
        assert(chunk_in(g, all[i]));
        assert(k.canon(a.addr) == k.canon(b.addr));
    }
}

/// What is put in for a chunk is made of the chunks of both lists.
proof fn lemma_made_put(
    c0: Context,
    c1: Context,
    c2: Context,
    pc: Seq<(Id, Polarity)>,
    all: Seq<Chunk>,
    cs: Seq<Chunk>,
    cb: Chunk,
    put: Chunk,
    n: nat,
)
    requires
        c0.leads_to(c1),
        c0.wf(),
        chunks_in(c0.graph, all),
        all.contains(cb),
        forall|k: int| 0 <= k < cs.len() ==> made_of(c1.graph, pc, all, #[trigger] cs[k], n),
        (put == cb && c2 == c1) || exists|j: int| #[trigger]
            first_canon(c1.graph, cs, cb.addr, j) && reaches(
                c1,
                c2,
                pair_facts(pc, cs[j], cb) + fresh_facts(c1.next_fresh),
            ) && united_with(c2.graph, guards_match(c1.graph, cs[j], cb), pc, cs[j], cb, put),
    ensures
        reaches(c1, c2, group_facts(pc, all, c0.next_fresh)),
        made_of(c2.graph, pc, all, put, n + 1),
        forall|k: int| 0 <= k < cs.len() ==> made_of(c2.graph, pc, all, #[trigger] cs[k], n + 1),
{
    crate::heap::groups::lemma_chunks_grow(c0.graph, c1.graph, all);
    if put == cb && c2 == c1 {
        lemma_reaches_refl(c1);
        lemma_leads_refl(c1);
    } else {
        let j = choose|j: int| #[trigger]
            first_canon(c1.graph, cs, cb.addr, j) && reaches(
                c1,
                c2,
                pair_facts(pc, cs[j], cb) + fresh_facts(c1.next_fresh),
            ) && united_with(c2.graph, guards_match(c1.graph, cs[j], cb), pc, cs[j], cb, put);
        lemma_pair_reaches(c0, c1, c2, pc, all, cs[j], cb, n);
        lemma_made_grows(c1.graph, c2.graph, pc, all, cs[j], n);
        let i = choose|i: int| 0 <= i < all.len() && all[i] == cb;
        assert(chunk_in(c1.graph, all[i]));
        assert(joins(c2.graph, pc, cs[j], cb, put));
        assert(made_of(c2.graph, pc, all, put, n + 1));
    }
    assert forall|k: int| 0 <= k < cs.len() implies made_of(
        c2.graph,
        pc,
        all,
        #[trigger] cs[k],
        n + 1,
    ) by {
        lemma_made_grows(c1.graph, c2.graph, pc, all, cs[k], n);
        lemma_made_more(c2.graph, pc, all, cs[k], n);
    }
    if put == cb {
        assert(made_of(c2.graph, pc, all, put, n + 1));
    }
}

/// What joining two chunks assumes may be assumed of the chunks that they are made of.
pub proof fn lemma_pair_reaches(
    c0: Context,
    c1: Context,
    c2: Context,
    pc: Seq<(Id, Polarity)>,
    all: Seq<Chunk>,
    a: Chunk,
    b: Chunk,
    n: nat,
)
    requires
        c0.leads_to(c1),
        chunks_in(c1.graph, all),
        made_of(c1.graph, pc, all, a, n),
        all.contains(b),
        c1.graph.canon(a.addr) == c1.graph.canon(b.addr),
        reaches(c1, c2, pair_facts(pc, a, b) + fresh_facts(c1.next_fresh)),
    ensures
        reaches(c1, c2, group_facts(pc, all, c0.next_fresh)),
{
    let small = pair_facts(pc, a, b) + fresh_facts(c1.next_fresh);
    crate::heap::facts::lemma_reaches_since(c1, c2, small);
    let mid = crate::heap::facts::since(c1, small);
    lemma_pair_group(c1.graph, pc, all, a, b, n);
    lemma_fresh_more(c0.next_fresh, c1.next_fresh);
    assert(mid.subset_of(group_facts(pc, all, c0.next_fresh)));
    lemma_reaches_more(c1, c2, mid, group_facts(pc, all, c0.next_fresh));
}

/// More steps may be taken.
pub proof fn lemma_made_more(g: Graph, pc: Seq<(Id, Polarity)>, cs: Seq<Chunk>, c: Chunk, n: nat)
    requires
        made_of(g, pc, cs, c, n),
    ensures
        made_of(g, pc, cs, c, n + 1),
    decreases n,
{
    if !cs.contains(c) {
        let (a, b) = choose|a: Chunk, b: Chunk|
            {
                &&& made_of(g, pc, cs, a, (n - 1) as nat)
                &&& cs.contains(b)
                &&& g.canon(a.addr) == g.canon(b.addr)
                &&& #[trigger] joins(g, pc, a, b, c)
            };
        lemma_made_more(g, pc, cs, a, (n - 1) as nat);
        assert(joins(g, pc, a, b, c));
    }
}

proof fn lemma_made_with(
    g: Graph,
    pc: Seq<(Id, Polarity)>,
    all: Seq<Chunk>,
    cs: Seq<Chunk>,
    put: Chunk,
    now: Seq<Chunk>,
    n: nat,
)
    requires
        now == with(cs, put),
        made_of(g, pc, all, put, n + 1),
        forall|k: int| 0 <= k < cs.len() ==> made_of(g, pc, all, #[trigger] cs[k], n + 1),
    ensures
        forall|k: int| 0 <= k < now.len() ==> made_of(g, pc, all, #[trigger] now[k], n + 1),
{
    assert forall|k: int| 0 <= k < now.len() implies made_of(
        g,
        pc,
        all,
        #[trigger] now[k],
        n + 1,
    ) by {
        crate::heap::groups::lemma_place(cs, put.addr);
        if now[k] != put {
            assert(now[k] == cs[k]);
        }
    }
}

/// Puts the chunks of a group into a heap.
fn unite_group(
    ctx: &mut Context,
    out: Heap,
    kind: usize,
    bcs: &Vec<Chunk>,
    pc: &Vec<(Id, Polarity)>,
) -> (r: Heap)
    requires
        old(ctx).wf(),
        heap_in(old(ctx).graph, out),
        chunks_in(old(ctx).graph, bcs@),
        cube_in(old(ctx).graph, pc@),
    ensures
        reaches(
            *old(ctx),
            *final(ctx),
            group_facts(pc@, out.group(kind) + bcs@, old(ctx).next_fresh),
        ),
        heap_in(final(ctx).graph, r),
        forall|k: usize| k != kind ==> #[trigger] r.group(k) == out.group(k),
        united_groups(
            old(ctx).graph,
            final(ctx).graph,
            pc@,
            out.group(kind),
            bcs@,
            r.group(kind),
        ),
{
    let ghost c0 = *ctx;
    let ghost out0 = out;
    let mut h = out;
    let mut i: usize = 0;
    let ghost mut css: Seq<Seq<Chunk>> = seq![out0.group(kind)];
    let ghost all = out0.group(kind) + bcs@;
    let ghost fs = group_facts(pc@, all, c0.next_fresh);
    proof {
        lemma_reaches_refl(c0);
        lemma_leads_refl(c0);
        assert(chunks_in(c0.graph, out0.group(kind)));
        assert forall|k: int| 0 <= k < all.len() implies chunk_in(c0.graph, #[trigger] all[k]) by {
            if k < out0.group(kind).len() {
                assert(chunk_in(c0.graph, out0.group(kind)[k]));
            } else {
                assert(chunk_in(c0.graph, bcs@[k - out0.group(kind).len()]));
            }
        }
        assert forall|k: int| 0 <= k < h.group(kind).len() implies made_of(
            c0.graph,
            pc@,
            all,
            #[trigger] h.group(kind)[k],
            0,
        ) by {
            assert(all[k] == h.group(kind)[k]);
        }
    }
    while i < bcs.len()
        invariant
            i <= bcs@.len(),
            c0.wf(),
            ctx.wf(),
            reaches(c0, *ctx, fs),
            fs == group_facts(pc@, all, c0.next_fresh),
            all == out0.group(kind) + bcs@,
            chunks_in(c0.graph, all),
            forall|k: int|
                0 <= k < h.group(kind).len() ==> made_of(
                    ctx.graph,
                    pc@,
                    all,
                    #[trigger] h.group(kind)[k],
                    i as nat,
                ),
            stepped(c0.graph, c0.graph),
            chunks_in(c0.graph, bcs@),
            cube_in(c0.graph, pc@),
            heap_in(ctx.graph, h),
            forall|k: usize| k != kind ==> #[trigger] h.group(k) == out0.group(k),
            all_united(c0.graph, ctx.graph, pc@, css, bcs@, i as int),
            css[0] == out0.group(kind),
            css.last() == h.group(kind),
        decreases bcs.len() - i,
    {
        let ghost c1 = *ctx;
        let ghost h0 = h;
        let ghost had = css;
        let cb = &bcs[i];
        let cs = h.chunks_of(kind);
        proof {
            assert(chunk_in(c0.graph, bcs@[i as int]));
            lemma_chunk_grows(c0.graph, c1.graph, *cb);
            lemma_cube_grows(c0.graph, c1.graph, pc@);
            assert(chunks_in(c1.graph, h.group(kind)));
            lemma_reaches_refl(c1);
            lemma_leads_refl(c1);
        }
        let put = match find_canon(&ctx.graph, &cs, cb.addr) {
            None => cb.copy(),
            Some(j) => {
                proof {
                    assert(chunk_in(c1.graph, cs@[j as int]));
                }
                unite_chunks(ctx, &cs[j], cb, pc)
            },
        };
        let ghost c2 = *ctx;
        proof {
            assert(all[out0.group(kind).len() + i] == *cb);
            assert(all.contains(*cb));
            lemma_made_put(c0, c1, c2, pc@, all, cs@, *cb, put, i as nat);
            lemma_reaches_trans(c0, c1, c2);
            lemma_chunk_grows(c1.graph, c2.graph, *cb);
            assert(united_chunk(c1.graph, c2.graph, pc@, cs@, bcs@[i as int], put));
            lemma_heap_grows(c1.graph, c2.graph, h);
            assert(chunks_in(c2.graph, h.group(kind)));
            lemma_with_in(c2.graph, h.group(kind), put);
        }
        h = h.with_chunk(kind, put);
        proof {
            lemma_made_with(c2.graph, pc@, all, cs@, put, h.group(kind), i as nat);
            lemma_heap_with(c2.graph, h0, h, kind);
            assert(united_at(c0.graph, c2.graph, pc@, cs@, bcs@[i as int], put));
            assert(put_in(c0.graph, c2.graph, pc@, cs@, bcs@[i as int], h.group(kind)));
            css = had.push(h.group(kind));
            assert forall|k: int| 0 <= k < i + 1 implies put_in(
                c0.graph,
                c2.graph,
                pc@,
                #[trigger] css[k],
                bcs@[k],
                css[k + 1],
            ) by {
                if k < i {
                    assert(put_in(c0.graph, c1.graph, pc@, had[k], bcs@[k], had[k + 1]));
                    assert(css[k] == had[k] && css[k + 1] == had[k + 1]);
                    lemma_united_grows(
                        c0.graph,
                        c0.graph,
                        c1.graph,
                        c2.graph,
                        pc@,
                        css[k],
                        bcs@[k],
                        css[k + 1],
                    );
                }
            }
        }
        i += 1;
    }
    proof {
        assert(all_united(c0.graph, ctx.graph, pc@, css, bcs@, bcs@.len() as int));
    }
    h
}

proof fn lemma_groups_grow(
    a0: Graph,
    a: Graph,
    b: Graph,
    c: Graph,
    pc: Seq<(Id, Polarity)>,
    acs: Seq<Chunk>,
    bcs: Seq<Chunk>,
    r: Seq<Chunk>,
)
    requires
        b.wf(),
        stepped(a0, a),
        stepped(b, c),
        united_groups(a, b, pc, acs, bcs, r),
    ensures
        united_groups(a0, c, pc, acs, bcs, r),
{
    let n = bcs.len() as int;
    let css = choose|css: Seq<Seq<Chunk>>| #[trigger]
        all_united(a, b, pc, css, bcs, n) && css[0] == acs && css.last() == r;
    assert forall|i: int| 0 <= i < n implies put_in(
        a0,
        c,
        pc,
        #[trigger] css[i],
        bcs[i],
        css[i + 1],
    ) by {
        assert(put_in(a, b, pc, css[i], bcs[i], css[i + 1]));
        lemma_united_grows(a0, a, b, c, pc, css[i], bcs[i], css[i + 1]);
    }
    assert(all_united(a0, c, pc, css, bcs, n));
}

proof fn lemma_nothing_united(a: Graph, b: Graph, pc: Seq<(Id, Polarity)>, acs: Seq<Chunk>)
    ensures
        united_groups(a, b, pc, acs, Seq::empty(), acs),
{
    let css = seq![acs];
    let bcs = Seq::<Chunk>::empty();
    assert(all_united(a, b, pc, css, bcs, bcs.len() as int));
    assert(css[0] == acs);
}

/// What may be assumed where two heaps are held at once: of the chunks of either at one
/// address, that their values agree where both are held on the path.
pub open spec fn union_facts(pc: Seq<(Id, Polarity)>, a: Heap, b: Heap, k: u32) -> Set<
    (Graph, (Tm, Tm)),
> {
    Set::new(
        |e: (Graph, (Tm, Tm))|
            exists|kind: usize| #[trigger]
                group_facts(pc, a.group(kind) + b.group(kind), k).contains(e),
    )
}

proof fn lemma_group_union(
    pc: Seq<(Id, Polarity)>,
    a: Heap,
    b: Heap,
    kind: usize,
    k: u32,
    n: u32,
)
    requires
        k <= n,
    ensures
        group_facts(pc, a.group(kind) + b.group(kind), n).subset_of(union_facts(pc, a, b, k)),
{
    lemma_fresh_more(k, n);
    assert forall|e: (Graph, (Tm, Tm))|
        group_facts(pc, a.group(kind) + b.group(kind), n).contains(e) implies union_facts(
        pc,
        a,
        b,
        k,
    ).contains(e) by {
        assert(group_facts(pc, a.group(kind) + b.group(kind), k).contains(e));
    }
}

/// Two heaps held at once: the chunks of each address together.
pub fn union_heaps(ctx: &mut Context, a: &Heap, b: &Heap, pc: &Vec<(Id, Polarity)>) -> (r: Heap)
    requires
        old(ctx).wf(),
        heap_in(old(ctx).graph, *a),
        heap_in(old(ctx).graph, *b),
        cube_in(old(ctx).graph, pc@),
    ensures
        reaches(*old(ctx), *final(ctx), union_facts(pc@, *a, *b, old(ctx).next_fresh)),
        heap_in(final(ctx).graph, r),
        forall|k: usize|
            united_groups(
                old(ctx).graph,
                final(ctx).graph,
                pc@,
                a.group(k),
                b.group(k),
                #[trigger] r.group(k),
            ),
{
    let ghost c0 = *ctx;
    let kinds = b.kinds();
    let mut h = a.copy();
    let mut i: usize = 0;
    let ghost fs = union_facts(pc@, *a, *b, c0.next_fresh);
    proof {
        lemma_reaches_refl(c0);
        assert forall|k: usize| chunks_in(c0.graph, #[trigger] h.group(k)) by {
            assert(h.group(k) == a.group(k));
        }
    }
    while i < kinds.len()
        invariant
            i <= kinds@.len(),
            kinds@.no_duplicates(),
            c0.wf(),
            ctx.wf(),
            reaches(c0, *ctx, fs),
            fs == union_facts(pc@, *a, *b, c0.next_fresh),
            heap_in(c0.graph, *a),
            heap_in(c0.graph, *b),
            cube_in(c0.graph, pc@),
            heap_in(ctx.graph, h),
            forall|n: int|
                0 <= n < i ==> united_groups(
                    c0.graph,
                    ctx.graph,
                    pc@,
                    a.group(#[trigger] kinds@[n]),
                    b.group(kinds@[n]),
                    h.group(kinds@[n]),
                ),
            forall|k: usize|
                !kinds@.take(i as int).contains(k) ==> #[trigger] h.group(k) == a.group(k),
        decreases kinds.len() - i,
    {
        let ghost c1 = *ctx;
        let ghost h0 = h;
        let kind = kinds[i];
        let bcs = b.chunks_of(kind);
        proof {
            lemma_heap_grows(c0.graph, c1.graph, *b);
            assert(chunks_in(c1.graph, b.group(kind)));
            lemma_cube_grows(c0.graph, c1.graph, pc@);
            assert(!kinds@.take(i as int).contains(kind)) by {
                if kinds@.take(i as int).contains(kind) {
                    let n = choose|n: int| 0 <= n < i && kinds@.take(i as int)[n] == kind;
                    assert(kinds@[n] == kinds@[i as int]);
                }
            }
            assert(h.group(kind) == a.group(kind));
        }
        h = unite_group(ctx, h, kind, &bcs, pc);
        let ghost c2 = *ctx;
        proof {
            lemma_group_union(pc@, *a, *b, kind, c0.next_fresh, c1.next_fresh);
            lemma_reaches_more(
                c1,
                c2,
                group_facts(pc@, a.group(kind) + b.group(kind), c1.next_fresh),
                fs,
            );
            lemma_reaches_trans(c0, c1, c2);
            assert forall|n: int| 0 <= n < i + 1 implies united_groups(
                c0.graph,
                c2.graph,
                pc@,
                a.group(#[trigger] kinds@[n]),
                b.group(kinds@[n]),
                h.group(kinds@[n]),
            ) by {
                let k = kinds@[n];
                if n < i {
                    assert(k != kind);
                    assert(h.group(k) == h0.group(k));
                    lemma_leads_refl(c0);
                    lemma_groups_grow(
                        c0.graph,
                        c0.graph,
                        c1.graph,
                        c2.graph,
                        pc@,
                        a.group(k),
                        b.group(k),
                        h.group(k),
                    );
                } else {
                    lemma_leads_refl(c2);
                    lemma_groups_grow(
                        c0.graph,
                        c1.graph,
                        c2.graph,
                        c2.graph,
                        pc@,
                        a.group(k),
                        b.group(k),
                        h.group(k),
                    );
                }
            }
            assert forall|k: usize| !kinds@.take(i + 1).contains(k) implies #[trigger] h.group(k)
                == a.group(k) by {
                assert(kinds@.take(i + 1)[i as int] == kind);
                if kinds@.take(i as int).contains(k) {
                    let n = choose|n: int| 0 <= n < i && kinds@.take(i as int)[n] == k;
                    assert(kinds@.take(i + 1)[n] == k);
                }
                assert(h0.group(k) == a.group(k));
            }
        }
        i += 1;
    }
    let ghost c3 = *ctx;
    ctx.rebuild();
    proof {
        let c4 = *ctx;
        lemma_reaches_follows(c3, c4);
        lemma_reaches_trans(c0, c3, c4);
        lemma_heap_grows(c3.graph, c4.graph, h);
        assert(kinds@.take(kinds@.len() as int) =~= kinds@);
        lemma_leads_refl(c0);
        assert forall|k: usize| united_groups(
            c0.graph,
            c4.graph,
            pc@,
            a.group(k),
            b.group(k),
            #[trigger] h.group(k),
        ) by {
            if kinds@.contains(k) {
                let n = choose|n: int| 0 <= n < kinds@.len() && kinds@[n] == k;
                assert(kinds@[n] == k);
                lemma_groups_grow(
                    c0.graph,
                    c0.graph,
                    c3.graph,
                    c4.graph,
                    pc@,
                    a.group(k),
                    b.group(k),
                    h.group(k),
                );
            } else {
                assert(b.group(k).len() == 0);
                assert(b.group(k) =~= Seq::empty());
                lemma_nothing_united(c0.graph, c4.graph, pc@, a.group(k));
            }
        }
    }
    h
}

/// No chunk of a list is a wildcard.
pub open spec fn no_wild(cs: Seq<Chunk>) -> bool {
    forall|i: int| 0 <= i < cs.len() ==> !wild_in((#[trigger] cs[i]).perm)
}

/// Where two groups are held at once, each location has what it has in both, whatever
/// the guards and however many chunks are at one address. Wildcards have no amount to
/// add.
pub proof fn law_united(
    a: Graph,
    b: Graph,
    m: Model,
    pc: Seq<(Id, Polarity)>,
    acs: Seq<Chunk>,
    bcs: Seq<Chunk>,
    r: Seq<Chunk>,
    loc: Value,
)
    requires
        b.wf(),
        !b.full(),
        b.models(m),
        apart(acs),
        no_wild(acs),
        no_wild(bcs),
        united_groups(a, b, pc, acs, bcs, r),
    ensures
        total(m, r, loc) == total(m, acs, loc) + total(m, bcs, loc),
{
    let n = bcs.len() as int;
    let css = choose|css: Seq<Seq<Chunk>>| #[trigger]
        all_united(a, b, pc, css, bcs, n) && css[0] == acs && css.last() == r;
    lemma_put_total(a, b, m, pc, css, bcs, n, loc);
    assert(bcs.take(n) =~= bcs);
}

/// Chunks that were put together have the sum of what they have.
proof fn lemma_united_amount(
    g: Graph,
    b: Graph,
    m: Model,
    pc: Seq<(Id, Polarity)>,
    e: Chunk,
    cb: Chunk,
    put: Chunk,
)
    requires
        g.wf(),
        b.wf(),
        stepped(g, b),
        !b.full(),
        b.models(m),
        chunk_in(g, e),
        chunk_in(g, cb),
        !wild_in(e.perm),
        !wild_in(cb.perm),
        united_with(b, guards_match(g, e, cb), pc, e, cb, put),
    ensures
        chunk_amt(m, put) == chunk_amt(m, e) + chunk_amt(m, cb),
{
    let one = guards_match(g, e, cb);
    assert(united_in(m, one, pc, e, cb, put));
    lemma_grows_models(g, b, m);
    if one {
        law_guards_match(g, m, e, cb);
    } else {
        assert(cube_on(m, put.guard@));
    }
}

proof fn lemma_put_total(
    a: Graph,
    b: Graph,
    m: Model,
    pc: Seq<(Id, Polarity)>,
    css: Seq<Seq<Chunk>>,
    bcs: Seq<Chunk>,
    n: int,
    loc: Value,
)
    requires
        0 <= n <= bcs.len(),
        b.wf(),
        !b.full(),
        b.models(m),
        apart(css[0]),
        no_wild(css[0]),
        no_wild(bcs),
        all_united(a, b, pc, css, bcs, bcs.len() as int),
    ensures
        apart(css[n]),
        no_wild(css[n]),
        total(m, css[n], loc) == total(m, css[0], loc) + total(m, bcs.take(n), loc),
    decreases n,
{
    if n == 0 {
        assert(bcs.take(0).len() == 0);
        return;
    }
    lemma_put_total(a, b, m, pc, css, bcs, n - 1, loc);
    let cs = css[n - 1];
    let now = css[n];
    let cb = bcs[n - 1];
    assert(put_in(a, b, pc, css[n - 1], bcs[n - 1], css[n - 1 + 1]));
    let put = choose|r: Chunk| #[trigger] united_at(a, b, pc, cs, cb, r) && now == with(cs, r);
    let g = choose|g: Graph|
        {
            &&& stepped(a, g)
            &&& g.wf()
            &&& stepped(g, b)
            &&& chunks_in(g, cs)
            &&& chunk_in(g, cb)
            &&& #[trigger] united_chunk(g, b, pc, cs, cb, put)
        };
    assert(bcs.take(n).drop_last() =~= bcs.take(n - 1));
    assert(bcs.take(n).last() == cb);
    assert(!wild_in(cb.perm));
    lemma_with_apart(cs, put);
    lemma_place(cs, put.addr);
    law_with(m, cs, put, loc);
    if no_canon(g, cs, cb.addr) && put == cb {
        if place(cs, cb.addr) < cs.len() {
            assert(g.canon(cs[place(cs, cb.addr) as int].addr) != g.canon(cb.addr));
        }
    } else {
        let j = choose|j: int| #[trigger]
            first_canon(g, cs, cb.addr, j) && united_with(
                b,
                guards_match(g, cs[j], cb),
                pc,
                cs[j],
                cb,
                put,
            ) && put.recipe == united_recipe(g, cs[j], cb);
        let e = cs[j];
        assert(chunk_in(g, e));
        assert(!wild_in(e.perm));
        lemma_united_amount(g, b, m, pc, e, cb, put);
        lemma_member_holds(cs, j);
        lemma_grows_models(g, b, m);
        lemma_same_class(g, m, e.addr, cb.addr);
    }
    assert forall|i: int| 0 <= i < now.len() implies !wild_in((#[trigger] now[i]).perm) by {
        if now[i] != put {
            assert(now[i] == cs[i]);
        }
    }
}

} // verus!
