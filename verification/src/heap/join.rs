//! One chunk out of two.

use crate::context::{
    builds, cube_holds, cube_in, lemma_cube_grows, lemma_leads_trans, lemma_learns_holds, Context,
};
use crate::graph::Graph;
use crate::heap::amount::{adds, perm_add};
use crate::heap::chunk::{chunk_amt, chunk_in, lemma_chunk_grows, Chunk};
use crate::heap::cube::{cube_eq, entails, has_literal, same_cube};
use crate::heap::facts::{
    fresh_facts, lemma_fresh_more, lemma_reaches_asserted, lemma_reaches_extended,
    lemma_reaches_more, lemma_reaches_trans, pair_facts, reaches, value_fact, weighs, weighs_as,
};
use crate::heap::gate::cube_on;
use crate::heap::perm::{
    lemma_perm_grows, lemma_perm_tm, perm_amt, perm_in, perm_sorted, perm_tm, wild_in, ChunkPerm,
};
use crate::heap::values::{merge_values, perm_add_wildcard, picks, wild_adds, wild_total};
use crate::lang::Id;
use crate::method::merge::{agreement, amount, law_agreement};
use crate::model::{
    equation_holds, lemma_tm_bin, lemma_tm_ite, lemma_tm_lit, t_bool, t_ltr, t_real, Model, Tm,
};
use crate::terms::{lemma_grows_denotes, lemma_grows_models};
use crate::vmir::{BinOp, Polarity, Value};
use std::rc::Rc;
use vstd::prelude::*;

verus! {

broadcast use crate::context::lemma_builds_trans;

/// Two guards are one: they have the same literals.
pub open spec fn guards_match(g: Graph, a: Chunk, b: Chunk) -> bool {
    same_cube(g, a.guard@, b.guard@)
}

/// Whether two guards are taken for one.
pub fn share_guard(g: &Graph, a: &Chunk, b: &Chunk) -> (r: bool)
    requires
        g.wf(),
        chunk_in(*g, *a),
        chunk_in(*g, *b),
    ensures
        r == guards_match(*g, *a, *b),
{
    cube_eq(g, &a.guard, &b.guard)
}

/// What a chunk adds to a merge: its bare amount where the guards are taken for one,
/// what it holds elsewhere.
pub open spec fn part(m: Model, one_guard: bool, c: Chunk) -> real {
    if one_guard {
        perm_amt(m, c.perm)
    } else {
        chunk_amt(m, c)
    }
}

/// The total of two parts: their sum, but for wildcards.
pub open spec fn part_total(r: real, x: real, y: real, wild: bool) -> bool {
    if wild {
        wild_total(r, x, y)
    } else {
        r == x + y
    }
}

/// Two chunks of one address became one.
pub open spec fn merged_in(
    m: Model,
    one_guard: bool,
    pc: Seq<(Id, Polarity)>,
    a: Chunk,
    b: Chunk,
    r: Chunk,
) -> bool {
    let x = part(m, one_guard, a);
    let y = part(m, one_guard, b);
    &&& part_total(perm_amt(m, r.perm), x, y, wild_in(a.perm) || wild_in(b.perm))
    &&& m.at(r.value) == (if x > 0 as real {
        m.at(a.value)
    } else {
        m.at(b.value)
    })
    &&& cube_holds(m, pc) && x > 0 as real && y > 0 as real ==> m.at(a.value) == m.at(b.value)
}

/// In every model two chunks of one address became one.
pub open spec fn merged_chunks(
    g: Graph,
    one_guard: bool,
    pc: Seq<(Id, Polarity)>,
    a: Chunk,
    b: Chunk,
    r: Chunk,
) -> bool {
    &&& one_guard ==> r.guard == a.guard
    &&& !one_guard ==> r.guard@.len() == 0
    &&& g.full() || forall|m: Model| #[trigger]
        g.models(m) ==> merged_in(m, one_guard, pc, a, b, r)
}

/// The parts of two chunks, and the guard of what they make.
pub fn read_parts(ctx: &mut Context, a: &Chunk, b: &Chunk) -> (r: (
    ChunkPerm,
    ChunkPerm,
    Rc<Vec<(Id, Polarity)>>,
))
    requires
        old(ctx).wf(),
        chunk_in(old(ctx).graph, *a),
        chunk_in(old(ctx).graph, *b),
    ensures
        old(ctx).leads_to(*final(ctx)),
        builds(*old(ctx), *final(ctx)),
        perm_in(final(ctx).graph, r.0),
        perm_in(final(ctx).graph, r.1),
        guards_match(old(ctx).graph, *a, *b) ==> r.0 == a.perm && r.1 == b.perm && r.2 == a.guard,
        !guards_match(old(ctx).graph, *a, *b) ==> r.2@.len() == 0,
        cube_in(final(ctx).graph, r.2@),
        wild_in(r.0) ==> wild_in(a.perm),
        wild_in(r.1) ==> wild_in(b.perm),
        final(ctx).graph.full() || forall|m: Model| #[trigger]
            final(ctx).graph.models(m) ==> {
                &&& perm_amt(m, r.0) == part(m, guards_match(old(ctx).graph, *a, *b), *a)
                &&& perm_amt(m, r.1) == part(m, guards_match(old(ctx).graph, *a, *b), *b)
            },
{
    let ghost c0 = *ctx;
    if share_guard(&ctx.graph, a, b) {
        proof {
            crate::context::lemma_leads_refl(c0);
        }
        return (a.perm.copy(), b.perm.copy(), a.guard.clone());
    }
    let pa = a.gated_perm(ctx);
    let ghost c1 = *ctx;
    proof {
        lemma_chunk_grows(c0.graph, c1.graph, *b);
    }
    let pb = b.gated_perm(ctx);
    proof {
        lemma_leads_trans(c0, c1, *ctx);
        lemma_perm_grows(c1.graph, ctx.graph, pa);
        let g = ctx.graph;
        if !g.full() {
            assert forall|m: Model| #[trigger] g.models(m) implies perm_amt(m, pa) == chunk_amt(
                m,
                *a,
            ) by {
                lemma_grows_models(c1.graph, g, m);
            }
        }
    }
    (pa, pb, Rc::new(Vec::new()))
}

/// The sum of two amounts. A wildcard makes a fresh share of it.
pub fn perm_total(ctx: &mut Context, a: &ChunkPerm, b: &ChunkPerm) -> (r: ChunkPerm)
    requires
        old(ctx).wf(),
        perm_in(old(ctx).graph, *a),
        perm_in(old(ctx).graph, *b),
    ensures
        reaches(*old(ctx), *final(ctx), fresh_facts(old(ctx).next_fresh)),
        perm_in(final(ctx).graph, r),
        !wild_in(*a) && !wild_in(*b) ==> adds(final(ctx).graph, r, *a, *b) && !wild_in(r),
        !wild_in(*a) && !wild_in(*b) ==> forall|m: Model|
            perm_sorted(m, *a) && perm_sorted(m, *b) ==> #[trigger] perm_sorted(m, r),
        wild_adds(final(ctx).graph, r, *a, *b),
{
    let ghost c0 = *ctx;
    if ctx.has_wildcard && (a.has_wild() || b.has_wild()) {
        return perm_add_wildcard(ctx, a, b);
    }
    let r = perm_add(ctx, a, b);
    proof {
        lemma_reaches_extended(c0, *ctx);
        let g = ctx.graph;
        if !g.full() {
            assert forall|m: Model| #[trigger] g.models(m) implies wild_total(
                perm_amt(m, r),
                perm_amt(m, *a),
                perm_amt(m, *b),
            ) by {}
        }
    }
    r
}

pub proof fn lemma_to_id(g: Graph, m: Model, id: Id, p: ChunkPerm)
    requires
        !g.full(),
        g.models(m),
        g.denotes(id, perm_tm(p)),
    ensures
        amount(m.at(id)) == perm_amt(m, p),
{
    lemma_perm_tm(m, p);
}

pub proof fn lemma_picks(g: Graph, m: Model, r: Id, p: Id, v: Id, w: Id)
    requires
        !g.full(),
        g.models(m),
        picks(g, r, p, v, w),
    ensures
        m.at(r) == (if amount(m.at(p)) > 0 as real {
            m.at(v)
        } else {
            m.at(w)
        }),
{
    let lt = t_ltr(t_real(0 as real), Tm::Class(p));
    lemma_tm_lit(m, Value::Real(0 as real));
    lemma_tm_bin(m, BinOp::LtR, t_real(0 as real), Tm::Class(p));
    lemma_tm_ite(m, lt, Tm::Class(v), Tm::Class(w));
}

/// The class of a part of a chunk is what the chunk adds to a merge.
pub proof fn lemma_weighs(
    g1: Graph,
    g2: Graph,
    g: Graph,
    one: bool,
    c: Chunk,
    p: ChunkPerm,
    id: Id,
)
    requires
        g1.grows_to(g),
        g2.grows_to(g),
        g2.denotes(id, perm_tm(p)),
        g1.full() || forall|m: Model| #[trigger]
            g1.models(m) ==> perm_amt(m, p) == part(m, one, c),
    ensures
        weighs(g, id, c),
{
    lemma_grows_denotes(g2, g, id, perm_tm(p));
    if !g.full() {
        assert forall|m: Model| #[trigger] g.models(m) implies amount(m.at(id)) == part(
            m,
            one,
            c,
        ) by {
            lemma_grows_models(g1, g, m);
            lemma_to_id(g, m, id, p);
        }
    }
    assert(weighs_as(g, id, one, c));
}

/// Makes one chunk of two at one address. Guards that are taken for one are kept;
/// others go into the amounts.
#[verifier::rlimit(30)]
pub fn merge_chunks(ctx: &mut Context, addr: Id, a: &Chunk, b: &Chunk, pc: &Vec<(Id, Polarity)>) -> (r:
    Chunk)
    requires
        old(ctx).wf(),
        old(ctx).graph.has(addr),
        chunk_in(old(ctx).graph, *a),
        chunk_in(old(ctx).graph, *b),
        cube_in(old(ctx).graph, pc@),
    ensures
        reaches(
            *old(ctx),
            *final(ctx),
            pair_facts(pc@, *a, *b) + fresh_facts(old(ctx).next_fresh),
        ),
        r.addr == addr,
        r.recipe is None,
        chunk_in(final(ctx).graph, r),
        merged_chunks(
            final(ctx).graph,
            guards_match(old(ctx).graph, *a, *b),
            pc@,
            *a,
            *b,
            r,
        ),
        !wild_in(a.perm) && !wild_in(b.perm) ==> !wild_in(r.perm),
        !wild_in(a.perm) && !wild_in(b.perm) && guards_match(old(ctx).graph, *a, *b)
            ==> forall|m: Model|
            perm_sorted(m, a.perm) && perm_sorted(m, b.perm) ==> #[trigger] perm_sorted(m, r.perm),
{
    let ghost c0 = *ctx;
    let ghost one = guards_match(c0.graph, *a, *b);
    let (pa, pb, guard) = read_parts(ctx, a, b);
    let ghost c1 = *ctx;
    let p0 = pa.to_id(ctx);
    let ghost c2 = *ctx;
    proof {
        lemma_perm_grows(c1.graph, c2.graph, pb);
    }
    let p1 = pb.to_id(ctx);
    let ghost c3 = *ctx;
    proof {
        lemma_leads_trans(c0, c1, c2);
        lemma_leads_trans(c0, c2, c3);
        lemma_leads_trans(c1, c2, c3);
        lemma_reaches_extended(c0, c3);
        lemma_perm_grows(c1.graph, c3.graph, pa);
        lemma_perm_grows(c1.graph, c3.graph, pb);
    }
    let perm = perm_total(ctx, &pa, &pb);
    let ghost c4 = *ctx;
    proof {
        lemma_leads_trans(c0, c3, c4);
        lemma_cube_grows(c0.graph, c4.graph, pc@);
        lemma_chunk_grows(c0.graph, c4.graph, *a);
        lemma_chunk_grows(c0.graph, c4.graph, *b);
    }
    let value = merge_values(ctx, p0, a.value, p1, b.value, pc);
    let r = Chunk::new_perm(addr, perm, value).with_guard(guard);
    proof {
        let g = ctx.graph;
        let fs = pair_facts(pc@, *a, *b) + fresh_facts(c0.next_fresh);
        lemma_fresh_more(c0.next_fresh, c3.next_fresh);
        lemma_reaches_more(c3, c4, fresh_facts(c3.next_fresh), fs);
        lemma_reaches_trans(c0, c3, c4);
        let f = (
            agreement(
                pc@,
                crate::method::plain::Chunk { perm: p0, value: a.value },
                crate::method::plain::Chunk { perm: p1, value: b.value },
            ),
            t_bool(true),
        );
        let mid = choose|mid: Context|
            {
                &&& #[trigger] builds(c4, mid)
                &&& mid.leads_to(*ctx)
                &&& crate::rewrite::pins::asserted(mid.graph, ctx.graph, seq![f])
            };
        lemma_leads_trans(c1, c3, c4);
        lemma_leads_trans(c1, c4, mid);
        lemma_leads_trans(c2, c3, c4);
        lemma_leads_trans(c2, c4, mid);
        lemma_leads_trans(c3, c4, mid);
        lemma_weighs(c1.graph, c2.graph, mid.graph, one, *a, pa, p0);
        lemma_weighs(c1.graph, c3.graph, mid.graph, one, *b, pb, p1);
        assert(value_fact(mid.graph, pc@, *a, *b, f));
        assert(fs.contains((mid.graph, f)));
        lemma_reaches_asserted(mid, *ctx, f, fs);
        lemma_reaches_extended(c4, mid);
        lemma_reaches_trans(c4, mid, *ctx);
        lemma_reaches_trans(c0, c4, *ctx);
        lemma_leads_trans(c1, c3, c4);
        lemma_leads_trans(c1, c4, *ctx);
        lemma_leads_trans(c2, c3, c4);
        lemma_leads_trans(c2, c4, *ctx);
        lemma_leads_trans(c3, c4, *ctx);
        lemma_perm_grows(c4.graph, g, perm);
        lemma_cube_grows(c1.graph, g, guard@);
        lemma_grows_denotes(c2.graph, g, p0, perm_tm(pa));
        lemma_grows_denotes(c3.graph, g, p1, perm_tm(pb));
        if !g.full() {
            assert forall|m: Model| #[trigger] g.models(m) implies merged_in(
                m,
                one,
                pc@,
                *a,
                *b,
                r,
            ) by {
                lemma_grows_models(c1.graph, g, m);
                lemma_grows_models(c4.graph, g, m);
                lemma_to_id(g, m, p0, pa);
                lemma_to_id(g, m, p1, pb);
                lemma_picks(g, m, value, p0, a.value, b.value);
                let x = crate::method::plain::Chunk { perm: p0, value: a.value };
                let y = crate::method::plain::Chunk { perm: p1, value: b.value };
                let f = (agreement(pc@, x, y), t_bool(true));
                lemma_learns_holds(c4, *ctx, seq![f], m);
                assert(equation_holds(m, seq![f][0]));
                if cube_holds(m, pc@) && amount(m.at(p0)) > 0 as real && amount(m.at(p1))
                    > 0 as real {
                    law_agreement(m, pc@, x, y);
                }
            }
        }
    }
    r
}

/// Two guards are met together, where they are taken for one.
pub open spec fn in_step(m: Model, one_guard: bool, a: Chunk, b: Chunk) -> bool {
    one_guard ==> cube_on(m, a.guard@) == cube_on(m, b.guard@)
}

/// Merging keeps permission: the merged chunk holds what the two held.
pub proof fn law_merged(
    g: Graph,
    m: Model,
    one_guard: bool,
    pc: Seq<(Id, Polarity)>,
    a: Chunk,
    b: Chunk,
    r: Chunk,
)
    requires
        !g.full(),
        g.models(m),
        merged_chunks(g, one_guard, pc, a, b, r),
        in_step(m, one_guard, a, b),
    ensures
        part_total(
            chunk_amt(m, r),
            chunk_amt(m, a),
            chunk_amt(m, b),
            wild_in(a.perm) || wild_in(b.perm),
        ),
{
    assert(merged_in(m, one_guard, pc, a, b, r));
}

/// A cube that entails another is met only where the other is.
proof fn lemma_entails_on(g: Graph, m: Model, cube: Seq<(Id, Polarity)>, sub: Seq<(Id, Polarity)>)
    requires
        g.wf(),
        g.models(m),
        cube_in(g, cube),
        cube_in(g, sub),
        entails(g, cube, sub),
        cube_on(m, cube),
    ensures
        cube_on(m, sub),
{
    assert forall|i: int| 0 <= i < sub.len() implies crate::heap::gate::lit_on(
        m,
        #[trigger] sub[i],
    ) by {
        assert(has_literal(g, cube, sub[i]));
        let k = choose|k: int|
            0 <= k < cube.len() && (#[trigger] cube[k]).1 == sub[i].1 && g.canon(cube[k].0)
                == g.canon(sub[i].0);
        assert(crate::heap::gate::lit_on(m, cube[k]));
        assert(g.has(cube[k].0) && g.has(sub[i].0));
        crate::graph::lemma_same_class(g, m, cube[k].0, sub[i].0);
    }
}

/// Guards with the same literals are met together.
pub proof fn law_guards_match(g: Graph, m: Model, a: Chunk, b: Chunk)
    requires
        g.wf(),
        g.models(m),
        chunk_in(g, a),
        chunk_in(g, b),
        guards_match(g, a, b),
    ensures
        cube_on(m, a.guard@) == cube_on(m, b.guard@),
{
    if cube_on(m, a.guard@) {
        lemma_entails_on(g, m, a.guard@, b.guard@);
    }
    if cube_on(m, b.guard@) {
        lemma_entails_on(g, m, b.guard@, a.guard@);
    }
}

} // verus!
