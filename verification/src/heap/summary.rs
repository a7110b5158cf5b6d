//! The permission at a location, summed over all chunks that may be there.

use crate::context::{builds, cube_holds, cube_in, lemma_cube_grows, lemma_leads_trans, lit_holds, Context};
use crate::graph::{lemma_same_class, Graph};
use crate::heap::amount::perm_add;
use crate::heap::chunk::{chunk_in, chunk_share, lemma_chunk_grows, Chunk};
use crate::heap::cube::law_meet;
use crate::heap::facts::{
    deduces, lemma_reaches_asserted, lemma_reaches_extended, lemma_reaches_refl,
    lemma_reaches_trans, reaches, share_fact, sure_facts,
};
use crate::heap::gate::{copy_cube, cube_on, gate_amount_by_pc, law_gated_amount, lit_on, zero_real};
use crate::heap::groups::{
    apart, chunks_in, find_canon, first_canon, lemma_total_push, perms_sorted, total,
};
use crate::heap::join::lemma_to_id;
use crate::heap::perm::{
    lemma_perm_grows, perm_amt, perm_in, perm_sorted, perm_tm, wild_in, ChunkPerm,
};
use crate::heap::sign::perm_known_positive;
use crate::lang::Id;
use crate::method::merge::amount;
use crate::model::{lemma_tm_bin, t_eq, Model, Tm};
use crate::prove::cube_bools;
use crate::terms::{lemma_grows_denotes, lemma_grows_models, lemma_known, Expr};
use crate::vmir::{BinOp, Polarity, Value};
use std::rc::Rc;
use vstd::prelude::*;

verus! {

broadcast use crate::context::lemma_builds_trans;

/// A chunk that may be at a location, and the cube under which it is.
#[derive(Debug)]
pub struct Member {
    pub chunk: Chunk,
    pub cube: Rc<Vec<(Id, Polarity)>>,
}

/// Every class of a member is in the graph.
pub open spec fn member_in(g: Graph, w: Member) -> bool {
    chunk_in(g, w.chunk) && cube_in(g, w.cube@)
}

pub open spec fn members_in(g: Graph, set: Seq<Member>) -> bool {
    forall|i: int| 0 <= i < set.len() ==> member_in(g, #[trigger] set[i])
}

/// The chunks of members.
pub open spec fn chunks_of_set(set: Seq<Member>) -> Seq<Chunk> {
    Seq::new(set.len(), |i: int| set[i].chunk)
}

/// Where its chunk is there at all, a member is at an address exactly where its cube
/// holds.
pub open spec fn cube_fits(m: Model, w: Member, addr: Id) -> bool {
    cube_on(m, w.chunk.guard@) ==> cube_holds(m, w.cube@) == (m.at(w.chunk.addr) == m.at(addr))
}

/// The conditions of every guard are booleans.
pub open spec fn guards_sorted(m: Model, cs: Seq<Chunk>) -> bool {
    forall|i: int| 0 <= i < cs.len() ==> cube_bools(m, (#[trigger] cs[i]).guard@)
}

/// Literals over booleans that are met hold.
pub proof fn lemma_on_bools(m: Model, cube: Seq<(Id, Polarity)>)
    requires
        cube_bools(m, cube),
    ensures
        cube_on(m, cube) == cube_holds(m, cube),
{
    assert forall|i: int| 0 <= i < cube.len() implies lit_on(m, #[trigger] cube[i]) == lit_holds(
        m,
        cube[i],
    ) by {
        assert(m.at(cube[i].0) is Bool);
    }
    if cube_on(m, cube) {
        assert forall|i: int| 0 <= i < cube.len() implies lit_holds(m, #[trigger] cube[i]) by {
            assert(lit_on(m, cube[i]));
        }
    }
    if cube_holds(m, cube) {
        assert forall|i: int| 0 <= i < cube.len() implies lit_on(m, #[trigger] cube[i]) by {
            assert(lit_holds(m, cube[i]));
        }
    }
}

/// The equality of two classes is true exactly where they have one value.
pub proof fn lemma_eq_class(g: Graph, m: Model, eq: Id, x: Id, y: Id)
    requires
        !g.full(),
        g.models(m),
        g.denotes(eq, t_eq(Tm::Class(x), Tm::Class(y))),
    ensures
        m.at(eq) == Value::Bool(m.at(x) == m.at(y)),
{
    lemma_tm_bin(m, BinOp::Eq, Tm::Class(x), Tm::Class(y));
}

/// What a chunk adds to the permission at an address on a path: nothing, or an amount
/// and the cube under which the chunk is there.
pub open spec fn summand_of(
    g: Graph,
    pc: Seq<(Id, Polarity)>,
    c: Chunk,
    addr: Id,
    r: Option<(ChunkPerm, Member)>,
) -> bool {
    &&& r matches Some(s) ==> {
        &&& perm_in(g, s.0)
        &&& member_in(g, s.1)
        &&& s.1.chunk == c
        &&& c.guard@.len() == 0 ==> forall|m: Model|
            perm_sorted(m, c.perm) ==> #[trigger] perm_sorted(m, s.0)
        &&& wild_in(s.0) ==> wild_in(c.perm)
    }
    &&& g.full() || forall|m: Model| #[trigger]
        g.models(m) && cube_holds(m, pc) && cube_bools(m, c.guard@) ==> match r {
            None => chunk_share(m, c, m.at(addr)) == 0 as real,
            Some(s) => perm_amt(m, s.0) == chunk_share(m, c, m.at(addr)) && cube_fits(
                m,
                s.1,
                addr,
            ),
        }
}

proof fn lemma_summand_grows(
    g: Graph,
    h: Graph,
    pc: Seq<(Id, Polarity)>,
    c: Chunk,
    addr: Id,
    r: Option<(ChunkPerm, Member)>,
)
    requires
        g.wf(),
        g.grows_to(h),
        summand_of(g, pc, c, addr, r),
    ensures
        summand_of(h, pc, c, addr, r),
{
    if let Some(s) = r {
        lemma_perm_grows(g, h, s.0);
        lemma_chunk_grows(g, h, s.1.chunk);
        lemma_cube_grows(g, h, s.1.cube@);
    }
    if !h.full() {
        assert forall|m: Model| #[trigger]
            h.models(m) && cube_holds(m, pc) && cube_bools(m, c.guard@) implies match r {
            None => chunk_share(m, c, m.at(addr)) == 0 as real,
            Some(s) => perm_amt(m, s.0) == chunk_share(m, c, m.at(addr)) && cube_fits(
                m,
                s.1,
                addr,
            ),
        } by {
            lemma_grows_models(g, h, m);
        }
    }
}

/// What a chunk adds to the permission at an address. The chunk is there where the
/// addresses are one class, or are proven equal wherever the chunk is there; else it
/// is there where they are equal. Where they are known to differ, or the guard
/// contradicts the path, it adds nothing.
fn summand(ctx: &mut Context, c: &Chunk, addr: Id, pc: &Vec<(Id, Polarity)>) -> (r: Option<
    (ChunkPerm, Member),
>)
    requires
        old(ctx).wf(),
        old(ctx).graph.has(addr),
        chunk_in(old(ctx).graph, *c),
        cube_in(old(ctx).graph, pc@),
    ensures
        deduces(*old(ctx), *final(ctx)),
        summand_of(final(ctx).graph, pc@, *c, addr, r),
{
    let ghost c0 = *ctx;
    let held = c.gated_perm(ctx);
    let ghost c1 = *ctx;
    proof {
        lemma_reaches_extended(c0, c1);
        lemma_chunk_grows(c0.graph, c1.graph, *c);
        lemma_cube_grows(c0.graph, c1.graph, pc@);
    }
    if ctx.graph.find(c.addr) == ctx.graph.find(addr) {
        let w = Member { chunk: c.copy(), cube: Rc::new(Vec::new()) };
        let r = Some((held, w));
        proof {
            assert forall|m: Model| #[trigger] c1.graph.models(m) implies m.at(c.addr) == m.at(
                addr,
            ) by {
                lemma_same_class(c1.graph, m, c.addr, addr);
            }
            assert(summand_of(c1.graph, pc@, *c, addr, r));
        }
        return r;
    }
    let eq = ctx.build(&Expr::bin(BinOp::Eq, Expr::Class(c.addr), Expr::Class(addr)));
    let ghost c2 = *ctx;
    proof {
        lemma_reaches_extended(c1, c2);
        lemma_reaches_trans(c0, c1, c2);
        lemma_chunk_grows(c1.graph, c2.graph, *c);
        lemma_cube_grows(c1.graph, c2.graph, pc@);
        lemma_perm_grows(c1.graph, c2.graph, held);
    }
    if ctx.graph.known_bool(eq) == Some(false) {
        let r: Option<(ChunkPerm, Member)> = None;
        proof {
            let g = c2.graph;
            if !g.full() {
                assert forall|m: Model| #[trigger] g.models(m) implies chunk_share(
                    m,
                    *c,
                    m.at(addr),
                ) == 0 as real by {
                    lemma_known(g, m, eq);
                    lemma_eq_class(g, m, eq, c.addr, addr);
                }
            }
            assert(summand_of(g, pc@, *c, addr, r));
        }
        return r;
    }
    let presence = match c.presence_cube(&ctx.graph, pc) {
        None => {
            let r: Option<(ChunkPerm, Member)> = None;
            proof {
                let g = c2.graph;
                assert forall|m: Model| #[trigger]
                    g.models(m) && cube_holds(m, pc@) && cube_bools(m, c.guard@) implies chunk_share(
                    m,
                    *c,
                    m.at(addr),
                ) == 0 as real by {
                    law_meet(g, m, pc@, c.guard@);
                    lemma_on_bools(m, c.guard@);
                }
                assert(summand_of(g, pc@, *c, addr, r));
            }
            return r;
        },
        Some(cube) => cube,
    };
    proof {
        lemma_meet_in(c2.graph, pc@, c.guard@);
    }
    if c.guard.len() > 0 && ctx.prove_on_path(eq, &presence) {
        let w = Member { chunk: c.copy(), cube: c.guard.clone() };
        let r = Some((held, w));
        proof {
            let g = ctx.graph;
            lemma_reaches_trans(c0, c2, *ctx);
            lemma_chunk_grows(c2.graph, g, *c);
            lemma_perm_grows(c2.graph, g, held);
            lemma_grows_denotes(c2.graph, g, eq, t_eq(Tm::Class(c.addr), Tm::Class(addr)));
            assert forall|m: Model| #[trigger]
                g.models(m) && cube_holds(m, pc@) && cube_bools(m, c.guard@) implies perm_amt(
                m,
                held,
            ) == chunk_share(m, *c, m.at(addr)) && cube_fits(m, r.unwrap().1, addr) by {
                lemma_grows_models(c2.graph, g, m);
                lemma_grows_models(c1.graph, g, m);
                lemma_on_bools(m, c.guard@);
                law_meet(c2.graph, m, pc@, c.guard@);
                lemma_eq_class(g, m, eq, c.addr, addr);
            }
            assert(summand_of(g, pc@, *c, addr, r));
        }
        return r;
    }
    let ghost c3 = *ctx;
    proof {
        lemma_reaches_refl(c2);
        lemma_reaches_trans(c0, c2, c3);
        lemma_chunk_grows(c2.graph, c3.graph, *c);
        lemma_perm_grows(c2.graph, c3.graph, held);
    }
    let id = held.to_id(ctx);
    let ghost c4 = *ctx;
    let cube: Vec<(Id, Polarity)> = vec![(eq, Polarity::Positive)];
    let gated = gate_amount_by_pc(ctx, id, &cube);
    let ghost c5 = *ctx;
    let amt = ChunkPerm::Leaf { id: gated, wild: c.perm.has_wild() };
    let w = Member { chunk: c.copy(), cube: Rc::new(cube) };
    let r = Some((amt, w));
    proof {
        let g = c5.graph;
        lemma_leads_trans(c3, c4, c5);
        lemma_reaches_extended(c3, c5);
        lemma_reaches_trans(c0, c3, c5);
        lemma_chunk_grows(c3.graph, g, *c);
        lemma_leads_trans(c2, c3, c5);
        lemma_grows_denotes(c2.graph, g, eq, t_eq(Tm::Class(c.addr), Tm::Class(addr)));
        lemma_grows_denotes(c4.graph, g, id, crate::heap::perm::perm_tm(held));
        if !g.full() {
            assert forall|m: Model| #[trigger]
                g.models(m) && cube_holds(m, pc@) && cube_bools(m, c.guard@) implies perm_amt(
                m,
                amt,
            ) == chunk_share(m, *c, m.at(addr)) && cube_fits(m, w, addr) by {
                lemma_grows_models(c2.graph, g, m);
                lemma_grows_models(c1.graph, c2.graph, m);
                lemma_to_id(g, m, id, held);
                lemma_eq_class(g, m, eq, c.addr, addr);
                law_gated_amount(g, m, gated, id, w.cube@);
                assert(w.cube@ == seq![(eq, Polarity::Positive)]);
                assert(cube_holds(m, w.cube@) == lit_holds(m, (eq, Polarity::Positive))) by {
                    assert(w.cube@[0] == (eq, Polarity::Positive));
                }
            }
        }
        assert(summand_of(g, pc@, *c, addr, r));
    }
    r
}

proof fn lemma_meet_in(g: Graph, a: Seq<(Id, Polarity)>, b: Seq<(Id, Polarity)>)
    requires
        cube_in(g, a),
        cube_in(g, b),
    ensures
        crate::heap::cube::meet(g, a, b) matches Some(c) ==> cube_in(g, c),
    decreases b.len(),
{
    if b.len() > 0 {
        let front = b.drop_last();
        assert(cube_in(g, front)) by {
            assert forall|i: int| 0 <= i < front.len() implies g.has((#[trigger] front[i]).0) by {
                assert(g.has(b[i].0));
            }
        }
        lemma_meet_in(g, a, front);
        assert(g.has(b.last().0)) by {
            assert(b.last() == b[b.len() - 1]);
        }
    }
}

/// On the path, an amount is what chunks give to an address, and so do the members
/// alone.
pub open spec fn sums_at(
    g: Graph,
    pc: Seq<(Id, Polarity)>,
    cs: Seq<Chunk>,
    addr: Id,
    sum: ChunkPerm,
    set: Seq<Member>,
) -> bool {
    g.full() || forall|m: Model| #[trigger]
        g.models(m) && cube_holds(m, pc) && guards_sorted(m, cs) ==> {
            &&& perm_amt(m, sum) == total(m, cs, m.at(addr))
            &&& total(m, chunks_of_set(set), m.at(addr)) == total(m, cs, m.at(addr))
            &&& all_fit(m, set, addr)
        }
}

/// Every cube fits its member.
pub open spec fn all_fit(m: Model, set: Seq<Member>, addr: Id) -> bool {
    forall|i: int| 0 <= i < set.len() ==> cube_fits(m, #[trigger] set[i], addr)
}

/// Every member's chunk is one of the list.
pub open spec fn drawn_from(set: Seq<Member>, cs: Seq<Chunk>) -> bool {
    forall|i: int| 0 <= i < set.len() ==> cs.contains((#[trigger] set[i]).chunk)
}

/// No chunk has a guard.
pub open spec fn unguarded(cs: Seq<Chunk>) -> bool {
    forall|i: int| 0 <= i < cs.len() ==> (#[trigger] cs[i]).guard@.len() == 0
}

/// The sum is over sorted conditions where the amounts are.
pub open spec fn sum_sorted(cs: Seq<Chunk>, sum: ChunkPerm) -> bool {
    unguarded(cs) ==> forall|m: Model| perms_sorted(m, cs) ==> #[trigger] perm_sorted(m, sum)
}

/// What is known when some chunks have been added up.
spec fn half_summed(
    g: Graph,
    pc: Seq<(Id, Polarity)>,
    cs: Seq<Chunk>,
    addr: Id,
    sum: Option<ChunkPerm>,
    set: Seq<Member>,
) -> bool {
    &&& members_in(g, set)
    &&& drawn_from(set, cs)
    &&& apart(chunks_of_set(set))
    &&& match sum {
        None => set.len() == 0 && (g.full() || forall|m: Model| #[trigger]
            g.models(m) && cube_holds(m, pc) && guards_sorted(m, cs) ==> total(m, cs, m.at(addr))
                == 0 as real),
        Some(t) => {
            &&& set.len() > 0
            &&& perm_in(g, t)
            &&& sum_sorted(cs, t)
            &&& sums_at(g, pc, cs, addr, t, set)
        },
    }
}

proof fn lemma_half_summed_skip(
    g: Graph,
    h: Graph,
    pc: Seq<(Id, Polarity)>,
    cs: Seq<Chunk>,
    c: Chunk,
    addr: Id,
    sum: Option<ChunkPerm>,
    set: Seq<Member>,
)
    requires
        g.wf(),
        g.grows_to(h),
        half_summed(g, pc, cs, addr, sum, set),
        summand_of(h, pc, c, addr, None),
    ensures
        half_summed(h, pc, cs.push(c), addr, sum, set),
{
    let all = cs.push(c);
    lemma_members_grow(g, h, set);
    assert forall|i: int| 0 <= i < set.len() implies all.contains((#[trigger] set[i]).chunk) by {
        let k = choose|k: int| 0 <= k < cs.len() && cs[k] == set[i].chunk;
        assert(all[k] == set[i].chunk);
    }
    if let Some(t) = sum {
        lemma_perm_grows(g, h, t);
        if unguarded(all) {
            lemma_push_parts(cs, c);
            assert forall|m: Model| perms_sorted(m, all) implies #[trigger] perm_sorted(m, t) by {
                lemma_push_sorted(m, cs, c);
            }
        }
    }
    if !h.full() {
        assert forall|m: Model| #[trigger]
            h.models(m) && cube_holds(m, pc) && guards_sorted(m, all) implies total(
            m,
            all,
            m.at(addr),
        ) == total(m, cs, m.at(addr)) && g.models(m) && guards_sorted(m, cs) && !g.full() by {
            lemma_grows_models(g, h, m);
            lemma_push_guards(m, cs, c);
            lemma_total_push(m, cs, c, m.at(addr));
        }
    }
}

proof fn lemma_push_parts(cs: Seq<Chunk>, c: Chunk)
    requires
        unguarded(cs.push(c)),
    ensures
        unguarded(cs),
        c.guard@.len() == 0,
{
    let all = cs.push(c);
    assert forall|i: int| 0 <= i < cs.len() implies (#[trigger] cs[i]).guard@.len() == 0 by {
        assert(all[i].guard@.len() == 0);
    }
    assert(all[cs.len() as int].guard@.len() == 0);
}

proof fn lemma_push_sorted(m: Model, cs: Seq<Chunk>, c: Chunk)
    requires
        perms_sorted(m, cs.push(c)),
    ensures
        perms_sorted(m, cs),
        perm_sorted(m, c.perm),
{
    let all = cs.push(c);
    assert forall|i: int| 0 <= i < cs.len() implies perm_sorted(m, (#[trigger] cs[i]).perm) by {
        assert(perm_sorted(m, all[i].perm));
    }
    assert(perm_sorted(m, all[cs.len() as int].perm));
}

proof fn lemma_push_guards(m: Model, cs: Seq<Chunk>, c: Chunk)
    requires
        guards_sorted(m, cs.push(c)),
    ensures
        guards_sorted(m, cs),
        cube_bools(m, c.guard@),
{
    let all = cs.push(c);
    assert forall|i: int| 0 <= i < cs.len() implies cube_bools(m, (#[trigger] cs[i]).guard@) by {
        assert(cube_bools(m, all[i].guard@));
    }
    assert(cube_bools(m, all[cs.len() as int].guard@));
}

pub proof fn lemma_members_grow(g: Graph, h: Graph, set: Seq<Member>)
    requires
        g.grows_to(h),
        members_in(g, set),
    ensures
        members_in(h, set),
{
    assert forall|i: int| 0 <= i < set.len() implies member_in(h, #[trigger] set[i]) by {
        assert(member_in(g, set[i]));
        lemma_chunk_grows(g, h, set[i].chunk);
        lemma_cube_grows(g, h, set[i].cube@);
    }
}

proof fn lemma_half_summed_push(
    g: Graph,
    h: Graph,
    pc: Seq<(Id, Polarity)>,
    cs: Seq<Chunk>,
    c: Chunk,
    addr: Id,
    sum: Option<ChunkPerm>,
    set: Seq<Member>,
    amt: ChunkPerm,
    w: Member,
    t: ChunkPerm,
)
    requires
        g.wf(),
        g.grows_to(h),
        apart(cs.push(c)),
        half_summed(g, pc, cs, addr, sum, set),
        summand_of(h, pc, c, addr, Some((amt, w))),
        perm_in(h, t),
        sum is None ==> t == amt,
        sum matches Some(u) ==> crate::heap::amount::adds(h, t, u, amt) && forall|m: Model|
            perm_sorted(m, u) && perm_sorted(m, amt) ==> #[trigger] perm_sorted(m, t),
    ensures
        half_summed(h, pc, cs.push(c), addr, Some(t), set.push(w)),
{
    let all = cs.push(c);
    let next = set.push(w);
    lemma_members_grow(g, h, set);
    assert forall|i: int| 0 <= i < next.len() implies all.contains((#[trigger] next[i]).chunk) by {
        if i < set.len() {
            assert(set[i] == next[i]);
            let k = choose|k: int| 0 <= k < cs.len() && cs[k] == set[i].chunk;
            assert(all[k] == set[i].chunk);
        } else {
            assert(all[cs.len() as int] == c);
        }
    }
    let ks = chunks_of_set(next);
    assert(ks =~= chunks_of_set(set).push(c));
    assert forall|i: int, j: int| 0 <= i < j < ks.len() implies (#[trigger] ks[i]).addr != (
    #[trigger] ks[j]).addr by {
        if j < set.len() {
            assert(chunks_of_set(set)[i].addr != chunks_of_set(set)[j].addr);
        } else {
            assert(cs.contains(set[i].chunk));
            let k = choose|k: int| 0 <= k < cs.len() && cs[k] == set[i].chunk;
            assert(all[k].addr != all[cs.len() as int].addr);
        }
    }
    if unguarded(all) {
        lemma_push_parts(cs, c);
        assert forall|m: Model| perms_sorted(m, all) implies #[trigger] perm_sorted(m, t) by {
            lemma_push_sorted(m, cs, c);
            assert(perm_sorted(m, amt));
            if let Some(u) = sum {
                assert(perm_sorted(m, u));
            }
        }
    }
    if !h.full() {
        assert forall|m: Model| #[trigger]
            h.models(m) && cube_holds(m, pc) && guards_sorted(m, all) implies {
            &&& perm_amt(m, t) == total(m, all, m.at(addr))
            &&& total(m, ks, m.at(addr)) == total(m, all, m.at(addr))
            &&& all_fit(m, next, addr)
        } by {
            lemma_grows_models(g, h, m);
            lemma_push_guards(m, cs, c);
            lemma_total_push(m, cs, c, m.at(addr));
            lemma_total_push(m, chunks_of_set(set), c, m.at(addr));
            assert(cube_fits(m, w, addr));
            if sum is None {
                assert(chunks_of_set(set).len() == 0);
            } else {
                assert(all_fit(m, set, addr));
            }
            assert forall|i: int| 0 <= i < next.len() implies cube_fits(
                m,
                #[trigger] next[i],
                addr,
            ) by {
                if i < set.len() {
                    assert(cube_fits(m, set[i], addr));
                }
            }
        }
    }
}

/// The permission at an address, summed over all chunks that may be there, and those
/// chunks with the cubes under which they are.
pub fn summarize_perm_at(
    ctx: &mut Context,
    chunks: &Vec<Chunk>,
    addr: Id,
    pc: &Vec<(Id, Polarity)>,
) -> (r: (ChunkPerm, Vec<Member>))
    requires
        old(ctx).wf(),
        old(ctx).graph.has(addr),
        chunks_in(old(ctx).graph, chunks@),
        apart(chunks@),
        cube_in(old(ctx).graph, pc@),
    ensures
        deduces(*old(ctx), *final(ctx)),
        perm_in(final(ctx).graph, r.0),
        members_in(final(ctx).graph, r.1@),
        drawn_from(r.1@, chunks@),
        apart(chunks_of_set(r.1@)),
        sum_sorted(chunks@, r.0),
        sums_at(final(ctx).graph, pc@, chunks@, addr, r.0, r.1@),
{
    let ghost c0 = *ctx;
    let mut sum: Option<ChunkPerm> = None;
    let mut set: Vec<Member> = Vec::new();
    let mut i: usize = 0;
    proof {
        lemma_reaches_refl(c0);
        assert(chunks@.take(0) =~= Seq::empty());
        assert(half_summed(c0.graph, pc@, chunks@.take(0), addr, sum, set@));
    }
    while i < chunks.len()
        invariant
            i <= chunks@.len(),
            c0.wf(),
            c0.graph.has(addr),
            chunks_in(c0.graph, chunks@),
            apart(chunks@),
            cube_in(c0.graph, pc@),
            ctx.wf(),
            deduces(c0, *ctx),
            half_summed(ctx.graph, pc@, chunks@.take(i as int), addr, sum, set@),
        decreases chunks.len() - i,
    {
        let ghost c1 = *ctx;
        let ghost front = chunks@.take(i as int);
        let ghost c = chunks@[i as int];
        proof {
            assert(chunk_in(c0.graph, chunks@[i as int]));
            lemma_chunk_grows(c0.graph, c1.graph, chunks@[i as int]);
            lemma_cube_grows(c0.graph, c1.graph, pc@);
            assert(chunks@.take(i + 1) =~= front.push(c));
            assert(apart(front.push(c))) by {
                let all = front.push(c);
                assert forall|a: int, b: int| 0 <= a < b < all.len() implies (#[trigger] all[a]).addr
                    != (#[trigger] all[b]).addr by {
                    assert(chunks@[a].addr != chunks@[b].addr);
                }
            }
        }
        let part = summand(ctx, &chunks[i], addr, pc);
        let ghost c2 = *ctx;
        proof {
            lemma_reaches_trans(c0, c1, c2);
        }
        match part {
            None => {
                proof {
                    lemma_half_summed_skip(
                        c1.graph,
                        c2.graph,
                        pc@,
                        front,
                        c,
                        addr,
                        sum,
                        set@,
                    );
                }
            },
            Some((amt, w)) => {
                let ghost before = sum;
                let ghost had = set@;
                let t = match &sum {
                    None => amt.copy(),
                    Some(u) => {
                        proof {
                            lemma_perm_grows(c1.graph, c2.graph, *u);
                        }
                        perm_add(ctx, u, &amt)
                    },
                };
                proof {
                    crate::context::lemma_leads_refl(c2);
                    lemma_reaches_extended(c2, *ctx);
                    lemma_reaches_trans(c0, c2, *ctx);
                    lemma_leads_trans(c1, c2, *ctx);
                    lemma_summand_grows(
                        c2.graph,
                        ctx.graph,
                        pc@,
                        c,
                        addr,
                        Some((amt, w)),
                    );
                    lemma_half_summed_push(
                        c1.graph,
                        ctx.graph,
                        pc@,
                        front,
                        c,
                        addr,
                        before,
                        had,
                        amt,
                        w,
                        t,
                    );
                }
                set.push(w);
                sum = Some(t);
            },
        }
        i += 1;
    }
    let ghost c3 = *ctx;
    proof {
        assert(chunks@.take(chunks@.len() as int) =~= chunks@);
    }
    match sum {
        Some(t) => (t, set),
        None => {
            let z = zero_real(ctx);
            let r = (ChunkPerm::leaf(z), set);
            proof {
                let g = ctx.graph;
                lemma_reaches_extended(c3, *ctx);
                lemma_reaches_trans(c0, c3, *ctx);
                lemma_members_grow(c3.graph, g, r.1@);
                if !g.full() {
                    assert forall|m: Model| #[trigger]
                        g.models(m) && cube_holds(m, pc@) && guards_sorted(m, chunks@) implies {
                        &&& perm_amt(m, r.0) == total(m, chunks@, m.at(addr))
                        &&& total(m, chunks_of_set(r.1@), m.at(addr)) == total(
                            m,
                            chunks@,
                            m.at(addr),
                        )
                        &&& all_fit(m, r.1@, addr)
                    } by {
                        lemma_grows_models(c3.graph, g, m);
                        crate::model::lemma_tm_lit(m, Value::Real(0 as real));
                        assert(chunks_of_set(r.1@).len() == 0);
                    }
                }
            }
            r
        },
    }
}

/// On the path, a class has the permission at an address.
pub open spec fn holds_at(
    g: Graph,
    pc: Seq<(Id, Polarity)>,
    cs: Seq<Chunk>,
    addr: Id,
    id: Id,
) -> bool {
    g.full() || forall|m: Model| #[trigger]
        g.models(m) && cube_holds(m, pc) && guards_sorted(m, cs) ==> amount(m.at(id)) == total(
            m,
            cs,
            m.at(addr),
        )
}

/// That a class is positive, where its terms show it.
proof fn lemma_known_share(g: Graph, id: Id)
    requires
        crate::heap::sign::sign_holds(g, id, true),
    ensures
        sure_facts().contains((g, share_fact(id))),
{
    if !g.full() {
        assert forall|m: Model| #[trigger] g.models(m) implies crate::model::equation_holds(
            m,
            share_fact(id),
        ) by {
            assert(crate::heap::sign::signed(m, id, true));
            crate::model::lemma_tm_lit(m, Value::Real(0 as real));
            crate::model::lemma_tm_bin(m, BinOp::LtR, crate::model::t_real(0 as real), Tm::Class(id));
            crate::model::lemma_tm_lit(m, Value::Bool(true));
        }
    }
}

/// The class of the permission at an address. Where its terms show that it is
/// positive, that is assumed.
pub fn perm_held_at(
    ctx: &mut Context,
    chunks: &Vec<Chunk>,
    addr: Id,
    pc: &Vec<(Id, Polarity)>,
) -> (r: Id)
    requires
        old(ctx).wf(),
        old(ctx).graph.has(addr),
        chunks_in(old(ctx).graph, chunks@),
        apart(chunks@),
        cube_in(old(ctx).graph, pc@),
    ensures
        reaches(*old(ctx), *final(ctx), sure_facts()),
        final(ctx).graph.has(r),
        holds_at(final(ctx).graph, pc@, chunks@, addr, r),
{
    let ghost c0 = *ctx;
    let (sum, set) = summarize_perm_at(ctx, chunks, addr, pc);
    let ghost c1 = *ctx;
    let id = sum.to_id(ctx);
    let ghost c2 = *ctx;
    proof {
        lemma_reaches_extended(c1, c2);
        lemma_reaches_trans(c0, c1, c2);
        lemma_reaches_refl(c2);
    }
    if perm_known_positive(&ctx.graph, id) {
        ctx.assume_expr(&Expr::bin(BinOp::LtR, Expr::zero(), Expr::Class(id)));
        proof {
            lemma_known_share(c2.graph, id);
            lemma_reaches_asserted(c2, *ctx, share_fact(id), sure_facts());
        }
    }
    proof {
        let g = ctx.graph;
        lemma_reaches_trans(c0, c2, *ctx);
        lemma_grows_denotes(c2.graph, g, id, perm_tm(sum));
        if !g.full() {
            assert forall|m: Model| #[trigger]
                g.models(m) && cube_holds(m, pc@) && guards_sorted(m, chunks@) implies amount(
                m.at(id),
            ) == total(m, chunks@, m.at(addr)) by {
                lemma_grows_models(c2.graph, g, m);
                lemma_grows_models(c1.graph, c2.graph, m);
                lemma_to_id(g, m, id, sum);
            }
        }
    }
    id
}

/// The sum of the amounts of chunks, guards aside.
pub open spec fn sum_perms(m: Model, cs: Seq<Chunk>) -> real
    decreases cs.len(),
{
    if cs.len() == 0 {
        0 as real
    } else {
        sum_perms(m, cs.drop_last()) + perm_amt(m, cs.last().perm)
    }
}

/// The chunks that a demand may draw on: the one that was found at its address, and
/// those at the addresses of partners.
pub open spec fn alias_members(
    g: Graph,
    cs: Seq<Chunk>,
    existing: Option<Chunk>,
    partners: Seq<Id>,
    ks: Seq<Chunk>,
) -> bool {
    let n: int = if existing is Some {
        1
    } else {
        0
    };
    &&& ks.len() == n + partners.len()
    &&& existing matches Some(e) ==> ks[0] == e
    &&& forall|i: int|
        0 <= i < partners.len() ==> is_first_at(g, cs, #[trigger] partners[i], ks[n + i])
}

/// The first chunk in the class of an address.
pub open spec fn is_first_at(g: Graph, cs: Seq<Chunk>, addr: Id, c: Chunk) -> bool {
    exists|j: int| #[trigger] first_canon(g, cs, addr, j) && cs[j] == c
}

/// In every model, an amount is the sum of those of chunks.
pub open spec fn sums_perms(g: Graph, sum: ChunkPerm, ks: Seq<Chunk>) -> bool {
    g.full() || forall|m: Model| #[trigger]
        g.models(m) ==> perm_amt(m, sum) == sum_perms(m, ks)
}

fn add_member(
    ctx: &mut Context,
    sum: Option<ChunkPerm>,
    c: &Chunk,
    Ghost(ks): Ghost<Seq<Chunk>>,
) -> (r: ChunkPerm)
    requires
        old(ctx).wf(),
        perm_in(old(ctx).graph, c.perm),
        sum is None == (ks.len() == 0),
        sum matches Some(t) ==> perm_in(old(ctx).graph, t) && sums_perms(
            old(ctx).graph,
            t,
            ks,
        ) && forall|m: Model| perms_sorted(m, ks) ==> #[trigger] perm_sorted(m, t),
    ensures
        old(ctx).leads_to(*final(ctx)),
        builds(*old(ctx), *final(ctx)),
        perm_in(final(ctx).graph, r),
        sums_perms(final(ctx).graph, r, ks.push(*c)),
        forall|m: Model| perms_sorted(m, ks.push(*c)) ==> #[trigger] perm_sorted(m, r),
{
    let ghost c0 = *ctx;
    let ghost all = ks.push(*c);
    let ghost had = sum;
    let r = match sum {
        None => c.perm.copy(),
        Some(t) => perm_add(ctx, &t, &c.perm),
    };
    proof {
        crate::context::lemma_leads_refl(c0);
        let g = ctx.graph;
        if !g.full() {
            assert forall|m: Model| #[trigger] g.models(m) implies perm_amt(m, r) == sum_perms(
                m,
                all,
            ) by {
                lemma_grows_models(c0.graph, g, m);
                assert(all.drop_last() =~= ks);
                if had is None {
                    assert(sum_perms(m, ks) == 0 as real);
                }
            }
        }
        assert forall|m: Model| perms_sorted(m, all) implies #[trigger] perm_sorted(m, r) by {
            lemma_push_sorted(m, ks, *c);
            if let Some(t) = had {
                assert(perm_sorted(m, t));
            }
        }
    }
    r
}

/// Some chunk is at each address.
pub open spec fn all_listed(cs: Seq<Chunk>, partners: Seq<Id>) -> bool {
    forall|k: int| 0 <= k < partners.len() ==> lists_addr(cs, #[trigger] partners[k])
}

pub open spec fn lists_addr(cs: Seq<Chunk>, addr: Id) -> bool {
    exists|j: int| 0 <= j < cs.len() && (#[trigger] cs[j]).addr == addr
}

/// The chunks that a demand may draw on.
fn draw_members(g: &Graph, chunks: &Vec<Chunk>, existing: Option<&Chunk>, partners: &Vec<Id>) -> (r:
    Vec<Chunk>)
    requires
        g.wf(),
        chunks_in(*g, chunks@),
        existing matches Some(e) ==> chunk_in(*g, *e),
        all_listed(chunks@, partners@),
    ensures
        chunks_in(*g, r@),
        alias_members(
            *g,
            chunks@,
            match existing {
                Some(e) => Some(*e),
                None => None,
            },
            partners@,
            r@,
        ),
{
    let mut out: Vec<Chunk> = Vec::new();
    if let Some(e) = existing {
        out.push(e.copy());
    }
    let ghost n: int = if existing is Some {
        1
    } else {
        0
    };
    let mut i: usize = 0;
    while i < partners.len()
        invariant
            i <= partners@.len(),
            g.wf(),
            chunks_in(*g, chunks@),
            all_listed(chunks@, partners@),
            n == 0 || n == 1,
            existing is Some ==> n == 1,
            out@.len() == n + i,
            existing matches Some(e) ==> out@[0] == *e,
            chunks_in(*g, out@),
            forall|k: int|
                0 <= k < i ==> is_first_at(*g, chunks@, #[trigger] partners@[k], out@[n + k]),
        decreases partners.len() - i,
    {
        proof {
            assert(lists_addr(chunks@, partners@[i as int]));
            let j = choose|j: int|
                0 <= j < chunks@.len() && (#[trigger] chunks@[j]).addr == partners@[i as int];
            assert(chunk_in(*g, chunks@[j]));
        }
        if let Some(at) = find_canon(g, chunks, partners[i]) {
            proof {
                assert(chunk_in(*g, chunks@[at as int]));
                assert(is_first_at(*g, chunks@, partners@[i as int], chunks@[at as int]));
            }
            out.push(chunks[at].copy());
        }
        i += 1;
    }
    out
}

/// The chunks that a demand may draw on where addresses are one on the path, each
/// under the path, and the sum of their amounts.
pub fn pc_alias_set(
    ctx: &mut Context,
    chunks: &Vec<Chunk>,
    existing: Option<&Chunk>,
    partners: &Vec<Id>,
    pc: &Vec<(Id, Polarity)>,
) -> (r: (Vec<Member>, ChunkPerm))
    requires
        old(ctx).wf(),
        chunks_in(old(ctx).graph, chunks@),
        existing matches Some(e) ==> chunk_in(old(ctx).graph, *e),
        all_listed(chunks@, partners@),
        cube_in(old(ctx).graph, pc@),
    ensures
        old(ctx).leads_to(*final(ctx)),
        builds(*old(ctx), *final(ctx)),
        members_in(final(ctx).graph, r.0@),
        perm_in(final(ctx).graph, r.1),
        forall|i: int| 0 <= i < r.0@.len() ==> (#[trigger] r.0@[i]).cube@ == pc@,
        alias_members(
            old(ctx).graph,
            chunks@,
            match existing {
                Some(e) => Some(*e),
                None => None,
            },
            partners@,
            chunks_of_set(r.0@),
        ),
        sums_perms(final(ctx).graph, r.1, chunks_of_set(r.0@)),
        forall|m: Model|
            perms_sorted(m, chunks_of_set(r.0@)) ==> #[trigger] perm_sorted(m, r.1),
{
    let ghost c0 = *ctx;
    let members = draw_members(&ctx.graph, chunks, existing, partners);
    let cube = Rc::new(copy_cube(pc));
    let mut set: Vec<Member> = Vec::new();
    let mut sum: Option<ChunkPerm> = None;
    proof {
        crate::context::lemma_leads_refl(c0);
        assert(chunks_of_set(set@) =~= members@.take(0));
    }
    let mut i: usize = 0;
    while i < members.len()
        invariant
            i <= members@.len(),
            c0.wf(),
            ctx.wf(),
            c0.leads_to(*ctx),
            builds(c0, *ctx),
            chunks_in(c0.graph, members@),
            cube_in(c0.graph, pc@),
            cube@ == pc@,
            set@.len() == i,
            chunks_of_set(set@) == members@.take(i as int),
            forall|k: int| 0 <= k < set@.len() ==> (#[trigger] set@[k]).cube@ == pc@,
            members_in(ctx.graph, set@),
            sum is None == (i == 0),
            sum matches Some(t) ==> perm_in(ctx.graph, t) && sums_perms(
                ctx.graph,
                t,
                chunks_of_set(set@),
            ) && forall|m: Model|
                perms_sorted(m, chunks_of_set(set@)) ==> #[trigger] perm_sorted(m, t),
        decreases members.len() - i,
    {
        let ghost c1 = *ctx;
        let ghost had = set@;
        let c = &members[i];
        proof {
            assert(chunk_in(c0.graph, members@[i as int]));
            lemma_chunk_grows(c0.graph, c1.graph, *c);
        }
        let t = add_member(ctx, sum, c, Ghost(chunks_of_set(had)));
        sum = Some(t);
        set.push(Member { chunk: c.copy(), cube: cube.clone() });
        proof {
            lemma_leads_trans(c0, c1, *ctx);
            lemma_members_grow(c1.graph, ctx.graph, had);
            lemma_chunk_grows(c1.graph, ctx.graph, *c);
            lemma_cube_grows(c0.graph, ctx.graph, pc@);
            assert(chunks_of_set(set@) =~= chunks_of_set(had).push(*c));
            assert(members@.take(i + 1) =~= members@.take(i as int).push(*c));
        }
        i += 1;
    }
    let ghost c2 = *ctx;
    proof {
        assert(members@.take(members@.len() as int) =~= members@);
    }
    match sum {
        Some(t) => (set, t),
        None => {
            let z = zero_real(ctx);
            let r = (set, ChunkPerm::leaf(z));
            proof {
                let g = ctx.graph;
                lemma_leads_trans(c0, c2, *ctx);
                lemma_members_grow(c2.graph, g, r.0@);
                assert(chunks_of_set(r.0@).len() == 0);
                if !g.full() {
                    assert forall|m: Model| #[trigger] g.models(m) implies perm_amt(m, r.1)
                        == sum_perms(m, chunks_of_set(r.0@)) by {
                        crate::model::lemma_tm_lit(m, Value::Real(0 as real));
                    }
                }
            }
            r
        },
    }
}

} // verus!
