//! Addresses that are one on a path.

use crate::context::{cube_facts, cube_holds, cube_in, state_cube, Context};
use crate::graph::{lemma_same_class, Graph};
use crate::heap::chunk::Chunk;
use crate::heap::groups::{apart, chunks_in, find_canon, first_canon};
use crate::lang::{Id, Node};
use crate::model::{Model, Tm};
use crate::prove::{lemma_probe_made, lemma_probe_model, probe_made, probed};
use crate::rewrite::learned::{
    evaluable, fits, lemma_learned_asserted, lemma_learned_follows, lemma_learned_trans,
};
use crate::rewrite::pins::{asserted, lemma_asserted_trans};
use crate::rewrite::rules::lemma_stepped_trans;
use crate::terms::group_grows;
use crate::vmir::Polarity;
use vstd::prelude::*;

verus! {

/// On the path two classes have one value, in every model of the graph and the
/// background in which the terms built on the way have values.
pub open spec fn aliased(
    g: Graph,
    b: spec_fn(Model) -> bool,
    pc: Seq<(Id, Polarity)>,
    x: Id,
    y: Id,
    dss: Seq<Seq<Node>>,
) -> bool {
    forall|m: Model| #[trigger]
        g.models(m) && b(m) && evaluable(g, m, dss) && cube_holds(m, pc) ==> m.at(x) == m.at(y)
}

/// A literal of the path is known to be false where those before it are assumed.
pub open spec fn contradicted(g: Graph, pc: Seq<(Id, Polarity)>) -> bool {
    exists|n: int, p: Graph|
        #![trigger asserted(g, p, cube_facts(pc).take(n))]
        {
            &&& 0 <= n < pc.len()
            &&& asserted(g, p, cube_facts(pc).take(n))
            &&& p.known_truth(pc[n].0) == Some(pc[n].1 != Polarity::Positive)
        }
}

/// What is one class in a probe is one on the path.
pub proof fn law_probed(c: Context, pc: Seq<(Id, Polarity)>, p: Graph, x: Id, y: Id)
    requires
        c.wf(),
        cube_in(c.graph, pc),
        probed(c, pc, p),
        c.graph.has(x),
        c.graph.has(y),
        p.canon(x) == p.canon(y),
    ensures
        aliased(c.graph, c.background(), pc, x, y, seq![p.defs()]),
{
    let g = c.graph;
    let b = c.background();
    let dss = seq![p.defs()];
    assert forall|m: Model| #[trigger]
        g.models(m) && b(m) && evaluable(g, m, dss) && cube_holds(m, pc) implies m.at(x) == m.at(
        y,
    ) by {
        assert(fits(g, m, dss[0]));
        let w = lemma_probe_model(c, p, pc, m);
        lemma_same_class(p, w, x, y);
        assert(w.at(x) == m.at(x));
        assert(w.at(y) == m.at(y));
    }
}

/// A probe of the path; `None` where the path is contradicted, or ids run out.
pub fn probe_path(ctx: &mut Context, pc: &Vec<(Id, Polarity)>) -> (r: Option<Graph>)
    requires
        old(ctx).wf(),
        cube_in(old(ctx).graph, pc@),
    ensures
        old(ctx).leads_to(*final(ctx)),
        final(ctx).graph == old(ctx).graph,
        r matches Some(p) ==> probed(*old(ctx), pc@, p),
        r is None ==> contradicted(old(ctx).graph, pc@) || exists|p: Graph| #[trigger]
            probe_made(*old(ctx), pc@, p) && p.full(),
{
    broadcast use group_grows;

    let ghost c0 = *ctx;
    let ghost g0 = ctx.graph;
    let ghost b = ctx.background();
    let ghost all = cube_facts(pc@);
    let mut p = ctx.graph.copy();
    let mut i: usize = 0;
    proof {
        crate::context::lemma_leads_refl(c0);
        assert(g0.grows_to(p)) by {
            assert(p.defs().subrange(0, g0.defs().len() as int) =~= g0.defs());
            assert(p.facts().subrange(0, g0.facts().len() as int) =~= g0.facts());
        }
        crate::rewrite::pins::lemma_keeps_coarser(g0, p);
        assert(all.take(0) =~= Seq::empty());
        reveal(crate::rewrite::pins::all_merged);
        assert(asserted(g0, p, all.take(0)));
    }
    while i < pc.len()
        invariant
            i <= pc@.len(),
            c0.wf(),
            *ctx == c0,
            g0 == c0.graph,
            cube_in(g0, pc@),
            all == cube_facts(pc@),
            asserted(g0, p, all.take(i as int)),
        decreases pc.len() - i,
    {
        let ghost before = p;
        let lit = pc[i];
        let want = lit.1 == Polarity::Positive;
        proof {
            assert(g0.has(pc@[i as int].0));
        }
        if p.known_bool(lit.0) == Some(!want) {
            proof {
                crate::context::lemma_leads_refl(c0);
                assert(contradicted(g0, pc@));
            }
            return None;
        }
        let one: Vec<(Id, Polarity)> = vec![lit];
        state_cube(&mut p, &one);
        proof {
            assert(cube_facts(one@) =~= seq![all[i as int]]);
            lemma_asserted_trans(g0, before, p, all.take(i as int), cube_facts(one@));
            assert(all.take(i + 1) =~= all.take(i as int) + cube_facts(one@));
        }
        i += 1;
    }
    let ghost p1 = p;
    p.rebuild();
    let ghost p2 = p;
    ctx.run_probe(&mut p);
    proof {
        assert(all.take(pc@.len() as int) =~= all);
        lemma_learned_asserted(g0, p1, b, all);
        crate::rewrite::sound::lemma_follows_same(p1, p2, b);
        crate::rewrite::sound::lemma_follows_trans(p1, p2, p, b);
        lemma_learned_follows(p1, p, b);
        lemma_learned_trans(g0, p1, p, b, all, Seq::empty());
        assert(all + Seq::<(Tm, Tm)>::empty() =~= all);
        lemma_stepped_trans(g0, p1, p2);
        lemma_stepped_trans(g0, p2, p);
        lemma_probe_made(c0, *ctx, pc@, p1, p2, p);
    }
    if p.is_full() {
        return None;
    }
    Some(p)
}

/// What a search for a chunk at an address finds: the first chunk in its class, or
/// else the first in its class in a probe of the path.
pub open spec fn found_on(
    c: Context,
    cs: Seq<Chunk>,
    addr: Id,
    pc: Seq<(Id, Polarity)>,
    r: Option<usize>,
) -> bool {
    match r {
        Some(i) => first_canon(c.graph, cs, addr, i as int) || (no_canon(c.graph, cs, addr)
            && exists|p: Graph| #[trigger] probed(c, pc, p) && first_canon(p, cs, addr, i as int)),
        None => no_canon(c.graph, cs, addr),
    }
}

/// No chunk is in the class of an address.
pub open spec fn no_canon(g: Graph, cs: Seq<Chunk>, addr: Id) -> bool {
    forall|i: int| 0 <= i < cs.len() ==> g.canon((#[trigger] cs[i]).addr) != g.canon(addr)
}

/// The chunk at an address, where addresses that are one on the path alone are one.
pub fn chunk_under_pc(
    ctx: &mut Context,
    chunks: &Vec<Chunk>,
    addr: Id,
    pc: &Vec<(Id, Polarity)>,
) -> (r: Option<usize>)
    requires
        old(ctx).wf(),
        old(ctx).graph.has(addr),
        chunks_in(old(ctx).graph, chunks@),
        cube_in(old(ctx).graph, pc@),
    ensures
        old(ctx).leads_to(*final(ctx)),
        final(ctx).graph == old(ctx).graph,
        found_on(*old(ctx), chunks@, addr, pc@, r),
        r matches Some(i) ==> i < chunks@.len(),
        pc@.len() == 0 ==> (r is Some ==> first_canon(
            old(ctx).graph,
            chunks@,
            addr,
            r.unwrap() as int,
        )),
{
    let ghost c0 = *ctx;
    proof {
        crate::context::lemma_leads_refl(c0);
    }
    let ground = find_canon(&ctx.graph, chunks, addr);
    if ground.is_some() {
        return ground;
    }
    if pc.len() == 0 {
        return None;
    }
    match probe_path(ctx, pc) {
        None => None,
        Some(p) => {
            proof {
                crate::heap::groups::lemma_chunks_grow(c0.graph, p, chunks@);
            }
            find_canon(&p, chunks, addr)
        },
    }
}

/// The addresses of the chunks that are in the class of an address in one graph and
/// not in another.
pub open spec fn partners_of(g: Graph, p: Graph, cs: Seq<Chunk>, addr: Id) -> Seq<Id>
    decreases cs.len(),
{
    if cs.len() == 0 {
        Seq::empty()
    } else {
        let rest = partners_of(g, p, cs.drop_last(), addr);
        let a = cs.last().addr;
        if p.canon(a) == p.canon(addr) && g.canon(a) != g.canon(addr) {
            rest.push(a)
        } else {
            rest
        }
    }
}

/// Every class listed is at an address on the path.
pub open spec fn all_aliased(
    g: Graph,
    b: spec_fn(Model) -> bool,
    pc: Seq<(Id, Polarity)>,
    xs: Seq<Id>,
    addr: Id,
    dss: Seq<Seq<Node>>,
) -> bool {
    forall|i: int| 0 <= i < xs.len() ==> aliased(g, b, pc, #[trigger] xs[i], addr, dss)
}

/// The addresses of the chunks that are at an address on the path, and are not in its
/// class.
pub fn pc_alias_partners(
    ctx: &mut Context,
    chunks: &Vec<Chunk>,
    addr: Id,
    pc: &Vec<(Id, Polarity)>,
) -> (r: Vec<Id>)
    requires
        old(ctx).wf(),
        old(ctx).graph.has(addr),
        chunks_in(old(ctx).graph, chunks@),
        cube_in(old(ctx).graph, pc@),
    ensures
        old(ctx).leads_to(*final(ctx)),
        final(ctx).graph == old(ctx).graph,
        r@.len() == 0 || exists|p: Graph| #[trigger]
            probed(*old(ctx), pc@, p) && r@ == partners_of(old(ctx).graph, p, chunks@, addr),
        pc@.len() == 0 ==> r@.len() == 0,
        exists|dss: Seq<Seq<Node>>| #[trigger]
            all_aliased(old(ctx).graph, old(ctx).background(), pc@, r@, addr, dss),
        listed_in(old(ctx).graph, chunks@, r@, addr),
        apart(chunks@) ==> r@.no_duplicates(),
{
    let ghost c0 = *ctx;
    let mut out: Vec<Id> = Vec::new();
    let ghost none = Seq::<Seq<Node>>::empty();
    proof {
        crate::context::lemma_leads_refl(c0);
        assert(all_aliased(c0.graph, c0.background(), pc@, out@, addr, none));
    }
    if pc.len() == 0 {
        return out;
    }
    let p = match probe_path(ctx, pc) {
        None => {
            return out;
        },
        Some(p) => p,
    };
    let ghost c1 = *ctx;
    proof {
        crate::heap::groups::lemma_chunks_grow(c0.graph, p, chunks@);
        assert(chunks@.take(0) =~= Seq::empty());
    }
    let mut i: usize = 0;
    while i < chunks.len()
        invariant
            i <= chunks@.len(),
            *ctx == c1,
            c0.wf(),
            c1.graph == c0.graph,
            p.wf(),
            p.has(addr),
            c0.graph.has(addr),
            chunks_in(c0.graph, chunks@),
            chunks_in(p, chunks@),
            out@ == partners_of(c0.graph, p, chunks@.take(i as int), addr),
            forall|k: int|
                0 <= k < out@.len() ==> c0.graph.has(#[trigger] out@[k]) && p.canon(out@[k])
                    == p.canon(addr),
            listed_in(c0.graph, chunks@.take(i as int), out@, addr),
            apart(chunks@) ==> out@.no_duplicates(),
        decreases chunks.len() - i,
    {
        let ghost before = out@;
        let a = chunks[i].addr;
        proof {
            let next = chunks@.take(i + 1);
            assert(next.drop_last() =~= chunks@.take(i as int));
            assert(next.last() == chunks@[i as int]);
            assert(crate::heap::chunk::chunk_in(c0.graph, chunks@[i as int]));
            assert(crate::heap::chunk::chunk_in(p, chunks@[i as int]));
        }
        if p.find(a) == p.find(addr) && ctx.graph.find(a) != ctx.graph.find(addr) {
            out.push(a);
        }
        proof {
            let next = chunks@.take(i + 1);
            assert forall|k: int| 0 <= k < out@.len() implies is_listed(
                c0.graph,
                next,
                #[trigger] out@[k],
                addr,
            ) by {
                if k < before.len() {
                    assert(is_listed(c0.graph, chunks@.take(i as int), before[k], addr));
                    let j = choose|j: int|
                        0 <= j < i && (#[trigger] chunks@.take(i as int)[j]).addr == before[k];
                    assert(next[j].addr == before[k]);
                } else {
                    assert(next[i as int].addr == a);
                }
            }
            if apart(chunks@) {
                assert forall|k: int| 0 <= k < before.len() implies #[trigger] before[k] != a by {
                    assert(is_listed(c0.graph, chunks@.take(i as int), before[k], addr));
                    let j = choose|j: int|
                        0 <= j < i && (#[trigger] chunks@.take(i as int)[j]).addr == before[k];
                    assert(chunks@[j].addr != chunks@[i as int].addr);
                }
                assert forall|x: int, y: int| 0 <= x < out@.len() && 0 <= y < out@.len() && x
                    != y implies #[trigger] out@[x] != #[trigger] out@[y] by {
                    if x < before.len() && y < before.len() {
                        assert(before[x] != before[y]);
                    } else if x < before.len() {
                        assert(before[x] != a);
                    } else if y < before.len() {
                        assert(before[y] != a);
                    }
                }
            }
        }
        i += 1;
    }
    proof {
        assert(chunks@.take(chunks@.len() as int) =~= chunks@);
        let dss = seq![p.defs()];
        assert forall|k: int| 0 <= k < out@.len() implies aliased(
            c0.graph,
            c0.background(),
            pc@,
            #[trigger] out@[k],
            addr,
            dss,
        ) by {
            law_probed(c0, pc@, p, out@[k], addr);
        }
        assert(all_aliased(c0.graph, c0.background(), pc@, out@, addr, dss));
    }
    out
}

/// An address of a list that is not in the class of another.
pub open spec fn is_listed(g: Graph, cs: Seq<Chunk>, x: Id, addr: Id) -> bool {
    &&& g.canon(x) != g.canon(addr)
    &&& exists|j: int| 0 <= j < cs.len() && (#[trigger] cs[j]).addr == x
}

pub open spec fn listed_in(g: Graph, cs: Seq<Chunk>, xs: Seq<Id>, addr: Id) -> bool {
    forall|k: int| 0 <= k < xs.len() ==> is_listed(g, cs, #[trigger] xs[k], addr)
}

} // verus!
