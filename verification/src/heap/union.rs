//! Putting chunks into a heap.

use crate::context::{cube_in, lemma_cube_grows, lemma_leads_trans, Context};
use crate::graph::{lemma_same_class, Graph};
use crate::heap::bounds::{assume_location_axioms, keeps_bounds, location_facts, numbered};
use crate::heap::chunk::{chunk_in, chunk_share, lemma_chunk_grows, Chunk, Kinds};
use crate::heap::facts::{
    fresh_facts, group_fact, group_facts, joins, lemma_made_grows, lemma_reaches_follows,
    lemma_reaches_more, lemma_reaches_refl, lemma_reaches_trans, made_of, pair_facts, reaches,
    value_fact,
};
use crate::heap::gate::cube_on;
use crate::heap::groups::{
    apart, chunks_in, heap_in, law_with, law_without, lemma_chunks_grow, lemma_heap_grows,
    lemma_place, lemma_place_is, none_below, perms_sorted, place, total, with, without, Heap,
};
use crate::heap::join::{
    guards_match, law_merged, merge_chunks, merged_chunks, merged_in,
};
use crate::heap::perm::{perm_amt, perm_sorted, wild_in};
use crate::heap::sum::lemma_pair_reaches;
use crate::lang::Id;
use crate::model::{Model, Tm};
use crate::terms::lemma_grows_models;
use crate::vmir::{Polarity, Value};
use vstd::prelude::*;

verus! {

/// A chunk that is always there, without a wildcard.
pub open spec fn plain_chunk(c: Chunk) -> bool {
    c.guard@.len() == 0 && !wild_in(c.perm)
}

/// Every chunk is always there, without a wildcard.
pub open spec fn plain(cs: Seq<Chunk>) -> bool {
    forall|i: int| 0 <= i < cs.len() ==> plain_chunk(#[trigger] cs[i])
}

/// The chunk of its address in a list.
pub open spec fn holds_chunk(cs: Seq<Chunk>, c: Chunk) -> bool {
    place(cs, c.addr) < cs.len() && cs[place(cs, c.addr)] == c
}

pub proof fn lemma_member_holds(cs: Seq<Chunk>, i: int)
    requires
        apart(cs),
        0 <= i < cs.len(),
    ensures
        holds_chunk(cs, cs[i]),
{
    assert forall|k: int| 0 <= k < i implies (#[trigger] cs[k]).addr != cs[i].addr by {}
    lemma_place_is(cs, cs[i].addr, i);
}

pub proof fn lemma_without_keeps(cs: Seq<Chunk>, addr: Id, c: Chunk)
    requires
        apart(cs),
        apart(without(cs, addr)),
        holds_chunk(cs, c),
        c.addr != addr,
    ensures
        holds_chunk(without(cs, addr), c),
{
    lemma_place(cs, addr);
    lemma_place(cs, c.addr);
    let p = place(cs, addr);
    let q = place(cs, c.addr);
    if p < cs.len() {
        let all = without(cs, addr);
        let n = if q < p {
            q
        } else {
            q - 1
        };
        assert(all[n] == cs[q]);
        lemma_member_holds(all, n);
    }
}

/// Putting a chunk in leaves those at other addresses.
pub proof fn lemma_with_keeps(cs: Seq<Chunk>, put: Chunk, c: Chunk)
    requires
        apart(cs),
        holds_chunk(cs, c),
        c.addr != put.addr,
    ensures
        holds_chunk(with(cs, put), c),
{
    lemma_place(cs, c.addr);
    lemma_place(cs, put.addr);
    crate::heap::groups::lemma_with_apart(cs, put);
    let p = place(cs, c.addr);
    assert(with(cs, put)[p] == c);
    lemma_member_holds(with(cs, put), p);
}

pub proof fn lemma_without_plain(cs: Seq<Chunk>, addr: Id)
    requires
        plain(cs),
    ensures
        plain(without(cs, addr)),
{
    lemma_place(cs, addr);
    let p = place(cs, addr);
    let all = without(cs, addr);
    assert forall|i: int| 0 <= i < all.len() implies plain_chunk(#[trigger] all[i]) by {
        if p < cs.len() {
            assert(all[i] == cs[if i < p {
                i
            } else {
                i + 1
            }]);
        }
    }
}

pub proof fn lemma_with_plain(cs: Seq<Chunk>, c: Chunk)
    requires
        plain(cs),
        plain_chunk(c),
    ensures
        plain(with(cs, c)),
{
    lemma_place(cs, c.addr);
    let p = place(cs, c.addr);
    let all = with(cs, c);
    assert forall|i: int| 0 <= i < all.len() implies plain_chunk(#[trigger] all[i]) by {
        if i < cs.len() && i != p {
            assert(all[i] == cs[i]);
        }
    }
}

pub proof fn lemma_without_in(g: Graph, cs: Seq<Chunk>, addr: Id)
    requires
        chunks_in(g, cs),
    ensures
        chunks_in(g, without(cs, addr)),
{
    lemma_place(cs, addr);
    let p = place(cs, addr);
    let all = without(cs, addr);
    assert forall|i: int| 0 <= i < all.len() implies chunk_in(g, #[trigger] all[i]) by {
        if p < cs.len() {
            assert(all[i] == cs[if i < p {
                i
            } else {
                i + 1
            }]);
        }
    }
}

pub proof fn lemma_with_in(g: Graph, cs: Seq<Chunk>, c: Chunk)
    requires
        chunks_in(g, cs),
        chunk_in(g, c),
    ensures
        chunks_in(g, with(cs, c)),
{
    lemma_place(cs, c.addr);
    let p = place(cs, c.addr);
    let all = with(cs, c);
    assert forall|i: int| 0 <= i < all.len() implies chunk_in(g, #[trigger] all[i]) by {
        if i < cs.len() && i != p {
            assert(all[i] == cs[i]);
        }
    }
}

/// A heap with one group changed is in a graph.
pub proof fn lemma_heap_with(g: Graph, h: Heap, r: Heap, kind: usize)
    requires
        heap_in(g, h),
        chunks_in(g, r.group(kind)),
        forall|k: usize| k != kind ==> #[trigger] r.group(k) == h.group(k),
    ensures
        heap_in(g, r),
{
    assert forall|k: usize| chunks_in(g, #[trigger] r.group(k)) by {
        if k != kind {
            assert(chunks_in(g, h.group(k)));
        }
    }
}

/// The places of the chunks at an address of a class, in turn.
pub open spec fn matching(g: Graph, cs: Seq<Chunk>, addr: Id, ix: Seq<usize>) -> bool {
    &&& forall|a: int, b: int| 0 <= a < b < ix.len() ==> #[trigger] ix[a] < #[trigger] ix[b]
    &&& forall|a: int|
        0 <= a < ix.len() ==> (#[trigger] ix[a]) < cs.len() && g.canon(cs[ix[a] as int].addr)
            == g.canon(addr)
    &&& forall|i: int|
        0 <= i < cs.len() && g.canon((#[trigger] cs[i]).addr) == g.canon(addr) ==> ix.contains(
            i as usize,
        )
}

fn find_matching(g: &Graph, cs: &Vec<Chunk>, addr: Id) -> (r: Vec<usize>)
    requires
        g.wf(),
        g.has(addr),
        chunks_in(*g, cs@),
    ensures
        matching(*g, cs@, addr, r@),
{
    let c = g.find(addr);
    let mut out: Vec<usize> = Vec::new();
    let mut i: usize = 0;
    while i < cs.len()
        invariant
            i <= cs@.len(),
            g.wf(),
            c == g.canon(addr),
            chunks_in(*g, cs@),
            forall|a: int, b: int| 0 <= a < b < out@.len() ==> #[trigger] out@[a] < #[trigger] out@[b],
            forall|a: int|
                0 <= a < out@.len() ==> (#[trigger] out@[a]) < i && g.canon(
                    cs@[out@[a] as int].addr,
                ) == c,
            forall|k: int|
                0 <= k < i && g.canon((#[trigger] cs@[k]).addr) == c ==> out@.contains(k as usize),
        decreases cs.len() - i,
    {
        let ghost had = out@;
        proof {
            assert(chunk_in(*g, cs@[i as int]));
        }
        if g.find(cs[i].addr) == c {
            out.push(i);
            proof {
                assert forall|k: int|
                    0 <= k < i + 1 && g.canon((#[trigger] cs@[k]).addr) == c implies out@.contains(
                    k as usize,
                ) by {
                    if k < i {
                        assert(had.contains(k as usize));
                        let n = choose|n: int| 0 <= n < had.len() && had[n] == k as usize;
                        assert(out@[n] == k as usize);
                    } else {
                        assert(out@[had.len() as int] == k as usize);
                    }
                }
            }
        }
        i += 1;
    }
    out
}

/// What a location gets from a list is the same in every model.
pub open spec fn same_total(g: Graph, r: Seq<Chunk>, cs: Seq<Chunk>) -> bool {
    g.full() || forall|m: Model, loc: Value|
        #![trigger total(m, r, loc), g.models(m)]
        g.models(m) ==> total(m, r, loc) == total(m, cs, loc)
}

/// Two addresses are one location in every model.
pub open spec fn same_place(g: Graph, a: Id, b: Id) -> bool {
    g.full() || forall|m: Model| #[trigger] g.models(m) ==> m.at(a) == m.at(b)
}

/// Where the conditions of one list are booleans, so are those of the other, and where
/// no amount of one is negative, none of the other is.
pub open spec fn as_sound(g: Graph, r: Seq<Chunk>, cs: Seq<Chunk>) -> bool {
    &&& forall|m: Model| perms_sorted(m, cs) ==> #[trigger] perms_sorted(m, r)
    &&& g.full() || forall|m: Model| #[trigger]
        g.models(m) && none_below(m, cs) ==> none_below(m, r)
}

/// A heap in which the chunks at an address became one.
pub open spec fn consolidated(
    g: Graph,
    h: Heap,
    kind: usize,
    addr: Id,
    out: Heap,
    r: Option<Chunk>,
) -> bool {
    &&& heap_in(g, out)
    &&& forall|k: usize| k != kind ==> #[trigger] out.group(k) == h.group(k)
    &&& apart(out.group(kind))
    &&& match r {
        None => out.group(kind) == h.group(kind) && forall|i: int|
            0 <= i < h.group(kind).len() ==> g.canon((#[trigger] h.group(kind)[i]).addr)
                != g.canon(addr),
        Some(c) => {
            &&& h.group(kind).len() > 0
            &&& chunk_in(g, c)
            &&& holds_chunk(out.group(kind), c)
            &&& g.canon(c.addr) == g.canon(addr)
            &&& same_place(g, c.addr, addr)
            &&& exists|i: int| 0 <= i < h.group(kind).len() && (#[trigger] h.group(kind)[i]).addr
                == c.addr
            &&& forall|i: int| #[trigger]
                sole_canon(g, h.group(kind), addr, i) ==> c == h.group(kind)[i] && out.group(kind)
                    == h.group(kind)
            &&& forall|i: int|
                0 <= i < h.group(kind).len() && g.canon((#[trigger] h.group(kind)[i]).addr)
                    != g.canon(addr) ==> holds_chunk(out.group(kind), h.group(kind)[i])
            &&& plain(h.group(kind)) ==> plain(out.group(kind)) && same_total(
                g,
                out.group(kind),
                h.group(kind),
            ) && as_sound(g, out.group(kind), h.group(kind))
        },
    }
}

/// What is left of a group while its chunks at one address are merged: the merged
/// chunk stands for the first of them and those that were taken out.
spec fn half_merged(
    g: Graph,
    cs: Seq<Chunk>,
    out: Seq<Chunk>,
    first: Chunk,
    acc: Chunk,
) -> bool {
    plain(cs) ==> {
        &&& plain(out)
        &&& plain_chunk(acc)
        &&& forall|i: int| 0 <= i < out.len() ==> cs.contains(#[trigger] out[i])
        &&& forall|m: Model| perms_sorted(m, cs) ==> #[trigger] perm_sorted(m, acc.perm)
        &&& g.full() || forall|m: Model| #[trigger]
            g.models(m) && none_below(m, cs) ==> perm_amt(m, acc.perm) >= 0 as real
        &&& g.full() || forall|m: Model, loc: Value|
            #![trigger total(m, out, loc), g.models(m)]
            g.models(m) ==> total(m, out, loc) - chunk_share(m, first, loc) + chunk_share(
                m,
                acc,
                loc,
            ) == total(m, cs, loc)
    }
}

proof fn lemma_half_merged(
    g: Graph,
    h: Graph,
    cs: Seq<Chunk>,
    out: Seq<Chunk>,
    first: Chunk,
    acc: Chunk,
    next: Chunk,
    r: Chunk,
    pc: Seq<(Id, Polarity)>,
)
    requires
        g.wf(),
        g.grows_to(h),
        apart(out),
        half_merged(g, cs, out, first, acc),
        holds_chunk(out, next),
        plain(cs) ==> plain_chunk(next),
        same_place(h, first.addr, next.addr),
        acc.addr == first.addr,
        r.addr == acc.addr,
        merged_chunks(h, guards_match(g, acc, next), pc, acc, next, r),
        !wild_in(acc.perm) && !wild_in(next.perm) ==> !wild_in(r.perm),
        !wild_in(acc.perm) && !wild_in(next.perm) && guards_match(g, acc, next) ==> forall|m: Model|
            perm_sorted(m, acc.perm) && perm_sorted(m, next.perm) ==> #[trigger] perm_sorted(
                m,
                r.perm,
            ),
    ensures
        half_merged(h, cs, without(out, next.addr), first, r),
{
    if plain(cs) {
        lemma_without_plain(out, next.addr);
        let one = guards_match(g, acc, next);
        let kept = without(out, next.addr);
        lemma_place(out, next.addr);
        assert(cs.contains(next)) by {
            assert(out[place(out, next.addr)] == next);
        }
        let at = choose|k: int| 0 <= k < cs.len() && cs[k] == next;
        assert forall|i: int| 0 <= i < kept.len() implies cs.contains(#[trigger] kept[i]) by {
            let p = place(out, next.addr);
            if i < p {
                assert(kept[i] == out[i]);
            } else {
                assert(kept[i] == out[i + 1]);
            }
        }
        assert forall|m: Model| perms_sorted(m, cs) implies #[trigger] perm_sorted(m, r.perm) by {
            assert(perm_sorted(m, cs[at].perm));
            assert(perm_sorted(m, acc.perm));
        }
        if !h.full() {
            assert forall|m: Model| #[trigger] h.models(m) && none_below(m, cs) implies perm_amt(
                m,
                r.perm,
            ) >= 0 as real by {
                lemma_grows_models(g, h, m);
                assert(perm_amt(m, cs[at].perm) >= 0 as real);
                assert(merged_in(m, one, pc, acc, next, r));
            }
            assert forall|m: Model, loc: Value|
                #![trigger total(m, without(out, next.addr), loc), h.models(m)]
                h.models(m) implies total(m, without(out, next.addr), loc) - chunk_share(
                m,
                first,
                loc,
            ) + chunk_share(m, r, loc) == total(m, cs, loc) by {
                lemma_grows_models(g, h, m);
                law_without(m, out, next.addr, loc);
                assert(cube_on(m, acc.guard@) && cube_on(m, next.guard@));
                law_merged(h, m, one, pc, acc, next, r);
                assert(m.at(first.addr) == m.at(next.addr));
                assert(total(m, out, loc) - chunk_share(m, first, loc) + chunk_share(m, acc, loc)
                    == total(m, cs, loc));
            }
        }
    }
}

#[verifier::rlimit(60)]
proof fn lemma_with_sound(g: Graph, had: Seq<Chunk>, acc: Chunk, cs: Seq<Chunk>)
    requires
        forall|i: int| 0 <= i < had.len() ==> cs.contains(#[trigger] had[i]),
        forall|m: Model| perms_sorted(m, cs) ==> #[trigger] perm_sorted(m, acc.perm),
        g.full() || forall|m: Model| #[trigger]
            g.models(m) && none_below(m, cs) ==> perm_amt(m, acc.perm) >= 0 as real,
    ensures
        as_sound(g, with(had, acc), cs),
{
    let r = with(had, acc);
    lemma_place(had, acc.addr);
    assert forall|m: Model| perms_sorted(m, cs) implies #[trigger] perms_sorted(m, r) by {
        assert forall|i: int| 0 <= i < r.len() implies perm_sorted(m, (#[trigger] r[i]).perm) by {
            assert(perm_sorted(m, acc.perm));
            if r[i] != acc {
                assert(cs.contains(had[i]));
                let k = choose|k: int| 0 <= k < cs.len() && cs[k] == had[i];
                assert(perm_sorted(m, cs[k].perm));
            }
        }
    }
    if !g.full() {
        assert forall|m: Model| #[trigger] g.models(m) && none_below(m, cs) implies none_below(
            m,
            r,
        ) by {
            assert forall|i: int| 0 <= i < r.len() implies perm_amt(m, (#[trigger] r[i]).perm)
                >= 0 as real by {
                if r[i] != acc {
                    assert(cs.contains(had[i]));
                    let k = choose|k: int| 0 <= k < cs.len() && cs[k] == had[i];
                    assert(perm_amt(m, cs[k].perm) >= 0 as real);
                }
            }
        }
    }
}

/// One chunk alone is in the class of an address.
pub open spec fn sole_canon(g: Graph, cs: Seq<Chunk>, addr: Id, i: int) -> bool {
    &&& 0 <= i < cs.len()
    &&& g.canon(cs[i].addr) == g.canon(addr)
    &&& forall|k: int|
        0 <= k < cs.len() && k != i ==> g.canon((#[trigger] cs[k]).addr) != g.canon(addr)
}

proof fn lemma_sole(g: Graph, cs: Seq<Chunk>, addr: Id, i: int, ix: Seq<usize>)
    requires
        matching(g, cs, addr, ix),
        sole_canon(g, cs, addr, i),
    ensures
        ix == seq![i as usize],
{
    assert(g.canon(cs[i].addr) == g.canon(addr));
    assert(ix.contains(i as usize));
    assert forall|a: int| 0 <= a < ix.len() implies #[trigger] ix[a] == i by {
        assert(g.canon(cs[ix[a] as int].addr) == g.canon(addr));
    }
    if ix.len() > 1 {
        assert(ix[0] < ix[1]);
    }
    assert(ix =~= seq![i as usize]);
}

/// Makes one chunk of those at an address, where classes became one since they were
/// put in, and gives it. Where there is none, the reductions may be run to look once
/// more.
pub fn find_chunk_consolidated(
    ctx: &mut Context,
    h: &Heap,
    kind: usize,
    addr: Id,
    pc: &Vec<(Id, Polarity)>,
    retry: bool,
) -> (r: (Heap, Option<Chunk>))
    requires
        old(ctx).wf(),
        old(ctx).graph.has(addr),
        heap_in(old(ctx).graph, *h),
        cube_in(old(ctx).graph, pc@),
    ensures
        reaches(
            *old(ctx),
            *final(ctx),
            group_facts(pc@, h.group(kind), old(ctx).next_fresh),
        ),
        forall|c: Chunk|
            r.1 == Some(c) ==> exists|n: nat| #[trigger]
                made_of(final(ctx).graph, pc@, h.group(kind), c, n),
        consolidated(final(ctx).graph, *h, kind, addr, r.0, r.1),
        forall|i: int| #[trigger]
            sole_canon(old(ctx).graph, h.group(kind), addr, i) ==> {
                &&& *final(ctx) == *old(ctx)
                &&& r.1 == Some(h.group(kind)[i])
                &&& r.0.group(kind) == h.group(kind)
            },
{
    let ghost c0 = *ctx;
    let cs = h.chunks_of(kind);
    proof {
        assert(chunks_in(c0.graph, h.group(kind)));
        lemma_reaches_refl(c0);
    }
    let mut found = find_matching(&ctx.graph, &cs, addr);
    proof {
        assert forall|i: int| #[trigger] sole_canon(c0.graph, cs@, addr, i) implies found@ == seq![
            i as usize,
        ] by {
            lemma_sole(c0.graph, cs@, addr, i, found@);
        }
    }
    if found.len() == 0 && retry {
        ctx.reduce();
        proof {
            lemma_reaches_follows(c0, *ctx);
            lemma_chunks_grow(c0.graph, ctx.graph, cs@);
        }
        found = find_matching(&ctx.graph, &cs, addr);
    }
    let ghost c1 = *ctx;
    proof {
        lemma_heap_grows(c0.graph, c1.graph, *h);
        assert(chunks_in(c1.graph, cs@));
    }
    if found.len() == 0 {
        let out = h.copy();
        let r = (out, None);
        proof {
            lemma_heap_with(c1.graph, *h, r.0, kind);
            assert forall|i: int| 0 <= i < h.group(kind).len() implies c1.graph.canon(
                (#[trigger] h.group(kind)[i]).addr,
            ) != c1.graph.canon(addr) by {
                if c1.graph.canon(cs@[i].addr) == c1.graph.canon(addr) {
                    assert(found@.contains(i as usize));
                }
            }
        }
        return r;
    }
    let ghost ix = found@;
    let ghost fs = group_facts(pc@, cs@, c0.next_fresh);
    let at = found[0];
    proof {
        assert(ix[0] < cs@.len());
    }
    let first = cs[at].copy();
    let ghost first0 = first;
    proof {
        assert(chunk_in(c1.graph, cs@[at as int]));
        lemma_member_holds(cs@, at as int);
    }
    let mut out = h.copy();
    let mut acc = first.copy();
    let mut n: usize = 1;
    proof {
        lemma_reaches_refl(c1);
        assert(cs@.contains(acc));
        lemma_heap_with(c1.graph, *h, out, kind);
        assert forall|j: int| n <= j < ix.len() implies holds_chunk(
            out.group(kind),
            cs@[#[trigger] ix[j] as int],
        ) by {
            lemma_member_holds(cs@, ix[j] as int);
        }
        assert forall|i: int|
            0 <= i < cs@.len() && c1.graph.canon((#[trigger] cs@[i]).addr) != c1.graph.canon(
                addr,
            ) implies holds_chunk(out.group(kind), cs@[i]) by {
            lemma_member_holds(cs@, i);
        }
    }
    while n < found.len()
        invariant
            1 <= n <= found@.len(),
            found@ == ix,
            c1.wf(),
            ctx.wf(),
            reaches(c1, *ctx, fs),
            fs == group_facts(pc@, cs@, c0.next_fresh),
            c0.leads_to(c1),
            made_of(ctx.graph, pc@, cs@, acc, n as nat),
            c1.graph.has(addr),
            cube_in(c1.graph, pc@),
            cs@ == h.group(kind),
            apart(cs@),
            chunks_in(c1.graph, cs@),
            matching(c1.graph, cs@, addr, ix),
            first0 == cs@[ix[0] as int],
            acc.addr == first0.addr,
            chunk_in(ctx.graph, acc),
            heap_in(ctx.graph, out),
            apart(out.group(kind)),
            holds_chunk(out.group(kind), first0),
            forall|j: int|
                n <= j < ix.len() ==> holds_chunk(
                    out.group(kind),
                    cs@[#[trigger] ix[j] as int],
                ),
            forall|i: int|
                0 <= i < cs@.len() && c1.graph.canon((#[trigger] cs@[i]).addr) != c1.graph.canon(
                    addr,
                ) ==> holds_chunk(out.group(kind), cs@[i]),
            forall|k: usize| k != kind ==> #[trigger] out.group(k) == h.group(k),
            half_merged(ctx.graph, cs@, out.group(kind), first0, acc),
            n == 1 ==> *ctx == c1 && acc == first0 && out.group(kind) == cs@,
        decreases found.len() - n,
    {
        let ghost c2 = *ctx;
        let ghost had = out.group(kind);
        let ghost old_acc = acc;
        let ghost old_out = out;
        proof {
            assert(ix[n as int] < cs@.len());
            assert(ix[0] < ix[n as int]);
            assert(chunk_in(c1.graph, cs@[ix[n as int] as int]));
            assert(chunk_in(c1.graph, cs@[ix[0] as int]));
            assert(first0.addr != cs@[ix[n as int] as int].addr);
            lemma_chunk_grows(c1.graph, c2.graph, cs@[ix[n as int] as int]);
            lemma_cube_grows(c1.graph, c2.graph, pc@);
            assert(chunk_in(c2.graph, acc));
        }
        let next = &cs[found[n]];
        out = out.without_chunk(kind, next.addr);
        let merged = merge_chunks(ctx, acc.addr, &acc, next, pc);
        acc = merged;
        proof {
            let g = ctx.graph;
            lemma_leads_trans(c0, c1, c2);
            lemma_chunks_grow(c1.graph, c2.graph, cs@);
            assert(cs@.contains(*next));
            assert(c2.graph.canon(old_acc.addr) == c2.graph.canon(next.addr));
            lemma_pair_reaches(c0, c2, *ctx, pc@, cs@, old_acc, *next, n as nat);
            lemma_reaches_trans(c1, c2, *ctx);
            lemma_made_grows(c2.graph, ctx.graph, pc@, cs@, old_acc, n as nat);
            assert(ctx.graph.canon(old_acc.addr) == ctx.graph.canon(next.addr));
            assert(joins(ctx.graph, pc@, old_acc, *next, acc));
            assert(made_of(ctx.graph, pc@, cs@, acc, (n + 1) as nat));
            if !g.full() {
                assert forall|m: Model| #[trigger] g.models(m) implies m.at(first0.addr) == m.at(
                    next.addr,
                ) by {
                    lemma_grows_models(c1.graph, g, m);
                    lemma_same_class(c1.graph, m, first0.addr, next.addr);
                }
            }
            if plain(cs@) {
                assert(plain_chunk(cs@[ix[n as int] as int]));
            }
            assert(holds_chunk(had, cs@[ix[n as int] as int]));
            lemma_half_merged(c2.graph, g, cs@, had, first0, old_acc, *next, acc, pc@);
            lemma_heap_grows(c2.graph, g, old_out);
            assert(chunks_in(g, old_out.group(kind)));
            lemma_without_in(g, had, next.addr);
            lemma_heap_with(g, old_out, out, kind);
            crate::heap::groups::lemma_without_apart(had, next.addr);
            lemma_without_keeps(had, next.addr, first0);
            assert forall|j: int| n + 1 <= j < ix.len() implies holds_chunk(
                out.group(kind),
                cs@[#[trigger] ix[j] as int],
            ) by {
                assert(ix[n as int] < ix[j]);
                assert(ix[j] < cs@.len());
                assert(holds_chunk(had, cs@[ix[j] as int]));
                assert(cs@[ix[n as int] as int].addr != cs@[ix[j] as int].addr);
                lemma_without_keeps(had, next.addr, cs@[ix[j] as int]);
            }
            assert forall|i: int|
                0 <= i < cs@.len() && c1.graph.canon((#[trigger] cs@[i]).addr) != c1.graph.canon(
                    addr,
                ) implies holds_chunk(out.group(kind), cs@[i]) by {
                assert(holds_chunk(had, cs@[i]));
                lemma_without_keeps(had, next.addr, cs@[i]);
            }
        }
        n += 1;
    }
    let ghost had = out.group(kind);
    let ghost before = out;
    let out = out.with_chunk(kind, acc.copy());
    let r = (out, Some(acc));
    proof {
        let g = ctx.graph;
        lemma_reaches_trans(c0, c1, *ctx);
        assert(chunks_in(g, before.group(kind)));
        lemma_with_in(g, had, acc);
        lemma_heap_with(g, before, r.0, kind);
        crate::heap::groups::lemma_with_apart(had, acc);
        lemma_place(had, acc.addr);
        let p = place(had, acc.addr);
        assert(with(had, acc)[p] == acc);
        lemma_member_holds(with(had, acc), p);
        assert(ix[0] < cs@.len());
        assert forall|i: int|
            0 <= i < cs@.len() && g.canon((#[trigger] cs@[i]).addr) != g.canon(
                addr,
            ) implies holds_chunk(r.0.group(kind), cs@[i]) by {
            assert(chunk_in(c1.graph, cs@[i]));
            assert(chunk_in(c1.graph, cs@[ix[0] as int]));
            assert(holds_chunk(had, cs@[i]));
            assert(c1.graph.canon(cs@[ix[0] as int].addr) == c1.graph.canon(addr));
            lemma_with_keeps(had, acc, cs@[i]);
        }
        assert forall|i: int| #[trigger] sole_canon(c0.graph, cs@, addr, i) implies *ctx == c0
            && acc == cs@[i] && r.0.group(kind) == cs@ by {
            assert(ix == seq![i as usize]);
            assert(ix[0] == i as usize);
            assert(with(cs@, acc) =~= cs@);
        }
        assert(cs@[ix[0] as int].addr == acc.addr);
        assert forall|i: int| #[trigger] sole_canon(g, cs@, addr, i) implies acc == cs@[i]
            && r.0.group(kind) == cs@ by {
            assert forall|a: int| 0 <= a < ix.len() implies #[trigger] ix[a] == i by {
                assert(ix[a] < cs@.len());
                assert(chunk_in(c1.graph, cs@[ix[a] as int]));
                assert(c1.graph.canon(cs@[ix[a] as int].addr) == c1.graph.canon(addr));
                assert(g.canon(cs@[ix[a] as int].addr) == g.canon(addr));
            }
            if ix.len() > 1 {
                assert(ix[0] < ix[1]);
            }
            assert(ix[0] == i);
            assert(with(cs@, acc) =~= cs@);
        }
        if !g.full() {
            assert forall|m: Model| #[trigger] g.models(m) implies m.at(acc.addr) == m.at(addr) by {
                lemma_grows_models(c1.graph, g, m);
                assert(chunk_in(c1.graph, cs@[ix[0] as int]));
                lemma_same_class(c1.graph, m, acc.addr, addr);
            }
        }
        if plain(h.group(kind)) {
            lemma_with_plain(had, acc);
            lemma_with_sound(g, had, acc, cs@);
            if !g.full() {
                assert forall|m: Model, loc: Value|
                    #![trigger total(m, r.0.group(kind), loc), g.models(m)]
                    g.models(m) implies total(m, r.0.group(kind), loc) == total(
                    m,
                    h.group(kind),
                    loc,
                ) by {
                    law_with(m, had, acc, loc);
                    assert(total(m, had, loc) - chunk_share(m, first0, loc) + chunk_share(
                        m,
                        acc,
                        loc,
                    ) == total(m, cs@, loc));
                }
            }
        }
    }
    r
}

/// In every model a location gets what it got and what a chunk gives.
pub open spec fn gains(g: Graph, r: Seq<Chunk>, cs: Seq<Chunk>, c: Chunk) -> bool {
    g.full() || forall|m: Model, loc: Value|
        #![trigger total(m, r, loc), g.models(m)]
        g.models(m) ==> total(m, r, loc) == total(m, cs, loc) + chunk_share(m, c, loc)
}

/// A chunk was put into a group: merged with the chunk at its address, or added.
pub open spec fn put_chunk(
    g: Graph,
    k: Graph,
    pc: Seq<(Id, Polarity)>,
    cs: Seq<Chunk>,
    had: Option<Chunk>,
    c: Chunk,
    r: Seq<Chunk>,
) -> bool {
    match had {
        None => r == with(cs, c),
        Some(e) => exists|n: Chunk|
            {
                &&& n.addr == e.addr
                &&& #[trigger] merged_chunks(k, guards_match(g, e, c), pc, e, c, n)
                &&& r == with(cs, n)
            },
    }
}

/// What a longer list may assume.
pub proof fn lemma_group_push(pc: Seq<(Id, Polarity)>, cs: Seq<Chunk>, c: Chunk, k: u32)
    ensures
        group_facts(pc, cs, k).subset_of(group_facts(pc, cs.push(c), k)),
{
    let all = cs.push(c);
    assert forall|e: (Graph, (Tm, Tm))| group_facts(pc, cs, k).contains(e) implies group_facts(
        pc,
        all,
        k,
    ).contains(e) by {
        if group_fact(e.0, pc, cs, e.1) {
            let (a, b, n) = choose|a: Chunk, b: Chunk, n: nat|
                {
                    &&& #[trigger] made_of(e.0, pc, cs, a, n)
                    &&& cs.contains(b)
                    &&& e.0.canon(a.addr) == e.0.canon(b.addr)
                    &&& #[trigger] value_fact(e.0, pc, a, b, e.1)
                };
            lemma_made_push(e.0, pc, cs, c, a, n);
            let i = choose|i: int| 0 <= i < cs.len() && cs[i] == b;
            assert(all[i] == b);
        }
    }
}

pub proof fn lemma_made_push(
    g: Graph,
    pc: Seq<(Id, Polarity)>,
    cs: Seq<Chunk>,
    c: Chunk,
    a: Chunk,
    n: nat,
)
    requires
        made_of(g, pc, cs, a, n),
    ensures
        made_of(g, pc, cs.push(c), a, n),
    decreases n,
{
    let all = cs.push(c);
    if cs.contains(a) {
        let i = choose|i: int| 0 <= i < cs.len() && cs[i] == a;
        assert(all[i] == a);
    } else {
        let (x, y) = choose|x: Chunk, y: Chunk|
            {
                &&& made_of(g, pc, cs, x, (n - 1) as nat)
                &&& cs.contains(y)
                &&& g.canon(x.addr) == g.canon(y.addr)
                &&& #[trigger] joins(g, pc, x, y, a)
            };
        lemma_made_push(g, pc, cs, c, x, (n - 1) as nat);
        let i = choose|i: int| 0 <= i < cs.len() && cs[i] == y;
        assert(all[i] == y);
        assert(joins(g, pc, x, y, a));
    }
}

proof fn lemma_union_reaches(
    c0: Context,
    c1: Context,
    c2: Context,
    pc: Seq<(Id, Polarity)>,
    cs: Seq<Chunk>,
    had: Option<Chunk>,
    chunk: Chunk,
    put: Chunk,
)
    requires
        c0.wf(),
        reaches(c0, c1, group_facts(pc, cs, c0.next_fresh)),
        chunks_in(c1.graph, cs),
        chunk_in(c1.graph, chunk),
        match had {
            None => c2 == c1,
            Some(e) => {
                &&& exists|n: nat| #[trigger] made_of(c1.graph, pc, cs, e, n)
                &&& c1.graph.full() || c1.graph.canon(e.addr) == c1.graph.canon(chunk.addr)
                &&& reaches(c1, c2, pair_facts(pc, e, chunk) + fresh_facts(c1.next_fresh))
            },
        },
        had is Some ==> c1.graph.canon(had.unwrap().addr) == c1.graph.canon(chunk.addr),
    ensures
        reaches(c0, c1, group_facts(pc, cs.push(chunk), c0.next_fresh)),
        reaches(c1, c2, group_facts(pc, cs.push(chunk), c0.next_fresh)),
{
    let all = cs.push(chunk);
    lemma_group_push(pc, cs, chunk, c0.next_fresh);
    lemma_reaches_more(
        c0,
        c1,
        group_facts(pc, cs, c0.next_fresh),
        group_facts(pc, all, c0.next_fresh),
    );
    match had {
        None => {
            lemma_reaches_refl(c1);
        },
        Some(e) => {
            let n = choose|n: nat| #[trigger] made_of(c1.graph, pc, cs, e, n);
            lemma_made_push(c1.graph, pc, cs, chunk, e, n);
            assert(all[cs.len() as int] == chunk);
            assert forall|i: int| 0 <= i < all.len() implies chunk_in(
                c1.graph,
                #[trigger] all[i],
            ) by {
                if i < cs.len() {
                    assert(chunk_in(c1.graph, cs[i]));
                }
            }
            lemma_pair_reaches(c0, c1, c2, pc, all, e, chunk, n);
        },
    }
}

/// Puts a chunk into a heap, on a path. What the bounds of locations say is assumed.
pub fn heap_union(
    ctx: &mut Context,
    kinds: &Kinds,
    h: &Heap,
    kind: usize,
    chunk: Chunk,
    pc: &Vec<(Id, Polarity)>,
) -> (r: Heap)
    requires
        old(ctx).wf(),
        heap_in(old(ctx).graph, *h),
        chunk_in(old(ctx).graph, chunk),
        cube_in(old(ctx).graph, pc@),
        numbered(*kinds, *h),
        kind < kinds.list@.len(),
    ensures
        reaches(
            *old(ctx),
            *final(ctx),
            group_facts(pc@, h.group(kind).push(chunk), old(ctx).next_fresh) + location_facts(
                old(ctx).cube@,
                *kinds,
                r,
            ),
        ),
        heap_in(final(ctx).graph, r),
        numbered(*kinds, r),
        forall|k: usize| k != kind ==> #[trigger] r.group(k) == h.group(k),
        r.group(kind).len() > 0,
        keeps_bounds(final(ctx).graph, old(ctx).cube@, *kinds, r),
        exists|mid: Context, k: Context, out: Heap, had: Option<Chunk>|
            {
                &&& reaches(
                    *old(ctx),
                    mid,
                    group_facts(pc@, h.group(kind), old(ctx).next_fresh),
                )
                &&& #[trigger] consolidated(mid.graph, *h, kind, chunk.addr, out, had)
                &&& reaches(
                    mid,
                    k,
                    group_facts(pc@, h.group(kind).push(chunk), old(ctx).next_fresh),
                )
                &&& #[trigger] put_chunk(
                    mid.graph,
                    k.graph,
                    pc@,
                    out.group(kind),
                    had,
                    chunk,
                    r.group(kind),
                )
                &&& reaches(k, *final(ctx), location_facts(old(ctx).cube@, *kinds, r))
            },
        plain(h.group(kind)) && plain_chunk(chunk) ==> plain(r.group(kind)) && gains(
            final(ctx).graph,
            r.group(kind),
            h.group(kind),
            chunk,
        ),
{
    let ghost c0 = *ctx;
    let (out, had) = find_chunk_consolidated(ctx, h, kind, chunk.addr, pc, false);
    let ghost c1 = *ctx;
    proof {
        lemma_chunk_grows(c0.graph, c1.graph, chunk);
        lemma_cube_grows(c0.graph, c1.graph, pc@);
        lemma_reaches_refl(c1);
    }
    let put = match &had {
        Some(e) => merge_chunks(ctx, e.addr, e, &chunk, pc),
        None => chunk.copy(),
    };
    let ghost c2 = *ctx;
    let r = out.with_chunk(kind, put.copy());
    proof {
        lemma_chunks_grow(c0.graph, c1.graph, h.group(kind));
        lemma_union_reaches(c0, c1, c2, pc@, h.group(kind), had, chunk, put);
        lemma_reaches_trans(c0, c1, c2);
        lemma_heap_grows(c1.graph, c2.graph, out);
        assert(chunks_in(c2.graph, out.group(kind)));
        lemma_chunk_grows(c0.graph, c2.graph, chunk);
        lemma_with_in(c2.graph, out.group(kind), put);
        lemma_heap_with(c2.graph, out, r, kind);
        lemma_place(out.group(kind), put.addr);
        assert forall|k: usize| (#[trigger] r.group(k)).len() > 0 implies k < kinds.list@.len() by {
            if k != kind {
                assert(r.group(k) == out.group(k));
                assert(out.group(k) == h.group(k));
            }
        }
        assert(put_chunk(
            c1.graph,
            c2.graph,
            pc@,
            out.group(kind),
            had,
            chunk,
            r.group(kind),
        ));
    }
    assume_location_axioms(ctx, kinds, &r);
    proof {
        let g = ctx.graph;
        lemma_leads_trans(c1, c2, *ctx);
        let small = group_facts(pc@, h.group(kind).push(chunk), c0.next_fresh);
        let big = small + location_facts(c0.cube@, *kinds, r);
        lemma_reaches_more(c0, c2, small, big);
        lemma_reaches_more(c2, *ctx, location_facts(c0.cube@, *kinds, r), big);
        lemma_reaches_trans(c0, c2, *ctx);
        lemma_heap_grows(c2.graph, g, r);
        lemma_leads_trans(c0, c2, *ctx);
        assert(c2.cube == c0.cube);
        if plain(h.group(kind)) && plain_chunk(chunk) {
            lemma_union_gains(
                c1.graph,
                c2.graph,
                g,
                pc@,
                h.group(kind),
                out.group(kind),
                had,
                chunk,
                put,
                r.group(kind),
            );
        }
    }
    r
}

proof fn lemma_union_gains(
    g: Graph,
    k: Graph,
    f: Graph,
    pc: Seq<(Id, Polarity)>,
    cs: Seq<Chunk>,
    out: Seq<Chunk>,
    had: Option<Chunk>,
    c: Chunk,
    put: Chunk,
    r: Seq<Chunk>,
)
    requires
        g.wf(),
        g.grows_to(k),
        k.grows_to(f),
        plain(cs),
        plain_chunk(c),
        apart(out),
        r == with(out, put),
        had is None ==> out == cs && put == c && forall|i: int|
            0 <= i < cs.len() ==> g.canon((#[trigger] cs[i]).addr) != g.canon(c.addr),
        had matches Some(e) ==> {
            &&& plain(out)
            &&& same_total(g, out, cs)
            &&& holds_chunk(out, e)
            &&& same_place(g, e.addr, c.addr)
            &&& put.addr == e.addr
            &&& merged_chunks(k, guards_match(g, e, c), pc, e, c, put)
            &&& (!wild_in(e.perm) && !wild_in(c.perm) ==> !wild_in(put.perm))
        },
    ensures
        plain(r),
        gains(f, r, cs, c),
{
    lemma_place(out, put.addr);
    match had {
        None => {
            lemma_with_plain(out, put);
            let p = place(out, put.addr);
            if p < out.len() {
                assert(g.canon(cs[p].addr) != g.canon(c.addr));
            }
            if !f.full() {
                assert forall|m: Model, loc: Value|
                    #![trigger total(m, r, loc), f.models(m)]
                    f.models(m) implies total(m, r, loc) == total(m, cs, loc) + chunk_share(
                    m,
                    c,
                    loc,
                ) by {
                    law_with(m, out, put, loc);
                }
            }
        },
        Some(e) => {
            let p = place(out, e.addr);
            assert(plain_chunk(out[p]));
            lemma_with_plain(out, put);
            let one = guards_match(g, e, c);
            if !f.full() {
                assert forall|m: Model, loc: Value|
                    #![trigger total(m, r, loc), f.models(m)]
                    f.models(m) implies total(m, r, loc) == total(m, cs, loc) + chunk_share(
                    m,
                    c,
                    loc,
                ) by {
                    lemma_grows_models(k, f, m);
                    lemma_grows_models(g, k, m);
                    law_with(m, out, put, loc);
                    assert(cube_on(m, e.guard@) && cube_on(m, c.guard@));
                    law_merged(k, m, one, pc, e, c, put);
                    assert(m.at(e.addr) == m.at(c.addr));
                    assert(total(m, out, loc) == total(m, cs, loc));
                }
            }
        },
    }
}

} // verus!
