//! Taking chunks out of a heap.

use crate::context::{builds, cube_holds, cube_in, lemma_cube_grows, lemma_leads_trans, Context};
use crate::graph::Graph;
use crate::heap::alias::{
    aliased, is_listed, law_probed, listed_in, partners_of, pc_alias_partners,
};
use crate::heap::chunk::{chunk_amt, chunk_in, chunk_share, lemma_chunk_grows, Chunk};
use crate::heap::debit::{
    debit_direct, debit_wildcard_walk, debited, law_debited, no_demand,
    normalize_guard_for_consume, prove_no_demand, readied, unmet_wild, wild_taken,
};
use crate::heap::enough::{
    answered, covers_need, is_enough, known_enough, prove_sufficient_aligned, unmet_need,
    unmet_perm, Ask,
};
use crate::heap::facts::{
    deduces, fresh_facts, group_facts, lemma_group_take, lemma_made_grows, lemma_reaches_extended, lemma_reaches_follows,
    lemma_reaches_more, lemma_reaches_refl, lemma_reaches_trans, lemma_take_reaches, made_of, cube_meets, lemma_reaches_since, meets_on, only,
    reaches, since, take_facts, taken_fact,
};
use crate::heap::gate::cube_on;
use crate::heap::groups::{
    apart, chunks_in, first_canon, heap_in, lemma_heap_grows, none_below, perms_sorted, place,
    total, with, Heap,
};
use crate::heap::join::lemma_to_id;
use crate::heap::perm::{
    lemma_perm_grows, perm_amt, perm_in, perm_sorted, perm_tm, wild_in, ChunkPerm,
};
use crate::heap::spread::{
    heap_subtract_summarized, member_facts, value_facts, law_left, law_spread, law_taken_at, spread_over, sum_on, taken_at,
};
use crate::heap::summary::{
    alias_members, all_fit, all_listed, chunks_of_set, cube_fits, drawn_from, guards_sorted,
    is_first_at, lemma_members_grow, lists_addr, members_in, pc_alias_set, sum_perms, sum_sorted, summarize_perm_at,
    sums_at, sums_perms, unguarded, Member,
};
use crate::heap::union::{
    as_sound, consolidated, find_chunk_consolidated, gains, holds_chunk, lemma_heap_with,
    lemma_member_holds, lemma_with_in, plain, plain_chunk, same_place, same_total, sole_canon,
};
use crate::lang::Id;
use crate::method::error::VerifyError;
use crate::method::merge::amount;
use crate::method::subtract::same_fact;
use crate::model::{t_ltr, t_not, t_real, Model, Tm};
use crate::nums::{Int, Rat};
use crate::prove::{probed, unshown};
use crate::rewrite::learned::fits;
use crate::rewrite::rules::stepped;
use crate::terms::{lemma_grows_denotes, lemma_grows_models};
use crate::vmir::{Polarity, Value};
use vstd::prelude::*;

verus! {

/// What kind of permission is demanded.
#[derive(Clone, Copy, Debug, PartialEq, Eq, Structural)]
pub enum Demand {
    /// A fixed amount.
    Concrete,
    /// Some amount: a wildcard is part of it.
    Wildcard,
}

/// Whether a search for a chunk may still run all rules and start over.
#[derive(Clone, Copy, Debug)]
pub enum ConsumePass {
    First,
    /// The second try. Where the rules changed nothing, what the first try could not
    /// prove is not tried again.
    Retry { zero_demand_settled: bool },
}

/// A model on the path in which amounts make sense: conditions are booleans, and no
/// amount is negative.
pub open spec fn fair(m: Model, pc: Seq<(Id, Polarity)>, cs: Seq<Chunk>, c: Chunk) -> bool {
    &&& cube_holds(m, pc)
    &&& perms_sorted(m, cs)
    &&& perm_sorted(m, c.perm)
    &&& none_below(m, cs)
    &&& perm_amt(m, c.perm) >= 0 as real
}

/// Each location has what it had, without what a chunk took there.
pub open spec fn taken_off(m: Model, cs: Seq<Chunk>, c: Chunk, r: Seq<Chunk>) -> bool {
    forall|loc: Value| #[trigger]
        total(m, r, loc) == total(m, cs, loc) - chunk_share(m, c, loc)
}

/// In every fair model that meets a condition, a chunk was taken off.
pub open spec fn taken_off_in(
    g: Graph,
    b: spec_fn(Model) -> bool,
    pc: Seq<(Id, Polarity)>,
    cs: Seq<Chunk>,
    c: Chunk,
    r: Seq<Chunk>,
) -> bool {
    g.full() || forall|m: Model| #[trigger]
        g.models(m) && b(m) && fair(m, pc, cs, c) ==> taken_off(m, cs, c, r)
}

/// No two chunks are in one class.
pub open spec fn classes_apart(g: Graph, cs: Seq<Chunk>) -> bool {
    forall|i: int, j: int|
        0 <= i < j < cs.len() ==> g.canon((#[trigger] cs[i]).addr) != g.canon(
            (#[trigger] cs[j]).addr,
        )
}

/// The models in which what a probe shows holds.
pub open spec fn shown_by(c: Context, p: Graph) -> spec_fn(Model) -> bool {
    |m: Model| (c.background())(m) && fits(c.graph, m, p.defs())
}

/// In every fair model a chunk was taken off its location; or that is so where no two
/// chunks are in one class, maybe in those models alone in which what a probe of the
/// path shows holds.
pub open spec fn consumed(
    a: Context,
    b: Context,
    pc: Seq<(Id, Polarity)>,
    cs: Seq<Chunk>,
    c: Chunk,
    r: Seq<Chunk>,
) -> bool {
    ||| taken_off_in(b.graph, |m: Model| true, pc, cs, c, r)
    ||| classes_apart(b.graph, cs) ==> taken_off_in(b.graph, |m: Model| true, pc, cs, c, r)
        || exists|mid: Context, p: Graph|
        {
            &&& reaches(a, mid, take_facts(pc, cs, c, a.next_fresh))
            &&& mid.leads_to(b)
            &&& #[trigger] probed(mid, pc, p)
            &&& taken_off_in(b.graph, shown_by(mid, p), pc, cs, c, r)
        }
}

/// What consolidation keeps: the chunk that was found, the chunks of other classes,
/// and all totals.
pub open spec fn gathered(
    g: Graph,
    cs: Seq<Chunk>,
    addr: Id,
    out: Seq<Chunk>,
    had: Option<Chunk>,
) -> bool {
    &&& apart(out)
    &&& match had {
        None => out == cs,
        Some(c) => {
            &&& chunk_in(g, c)
            &&& holds_chunk(out, c)
            &&& g.canon(c.addr) == g.canon(addr)
            &&& same_place(g, c.addr, addr)
            &&& forall|i: int|
                0 <= i < cs.len() && g.canon((#[trigger] cs[i]).addr) != g.canon(addr)
                    ==> holds_chunk(out, cs[i])
            &&& plain(out)
            &&& same_total(g, out, cs)
            &&& as_sound(g, out, cs)
            &&& classes_apart(g, cs) ==> out == cs && cs.contains(c)
        },
    }
}

proof fn lemma_gathered_grows(
    g: Graph,
    h: Graph,
    cs: Seq<Chunk>,
    addr: Id,
    out: Seq<Chunk>,
    had: Option<Chunk>,
)
    requires
        g.wf(),
        stepped(g, h),
        g.has(addr),
        chunks_in(g, cs),
        gathered(g, cs, addr, out, had),
    ensures
        gathered(h, cs, addr, out, had),
{
    if let Some(c) = had {
        lemma_chunk_grows(g, h, c);
        if classes_apart(h, cs) {
            assert forall|i: int, j: int| 0 <= i < j < cs.len() implies g.canon(
                (#[trigger] cs[i]).addr,
            ) != g.canon((#[trigger] cs[j]).addr) by {
                assert(chunk_in(g, cs[i]));
                assert(chunk_in(g, cs[j]));
                assert(h.canon(cs[i].addr) != h.canon(cs[j].addr));
            }
        }
        assert forall|i: int|
            0 <= i < cs.len() && h.canon((#[trigger] cs[i]).addr) != h.canon(
                addr,
            ) implies holds_chunk(out, cs[i]) by {
            assert(chunk_in(g, cs[i]));
        }
        if !h.full() {
            assert forall|m: Model| #[trigger] h.models(m) implies m.at(c.addr) == m.at(addr) by {
                lemma_grows_models(g, h, m);
            }
            assert forall|m: Model, loc: Value|
                #![trigger total(m, out, loc), h.models(m)]
                h.models(m) implies total(m, out, loc) == total(m, cs, loc) by {
                lemma_grows_models(g, h, m);
            }
            assert forall|m: Model| #[trigger] h.models(m) && none_below(
                m,
                cs,
            ) implies none_below(m, out) by {
                lemma_grows_models(g, h, m);
            }
        }
    }
}

/// What consolidation finds in a plain group.
proof fn lemma_gathered(g: Graph, h: Heap, kind: usize, addr: Id, out: Heap, had: Option<Chunk>)
    requires
        consolidated(g, h, kind, addr, out, had),
        plain(h.group(kind)),
    ensures
        gathered(g, h.group(kind), addr, out.group(kind), had),
{
    let cs = h.group(kind);
    if let Some(c) = had {
        if classes_apart(g, cs) {
            let i = choose|i: int| 0 <= i < cs.len() && (#[trigger] cs[i]).addr == c.addr;
            assert forall|k: int| 0 <= k < cs.len() && k != i implies g.canon(
                (#[trigger] cs[k]).addr,
            ) != g.canon(addr) by {
                if k < i {
                    assert(g.canon(cs[k].addr) != g.canon(cs[i].addr));
                } else {
                    assert(g.canon(cs[i].addr) != g.canon(cs[k].addr));
                }
            }
            assert(sole_canon(g, cs, addr, i));
        }
    }
}

/// Members that have enough at the location of a chunk gave it what it demands.
proof fn lemma_spread_taken(
    g: Graph,
    m: Model,
    pc: Seq<(Id, Polarity)>,
    cs: Seq<Chunk>,
    c: Chunk,
    set: Seq<Member>,
    need: Id,
    r: Seq<Chunk>,
)
    requires
        !g.full(),
        g.models(m),
        apart(cs),
        plain(cs),
        plain_chunk(c),
        fair(m, pc, cs, c),
        drawn_from(set, cs),
        apart(chunks_of_set(set)),
        forall|i: int|
            0 <= i < set.len() && cube_holds(m, (#[trigger] set[i]).cube@) ==> m.at(
                set[i].chunk.addr,
            ) == m.at(c.addr),
        amount(m.at(need)) == perm_amt(m, c.perm),
        sum_on(m, set, set.len() as int) >= amount(m.at(need)),
        spread_over(g, cs, set, need, r),
    ensures
        taken_off(m, cs, c, r),
{
    let n = set.len() as int;
    let q = amount(m.at(need));
    assert forall|i: int| 0 <= i < set.len() implies holds_chunk(cs, (#[trigger] set[i]).chunk)
        && set[i].chunk.guard@.len() == 0 && perm_amt(m, set[i].chunk.perm) >= 0 as real by {
        assert(cs.contains(set[i].chunk));
        let k = choose|k: int| 0 <= k < cs.len() && cs[k] == set[i].chunk;
        lemma_member_holds(cs, k);
        assert(plain_chunk(cs[k]));
        assert(perm_amt(m, cs[k].perm) >= 0 as real);
    }
    law_left(m, set, n, q);
    law_taken_at(m, set, n, q, m.at(c.addr));
    assert forall|loc: Value| #[trigger]
        total(m, r, loc) == total(m, cs, loc) - chunk_share(m, c, loc) by {
        law_spread(g, m, cs, set, need, r, loc);
        if loc != m.at(c.addr) {
            assert(taken_at(m, set, n, q, loc) == 0 as real);
        }
    }
}

/// The members whose cubes hold are those at the address.
proof fn lemma_sum_at(m: Model, set: Seq<Member>, n: int, addr: Id)
    requires
        0 <= n <= set.len(),
        all_fit(m, set, addr),
        forall|i: int| 0 <= i < set.len() ==> (#[trigger] set[i]).chunk.guard@.len() == 0,
    ensures
        sum_on(m, set, n) == total(m, chunks_of_set(set).take(n), m.at(addr)),
    decreases n,
{
    let ks = chunks_of_set(set);
    if n > 0 {
        lemma_sum_at(m, set, n - 1, addr);
        assert(ks.take(n).drop_last() =~= ks.take(n - 1));
        assert(ks.take(n).last() == set[n - 1].chunk);
        assert(cube_fits(m, set[n - 1], addr));
        assert(set[n - 1].chunk.guard@.len() == 0);
    }
}

/// Where all cubes hold, the members have the sum of their amounts.
proof fn lemma_sum_all(m: Model, set: Seq<Member>, n: int)
    requires
        0 <= n <= set.len(),
        forall|i: int| 0 <= i < set.len() ==> cube_holds(m, (#[trigger] set[i]).cube@),
    ensures
        sum_on(m, set, n) == sum_perms(m, chunks_of_set(set).take(n)),
    decreases n,
{
    let ks = chunks_of_set(set);
    if n > 0 {
        lemma_sum_all(m, set, n - 1);
        assert(ks.take(n).drop_last() =~= ks.take(n - 1));
        assert(ks.take(n).last() == set[n - 1].chunk);
        assert(cube_holds(m, set[n - 1].cube@));
    }
}

proof fn lemma_partner(g: Graph, p: Graph, cs: Seq<Chunk>, addr: Id, k: int)
    requires
        0 <= k < partners_of(g, p, cs, addr).len(),
    ensures
        p.canon(partners_of(g, p, cs, addr)[k]) == p.canon(addr),
    decreases cs.len(),
{
    let rest = partners_of(g, p, cs.drop_last(), addr);
    if k < rest.len() {
        lemma_partner(g, p, cs.drop_last(), addr, k);
    }
}

/// Where no two chunks are in one class, the chunks that a demand may draw on are
/// different chunks of the group.
proof fn lemma_alias_apart(
    g: Graph,
    cs: Seq<Chunk>,
    existing: Option<Chunk>,
    partners: Seq<Id>,
    ks: Seq<Chunk>,
    addr: Id,
)
    requires
        apart(cs),
        classes_apart(g, cs),
        alias_members(g, cs, existing, partners, ks),
        listed_in(g, cs, partners, addr),
        partners.no_duplicates(),
        existing matches Some(e) ==> g.canon(e.addr) == g.canon(addr) && cs.contains(e),
    ensures
        apart(ks),
        forall|i: int| 0 <= i < ks.len() ==> cs.contains(#[trigger] ks[i]),
        forall|i: int|
            0 <= i < ks.len() ==> existing == Some(#[trigger] ks[i]) || partners.contains(
                ks[i].addr,
            ),
{
    let n: int = if existing is Some {
        1
    } else {
        0
    };
    assert forall|i: int| 0 <= i < partners.len() implies cs.contains(ks[n + i]) && ks[n + i].addr
        == #[trigger] partners[i] by {
        assert(is_first_at(g, cs, partners[i], ks[n + i]));
        let j = choose|j: int| #[trigger] first_canon(g, cs, partners[i], j) && cs[j] == ks[n + i];
        assert(is_listed(g, cs, partners[i], addr));
        let a = choose|a: int| 0 <= a < cs.len() && (#[trigger] cs[a]).addr == partners[i];
        if j < a {
            assert(g.canon(cs[j].addr) != g.canon(cs[a].addr));
        } else if a < j {
            assert(g.canon(cs[a].addr) != g.canon(cs[j].addr));
        }
        assert(cs[j] == ks[n + i]);
    }
    assert forall|i: int| 0 <= i < ks.len() implies cs.contains(#[trigger] ks[i]) && (existing
        == Some(ks[i]) || partners.contains(ks[i].addr)) by {
        if i >= n {
            let q = partners[i - n];
            assert(ks[n + (i - n)] == ks[i]);
            assert(partners[i - n] == ks[i].addr);
        }
    }
    assert forall|i: int, j: int| 0 <= i < j < ks.len() implies (#[trigger] ks[i]).addr != (
    #[trigger] ks[j]).addr by {
        let q = partners[j - n];
        assert(ks[n + (j - n)] == ks[j]);
        assert(is_listed(g, cs, partners[j - n], addr));
        if i < n {
        } else {
            let w = partners[i - n];
            assert(ks[n + (i - n)] == ks[i]);
            assert(partners[i - n] != partners[j - n]);
        }
    }
}

/// A demand was met by members whose sum is enough on the path.
pub open spec fn met_together(
    g: Graph,
    pc: Seq<(Id, Polarity)>,
    cs: Seq<Chunk>,
    need: Id,
    r: Seq<Chunk>,
) -> bool {
    exists|set: Seq<Member>, sum: ChunkPerm|
        {
            &&& #[trigger] spread_over(g, cs, set, need, r)
            &&& members_in(g, set)
            &&& #[trigger] perm_in(g, sum)
            &&& g.full() || answered(g, pc, sum, Ask::AtLeast(need))
        }
}

/// A chunk at an address has the value of one that chunks of a list became there.
pub open spec fn stands_for(
    g: Graph,
    pc: Seq<(Id, Polarity)>,
    cs: Seq<Chunk>,
    e: Chunk,
    addr: Id,
) -> bool {
    g.canon(e.addr) == g.canon(addr) && exists|x: Chunk, n: nat| #[trigger]
        made_of(g, pc, cs, x, n) && x.addr == e.addr && x.value == e.value
}

proof fn lemma_alias_reaches(
    c0: Context,
    c2: Context,
    c3: Context,
    pc: Seq<(Id, Polarity)>,
    cs: Seq<Chunk>,
    c: Chunk,
    had: Option<Chunk>,
    partners: Seq<Id>,
    set: Seq<Member>,
)
    requires
        c0.wf(),
        c0.leads_to(c2),
        chunks_in(c0.graph, cs),
        chunk_in(c0.graph, c),
        exists|p: Graph| #[trigger]
            probed(c0, pc, p) && partners == partners_of(c0.graph, p, cs, c.addr),
        listed_in(c0.graph, cs, partners, c.addr),
        forall|i: int| 0 <= i < set.len() ==> (#[trigger] set[i]).cube@ == pc,
        alias_members(c0.graph, cs, had, partners, chunks_of_set(set)),
        had matches Some(e) ==> chunk_in(c0.graph, e) && stands_for(c0.graph, pc, cs, e, c.addr),
        reaches(c2, c3, member_facts(set, c.value)),
    ensures
        reaches(c2, c3, take_facts(pc, cs, c, c0.next_fresh)),
{
    let big = take_facts(pc, cs, c, c0.next_fresh);
    let small = member_facts(set, c.value);
    lemma_reaches_since(c2, c3, small);
    let mid = since(c2, small);
    let p = choose|p: Graph| #[trigger]
        probed(c0, pc, p) && partners == partners_of(c0.graph, p, cs, c.addr);
    let ks = chunks_of_set(set);
    assert forall|e: (Graph, (Tm, Tm))| mid.contains(e) implies big.contains(e) by {
        let i = choose|i: int|
            0 <= i < set.len() && e.1 == #[trigger] value_facts(set, c.value)[i];
        crate::rewrite::rules::lemma_stepped_trans(c0.graph, c2.graph, e.0);
        let k = ks[i];
        assert(k == set[i].chunk);
        assert(set[i].cube@ == pc);
        if had is Some && i == 0 {
            let h = had.unwrap();
            let (x, n) = choose|x: Chunk, n: nat| #[trigger]
                made_of(c0.graph, pc, cs, x, n) && x.addr == h.addr && x.value == h.value;
            lemma_made_grows(c0.graph, e.0, pc, cs, x, n);
            assert(p.canon(h.addr) == p.canon(c.addr));
            assert(meets_on(e.0, pc, x, c));
            assert(taken_fact(e.0, pc, cs, c, e.1));
        } else {
            let n: int = if had is Some {
                1
            } else {
                0
            };
            let j = i - n;
            assert(is_first_at(c0.graph, cs, partners[j], ks[n + j]));
            let a = choose|a: int| #[trigger]
                first_canon(c0.graph, cs, partners[j], a) && cs[a] == ks[n + j];
            assert(cs.contains(k));
            assert(chunk_in(c0.graph, cs[a]));
            lemma_partner(c0.graph, p, cs, c.addr, j);
            assert(is_listed(c0.graph, cs, partners[j], c.addr));
            let b = choose|b: int| 0 <= b < cs.len() && (#[trigger] cs[b]).addr == partners[j];
            assert(chunk_in(c0.graph, cs[b]));
            assert(p.canon(k.addr) == p.canon(partners[j]));
            assert(meets_on(e.0, pc, k, c));
            assert(made_of(e.0, pc, cs, k, 0));
            assert(taken_fact(e.0, pc, cs, c, e.1));
        }
    }
    lemma_reaches_more(c2, c3, mid, big);
}

proof fn lemma_sum_reaches(
    c0: Context,
    c5: Context,
    c6: Context,
    pc: Seq<(Id, Polarity)>,
    cs: Seq<Chunk>,
    c: Chunk,
    set: Seq<Member>,
    sum: ChunkPerm,
)
    requires
        c5.wf(),
        drawn_from(set, cs),
        sums_at(c5.graph, pc, cs, c.addr, sum, set),
        reaches(c5, c6, member_facts(set, c.value)),
    ensures
        reaches(c5, c6, take_facts(pc, cs, c, c0.next_fresh)),
{
    let big = take_facts(pc, cs, c, c0.next_fresh);
    let small = member_facts(set, c.value);
    lemma_reaches_since(c5, c6, small);
    let mid = since(c5, small);
    assert forall|e: (Graph, (Tm, Tm))| mid.contains(e) implies big.contains(e) by {
        let i = choose|i: int|
            0 <= i < set.len() && e.1 == #[trigger] value_facts(set, c.value)[i];
        let k = set[i].chunk;
        assert(cs.contains(k));
        if !e.0.full() {
            assert forall|m: Model| #[trigger]
                e.0.models(m) && cube_holds(m, pc) && guards_sorted(m, cs) && cube_on(m, k.guard@)
                    && cube_holds(m, set[i].cube@) implies m.at(k.addr) == m.at(c.addr) by {
                lemma_grows_models(c5.graph, e.0, m);
                assert(all_fit(m, set, c.addr));
                assert(cube_fits(m, set[i], c.addr));
            }
        }
        assert(cube_meets(e.0, pc, cs, set[i].cube@, k, c));
        assert(made_of(e.0, pc, cs, k, 0));
        assert(taken_fact(e.0, pc, cs, c, e.1));
    }
    lemma_reaches_more(c5, c6, mid, big);
}

/// A demand was not met by several chunks: that those which are at its address on the path
/// have enough together was tried in vain; or, where no others are, those that may be
/// there at all are too few, or the same was tried of them in vain.
pub open spec fn unmet_together(
    a: Context,
    b: Context,
    pc: Seq<(Id, Polarity)>,
    cs: Seq<Chunk>,
    had: Option<Chunk>,
    c: Chunk,
    need: Id,
) -> bool {
    ||| exists|mid: Context, p: Graph, ks: Seq<Chunk>, sum: ChunkPerm|
        {
            &&& builds(a, mid)
            &&& #[trigger] probed(a, pc, p)
            &&& alias_members(a.graph, cs, had, partners_of(a.graph, p, cs, c.addr), ks)
            &&& #[trigger] sums_perms(mid.graph, sum, ks)
            &&& unmet_perm(mid, b, pc, sum, Ask::AtLeast(need))
        }
    ||| exists|mid: Context, sum: ChunkPerm, set: Seq<Member>|
        {
            &&& deduces(a, mid)
            &&& drawn_from(set, cs)
            &&& #[trigger] sums_at(mid.graph, pc, cs, c.addr, sum, set)
            &&& set.len() <= (if had is Some {
                1int
            } else {
                0
            }) && b == mid || unmet_perm(mid, b, pc, sum, Ask::AtLeast(need))
        }
}

/// Takes a demand that one chunk could not meet off all that may be at its location:
/// the chunks that are there on the path, or else those that may be there at all.
pub fn heap_subtract_summarized_fallbacks(
    ctx: &mut Context,
    h: &Heap,
    out: &Heap,
    kind: usize,
    existing: Option<&Chunk>,
    chunk: &Chunk,
    need: Id,
    pc: &Vec<(Id, Polarity)>,
) -> (r: Result<Heap, VerifyError>)
    requires
        old(ctx).wf(),
        heap_in(old(ctx).graph, *h),
        heap_in(old(ctx).graph, *out),
        existing matches Some(e) ==> chunk_in(old(ctx).graph, *e) && stands_for(
            old(ctx).graph,
            pc@,
            h.group(kind),
            *e,
            chunk.addr,
        ),
        chunk_in(old(ctx).graph, *chunk),
        old(ctx).graph.has(need),
        old(ctx).graph.denotes(need, perm_tm(chunk.perm)),
        cube_in(old(ctx).graph, pc@),
    ensures
        reaches(
            *old(ctx),
            *final(ctx),
            take_facts(pc@, h.group(kind), *chunk, old(ctx).next_fresh),
        ),
        match r {
            Ok(q) => {
                &&& heap_in(final(ctx).graph, q)
                &&& forall|k: usize| k != kind ==> #[trigger] q.group(k) == out.group(k)
                &&& met_together(final(ctx).graph, pc@, out.group(kind), need, q.group(kind))
                &&& plain(h.group(kind)) && plain_chunk(*chunk) && gathered(
                    old(ctx).graph,
                    h.group(kind),
                    chunk.addr,
                    out.group(kind),
                    match existing {
                        Some(e) => Some(*e),
                        None => None,
                    },
                ) ==> consumed(
                    *old(ctx),
                    *final(ctx),
                    pc@,
                    h.group(kind),
                    *chunk,
                    q.group(kind),
                )
            },
            Err(e) => e is InsufficientPermission && unmet_together(
                *old(ctx),
                *final(ctx),
                pc@,
                h.group(kind),
                match existing {
                    Some(e) => Some(*e),
                    None => None,
                },
                *chunk,
                need,
            ),
        },
{
    let ghost c0 = *ctx;
    let ghost had: Option<Chunk> = match existing {
        Some(e) => Some(*e),
        None => None,
    };
    let chunks = h.chunks_of(kind);
    let ghost cs = h.group(kind);
    proof {
        assert(chunks_in(c0.graph, h.group(kind)));
    }
    let partners = pc_alias_partners(ctx, &chunks, chunk.addr, pc);
    let ghost c1 = *ctx;
    proof {
        lemma_reaches_extended(c0, c1);
    }
    if partners.len() > 0 {
        proof {
            assert(all_listed(cs, partners@)) by {
                assert forall|k: int| 0 <= k < partners@.len() implies lists_addr(
                    cs,
                    #[trigger] partners@[k],
                ) by {
                    assert(is_listed(c0.graph, cs, partners@[k], chunk.addr));
                }
            }
        }
        let (set, sum) = pc_alias_set(ctx, &chunks, existing, &partners, pc);
        let ghost c2 = *ctx;
        proof {
            lemma_reaches_extended(c1, c2);
            lemma_reaches_trans(c0, c1, c2);
            lemma_heap_grows(c0.graph, c2.graph, *out);
            lemma_cube_grows(c0.graph, c2.graph, pc@);
        }
        if set.len() > 0 {
            let r = heap_subtract_summarized(
                ctx,
                out,
                kind,
                &set,
                &sum,
                chunk.value,
                need,
                pc,
            );
            proof {
                let c3 = *ctx;
                let g = c3.graph;
                lemma_alias_reaches(c0, c2, c3, pc@, cs, *chunk, had, partners@, set@);
                lemma_reaches_trans(c0, c2, c3);
                if r is Err {
                    let p = choose|p: Graph| #[trigger]
                        probed(c0, pc@, p) && partners@ == partners_of(
                            c0.graph,
                            p,
                            cs,
                            chunk.addr,
                        );
                    assert(probed(c0, pc@, p) && sums_perms(
                        c2.graph,
                        sum,
                        chunks_of_set(set@),
                    ));
                }
                if let Ok(ref q) = r {
                    lemma_members_grow(c2.graph, g, set@);
                    lemma_perm_grows(c2.graph, g, sum);
                    assert(met_together(g, pc@, out.group(kind), need, q.group(kind)));
                    if plain(cs) && plain_chunk(*chunk) && gathered(
                        c0.graph,
                        cs,
                        chunk.addr,
                        out.group(kind),
                        had,
                    ) {
                        lemma_alias_consumed(
                            c0,
                            c2,
                            c3,
                            pc@,
                            cs,
                            *chunk,
                            out.group(kind),
                            had,
                            partners@,
                            set@,
                            sum,
                            need,
                            q.group(kind),
                        );
                    }
                }
            }
            return r;
        }
    }
    let ghost c4 = *ctx;
    proof {
        lemma_heap_grows(c0.graph, c4.graph, *h);
        lemma_heap_grows(c0.graph, c4.graph, *out);
        assert(chunks_in(c4.graph, h.group(kind)));
        lemma_cube_grows(c0.graph, c4.graph, pc@);
    }
    let (sum, set) = summarize_perm_at(ctx, &chunks, chunk.addr, pc);
    let ghost c5 = *ctx;
    proof {
        lemma_reaches_trans(c0, c4, c5);
        lemma_heap_grows(c4.graph, c5.graph, *out);
        lemma_cube_grows(c4.graph, c5.graph, pc@);
    }
    let bar: usize = if existing.is_some() {
        1
    } else {
        0
    };
    if set.len() > bar {
        let r = heap_subtract_summarized(
            ctx,
            out,
            kind,
            &set,
            &sum,
            chunk.value,
            need,
            pc,
        );
        proof {
            let c6 = *ctx;
            let g = c6.graph;
            lemma_sum_reaches(c0, c5, c6, pc@, cs, *chunk, set@, sum);
            lemma_reaches_trans(c0, c5, c6);
            if let Ok(ref q) = r {
                lemma_members_grow(c5.graph, g, set@);
                lemma_perm_grows(c5.graph, g, sum);
                assert(met_together(g, pc@, out.group(kind), need, q.group(kind)));
                if plain(cs) && plain_chunk(*chunk) && gathered(
                    c0.graph,
                    cs,
                    chunk.addr,
                    out.group(kind),
                    had,
                ) {
                    lemma_summary_consumed(
                        c0,
                        c5,
                        c6,
                        pc@,
                        cs,
                        *chunk,
                        out.group(kind),
                        had,
                        set@,
                        sum,
                        need,
                        q.group(kind),
                    );
                }
            }
        }
        return r;
    }
    proof {
        lemma_reaches_trans(c0, c4, c5);
        assert(sums_at(c5.graph, pc@, cs, chunk.addr, sum, set@));
    }
    Err(VerifyError::InsufficientPermission)
}

proof fn lemma_apart_before(g: Graph, h: Graph, cs: Seq<Chunk>)
    requires
        stepped(g, h),
        chunks_in(g, cs),
        classes_apart(h, cs),
    ensures
        classes_apart(g, cs),
{
    assert forall|i: int, j: int| 0 <= i < j < cs.len() implies g.canon((#[trigger] cs[i]).addr)
        != g.canon((#[trigger] cs[j]).addr) by {
        assert(chunk_in(g, cs[i]));
        assert(chunk_in(g, cs[j]));
        assert(h.canon(cs[i].addr) != h.canon(cs[j].addr));
    }
}

proof fn lemma_alias_consumed(
    c0: Context,
    c2: Context,
    c3: Context,
    pc: Seq<(Id, Polarity)>,
    cs: Seq<Chunk>,
    c: Chunk,
    out: Seq<Chunk>,
    had: Option<Chunk>,
    partners: Seq<Id>,
    set: Seq<Member>,
    sum: ChunkPerm,
    need: Id,
    r: Seq<Chunk>,
)
    requires
        c0.wf(),
        c0.leads_to(c2),
        c2.leads_to(c3),
        cube_in(c0.graph, pc),
        chunks_in(c0.graph, cs),
        apart(cs),
        plain(cs),
        chunk_in(c0.graph, c),
        plain_chunk(c),
        gathered(c0.graph, cs, c.addr, out, had),
        partners.len() > 0,
        exists|p: Graph| #[trigger]
            probed(c0, pc, p) && partners == partners_of(c0.graph, p, cs, c.addr),
        listed_in(c0.graph, cs, partners, c.addr),
        partners.no_duplicates(),
        forall|i: int| 0 <= i < set.len() ==> (#[trigger] set[i]).cube@ == pc,
        alias_members(c0.graph, cs, had, partners, chunks_of_set(set)),
        sums_perms(c2.graph, sum, chunks_of_set(set)),
        forall|m: Model|
            perms_sorted(m, chunks_of_set(set)) ==> #[trigger] perm_sorted(m, sum),
        c0.graph.denotes(need, perm_tm(c.perm)),
        c3.graph.full() || answered(c3.graph, pc, sum, Ask::AtLeast(need)),
        spread_over(c3.graph, out, set, need, r),
    ensures
        consumed(c0, c3, pc, cs, c, r),
{
    let g = c3.graph;
    let g0 = c0.graph;
    lemma_leads_trans(c0, c2, c3);
    let p = choose|p: Graph| #[trigger]
        probed(c0, pc, p) && partners == partners_of(g0, p, cs, c.addr);
    lemma_reaches_refl(c0);
    if classes_apart(g, cs) {
        lemma_apart_before(g0, g, cs);
        lemma_alias_apart(g0, cs, had, partners, chunks_of_set(set), c.addr);
        assert(out == cs);
        let ks = chunks_of_set(set);
        assert forall|i: int| 0 <= i < set.len() implies cs.contains((#[trigger] set[i]).chunk) by {
            assert(ks[i] == set[i].chunk);
        }
        let b = shown_by(c0, p);
        if !g.full() {
            assert forall|m: Model| #[trigger]
                g.models(m) && b(m) && fair(m, pc, cs, c) implies taken_off(m, cs, c, r) by {
                lemma_grows_models(g0, g, m);
                lemma_grows_models(c2.graph, g, m);
                lemma_grows_denotes(g0, g, need, perm_tm(c.perm));
                lemma_to_id(g, m, need, c.perm);
                assert forall|i: int| 0 <= i < set.len() implies cube_holds(
                    m,
                    (#[trigger] set[i]).cube@,
                ) && m.at(set[i].chunk.addr) == m.at(c.addr) by {
                    assert(ks[i] == set[i].chunk);
                    if had != Some(ks[i]) {
                        assert(partners.contains(ks[i].addr));
                        let k = choose|k: int| 0 <= k < partners.len() && partners[k] == ks[i].addr;
                        lemma_partner(g0, p, cs, c.addr, k);
                        assert(is_listed(g0, cs, partners[k], c.addr));
                        let a = choose|a: int|
                            0 <= a < cs.len() && (#[trigger] cs[a]).addr == partners[k];
                        assert(chunk_in(g0, cs[a]));
                        law_probed(c0, pc, p, partners[k], c.addr);
                        let dss = seq![p.defs()];
                        assert(crate::rewrite::learned::evaluable(g0, m, dss));
                        assert(aliased(g0, c0.background(), pc, partners[k], c.addr, dss));
                    }
                }
                assert(perms_sorted(m, ks)) by {
                    assert forall|i: int| 0 <= i < ks.len() implies perm_sorted(
                        m,
                        (#[trigger] ks[i]).perm,
                    ) by {
                        assert(cs.contains(ks[i]));
                        let k = choose|k: int| 0 <= k < cs.len() && cs[k] == ks[i];
                        assert(perm_sorted(m, cs[k].perm));
                    }
                }
                assert(perm_sorted(m, sum));
                assert(is_enough(m, Ask::AtLeast(need), perm_amt(m, sum)));
                lemma_sum_all(m, set, set.len() as int);
                assert(ks.take(set.len() as int) =~= ks);
                lemma_spread_taken(g, m, pc, cs, c, set, need, r);
            }
        }
        assert(taken_off_in(g, b, pc, cs, c, r));
    }
}

proof fn lemma_summary_consumed(
    c0: Context,
    c5: Context,
    c6: Context,
    pc: Seq<(Id, Polarity)>,
    cs: Seq<Chunk>,
    c: Chunk,
    out: Seq<Chunk>,
    had: Option<Chunk>,
    set: Seq<Member>,
    sum: ChunkPerm,
    need: Id,
    r: Seq<Chunk>,
)
    requires
        c0.wf(),
        c0.leads_to(c5),
        c5.leads_to(c6),
        chunks_in(c0.graph, cs),
        apart(cs),
        plain(cs),
        plain_chunk(c),
        gathered(c0.graph, cs, c.addr, out, had),
        drawn_from(set, cs),
        apart(chunks_of_set(set)),
        sum_sorted(cs, sum),
        sums_at(c5.graph, pc, cs, c.addr, sum, set),
        c0.graph.denotes(need, perm_tm(c.perm)),
        c6.graph.full() || answered(c6.graph, pc, sum, Ask::AtLeast(need)),
        spread_over(c6.graph, out, set, need, r),
    ensures
        consumed(c0, c6, pc, cs, c, r),
{
    let g = c6.graph;
    lemma_leads_trans(c0, c5, c6);
    if classes_apart(g, cs) {
        lemma_apart_before(c0.graph, g, cs);
        assert(out == cs);
        assert(unguarded(cs)) by {
            assert forall|i: int| 0 <= i < cs.len() implies (#[trigger] cs[i]).guard@.len() == 0 by {
                assert(plain_chunk(cs[i]));
            }
        }
        if !g.full() {
            assert forall|m: Model| #[trigger] g.models(m) && fair(m, pc, cs, c) implies taken_off(
                m,
                cs,
                c,
                r,
            ) by {
                lemma_grows_models(c5.graph, g, m);
                lemma_grows_denotes(c0.graph, g, need, perm_tm(c.perm));
                lemma_to_id(g, m, need, c.perm);
                assert(guards_sorted(m, cs)) by {
                    assert forall|i: int| 0 <= i < cs.len() implies crate::prove::cube_bools(
                        m,
                        (#[trigger] cs[i]).guard@,
                    ) by {
                        assert(cs[i].guard@.len() == 0);
                    }
                }
                assert(all_fit(m, set, c.addr));
                assert forall|i: int| 0 <= i < set.len() implies (#[trigger] set[i]).chunk.guard@.len()
                    == 0 && cube_holds(m, set[i].cube@) == (m.at(set[i].chunk.addr) == m.at(
                    c.addr,
                )) by {
                    assert(cs.contains(set[i].chunk));
                    let k = choose|k: int| 0 <= k < cs.len() && cs[k] == set[i].chunk;
                    assert(cs[k].guard@.len() == 0);
                    assert(cube_fits(m, set[i], c.addr));
                }
                let ks = chunks_of_set(set);
                lemma_sum_at(m, set, set.len() as int, c.addr);
                assert(ks.take(set.len() as int) =~= ks);
                assert(perm_sorted(m, sum));
                assert(is_enough(m, Ask::AtLeast(need), perm_amt(m, sum)));
                lemma_spread_taken(g, m, pc, cs, c, set, need, r);
            }
        }
        assert(taken_off_in(g, |m: Model| true, pc, cs, c, r));
    }
}

/// A wildcard was taken off a chunk.
pub open spec fn wild_debited(
    g: Graph,
    pc: Seq<(Id, Polarity)>,
    cs: Seq<Chunk>,
    e: Chunk,
    c: Chunk,
    r: Seq<Chunk>,
) -> bool {
    exists|rest: ChunkPerm| #[trigger]
        wild_taken(g, pc, rest, e.perm, c.perm) && r == with(cs, Chunk { perm: rest, ..e })
}

/// Where a wildcard was taken off a chunk without a guard, its location has less than
/// before where something was demanded and as much where nothing was, and other
/// locations have what they had.
pub proof fn law_wild_debited(
    g: Graph,
    pc: Seq<(Id, Polarity)>,
    cs: Seq<Chunk>,
    e: Chunk,
    c: Chunk,
    r: Seq<Chunk>,
    m: Model,
    loc: Value,
)
    requires
        !g.full(),
        g.models(m),
        cube_holds(m, pc),
        perm_sorted(m, c.perm),
        holds_chunk(cs, e),
        e.guard@.len() == 0,
        wild_debited(g, pc, cs, e, c, r),
    ensures
        loc != m.at(e.addr) ==> total(m, r, loc) == total(m, cs, loc),
        loc == m.at(e.addr) ==> total(m, r, loc) <= total(m, cs, loc),
        loc == m.at(e.addr) && perm_amt(m, c.perm) > 0 as real ==> total(m, r, loc) < total(
            m,
            cs,
            loc,
        ) && total(m, r, loc) > total(m, cs, loc) - perm_amt(m, e.perm),
{
    let rest = choose|rest: ChunkPerm| #[trigger]
        wild_taken(g, pc, rest, e.perm, c.perm) && r == with(cs, Chunk { perm: rest, ..e });
    crate::heap::groups::lemma_place(cs, e.addr);
    crate::heap::groups::law_with(m, cs, Chunk { perm: rest, ..e }, loc);
}

/// Takes a wildcard off a chunk on a path.
pub fn debit_wildcard(
    ctx: &mut Context,
    out: &Heap,
    kind: usize,
    existing: &Chunk,
    chunk: &Chunk,
    pc: &Vec<(Id, Polarity)>,
) -> (r: Result<Heap, VerifyError>)
    requires
        old(ctx).wf(),
        heap_in(old(ctx).graph, *out),
        chunk_in(old(ctx).graph, *existing),
        chunk_in(old(ctx).graph, *chunk),
        cube_in(old(ctx).graph, pc@),
    ensures
        reaches(
            *old(ctx),
            *final(ctx),
            only(same_fact(existing.value, chunk.value)) + fresh_facts(old(ctx).next_fresh),
        ),
        match r {
            Ok(q) => {
                &&& heap_in(final(ctx).graph, q)
                &&& forall|k: usize| k != kind ==> #[trigger] q.group(k) == out.group(k)
                &&& wild_debited(
                    final(ctx).graph,
                    pc@,
                    out.group(kind),
                    *existing,
                    *chunk,
                    q.group(kind),
                )
            },
            Err(e) => e is InsufficientPermission && unmet_wild(
                *old(ctx),
                *final(ctx),
                pc@,
                existing.perm,
                chunk.perm,
            ),
        },
        sure_positive(old(ctx).graph, *existing, *chunk) ==> r is Ok,
{
    let ghost c0 = *ctx;
    let (rest, ok) = debit_wildcard_walk(
        ctx,
        &existing.perm,
        &chunk.perm,
        existing.value,
        chunk.value,
        pc,
    );
    if !ok {
        return Err(VerifyError::InsufficientPermission);
    }
    let ghost left = rest;
    let put = existing.copy().with_perm(rest);
    let ghost kept = put;
    let q = out.with_chunk(kind, put);
    proof {
        let g = ctx.graph;
        lemma_heap_grows(c0.graph, g, *out);
        lemma_chunk_grows(c0.graph, g, *existing);
        assert(chunks_in(g, out.group(kind)));
        lemma_with_in(g, out.group(kind), kept);
        lemma_heap_with(g, *out, q, kind);
        assert(wild_taken(g, pc@, left, existing.perm, chunk.perm));
    }
    Ok(q)
}

/// Leaves of which one is known to be positive.
pub open spec fn sure_positive(g: Graph, e: Chunk, c: Chunk) -> bool {
    c.perm is Leaf && (e.perm matches ChunkPerm::Leaf { id, .. } && known_enough(
        g,
        id,
        Ask::Positive,
    ))
}

/// Leaves of which one is known to be as much as the other.
pub open spec fn sure_enough(g: Graph, e: Chunk, c: Chunk) -> bool {
    match (e.perm, c.perm) {
        (ChunkPerm::Leaf { id, .. }, ChunkPerm::Leaf { id: n, .. }) => known_enough(
            g,
            id,
            Ask::AtLeast(n),
        ),
        _ => false,
    }
}

/// On the path a chunk demands nothing.
pub open spec fn demands_nothing(g: Graph, pc: Seq<(Id, Polarity)>, c: Chunk) -> bool {
    exists|need: Id| #[trigger] g.denotes(need, perm_tm(c.perm)) && no_demand(g, pc, need)
}

/// A demand was met by several chunks.
pub open spec fn met_by_many(
    g: Graph,
    pc: Seq<(Id, Polarity)>,
    cs: Seq<Chunk>,
    c: Chunk,
    r: Seq<Chunk>,
) -> bool {
    exists|need: Id| #[trigger]
        g.denotes(need, perm_tm(c.perm)) && met_together(g, pc, cs, need, r)
}

/// A demand was met by one chunk that has enough on the path.
pub open spec fn met_by_one(
    g: Graph,
    pc: Seq<(Id, Polarity)>,
    cs: Seq<Chunk>,
    e: Chunk,
    c: Chunk,
    r: Seq<Chunk>,
) -> bool {
    &&& g.full() || covers_need(g, pc, e.perm, c.perm)
    &&& exists|rest: ChunkPerm| #[trigger] debited(g, cs, e, c, rest, r)
}

/// How a chunk is taken out of a list in which one chunk may have been found at its
/// address.
pub open spec fn taken_out(
    g: Graph,
    h: Graph,
    pc: Seq<(Id, Polarity)>,
    cs: Seq<Chunk>,
    had: Option<Chunk>,
    c: Chunk,
    demand: Demand,
    r: Seq<Chunk>,
) -> bool {
    match had {
        None => (r == cs && demands_nothing(h, pc, c)) || met_by_many(h, pc, cs, c, r),
        Some(e) => exists|e2: Chunk| #[trigger]
            readied(g, h, pc, e, e2) && match demand {
                Demand::Wildcard => wild_debited(h, pc, cs, e2, c, r),
                Demand::Concrete => met_by_one(h, pc, cs, e2, c, r) || met_by_many(
                    h,
                    pc,
                    cs,
                    c,
                    r,
                ),
            },
    }
}

/// A chunk was taken out of a group of a heap.
pub open spec fn subtracted(
    a: Context,
    b: Context,
    h: Heap,
    kind: usize,
    c: Chunk,
    pc: Seq<(Id, Polarity)>,
    demand: Demand,
    q: Heap,
) -> bool {
    exists|mid: Context, out: Heap, had: Option<Chunk>|
        {
            &&& reaches(a, mid, take_facts(pc, h.group(kind), c, a.next_fresh))
            &&& #[trigger] consolidated(mid.graph, h, kind, c.addr, out, had)
            &&& reaches(mid, b, take_facts(pc, h.group(kind), c, a.next_fresh))
            &&& #[trigger] taken_out(
                mid.graph,
                b.graph,
                pc,
                out.group(kind),
                had,
                c,
                demand,
                q.group(kind),
            )
        }
}

/// That a demand is nothing was tried in vain.
pub open spec fn asks_something(a: Context, pc: Seq<(Id, Polarity)>, c: Chunk) -> bool {
    exists|mid: Context, d: Context, need: Id|
        {
            &&& builds(a, mid)
            &&& mid.graph.denotes(need, perm_tm(c.perm))
            &&& #[trigger] unshown(
                mid,
                d,
                pc,
                t_not(t_ltr(t_real(0 as real), Tm::Class(need))),
            )
        }
}

/// Where no chunk was at its address at first, that a demand is nothing was tried in vain.
pub open spec fn asked_first(
    a: Context,
    h: Heap,
    kind: usize,
    c: Chunk,
    pc: Seq<(Id, Polarity)>,
) -> bool {
    exists|mid: Context, out: Heap, had: Option<Chunk>|
        {
            &&& reaches(a, mid, take_facts(pc, h.group(kind), c, a.next_fresh))
            &&& #[trigger] consolidated(mid.graph, h, kind, c.addr, out, had)
            &&& had is None ==> asks_something(mid, pc, c)
        }
}

/// A chunk was not taken out of a group of a heap, each step in turn failing. Where a
/// chunk is at its address, a wildcard was not shown to leave a share of it, or it was
/// not shown to be enough, nor were all chunks together. Where none is, all chunks
/// together were not shown to be enough.
pub open spec fn refused(
    a: Context,
    b: Context,
    h: Heap,
    kind: usize,
    c: Chunk,
    pc: Seq<(Id, Polarity)>,
    demand: Demand,
) -> bool {
    let fs = take_facts(pc, h.group(kind), c, a.next_fresh);
    exists|mid: Context, out: Heap, had: Option<Chunk>|
        {
            &&& reaches(a, mid, fs)
            &&& #[trigger] consolidated(mid.graph, h, kind, c.addr, out, had)
            &&& match had {
                None => exists|x: Context, need: Id|
                    {
                        &&& reaches(mid, x, fs)
                        &&& x.graph.denotes(need, perm_tm(c.perm))
                        &&& #[trigger] unmet_together(
                            x,
                            b,
                            pc,
                            h.group(kind),
                            None,
                            c,
                            need,
                        )
                    },
                Some(e) => exists|x: Context, e2: Chunk|
                    {
                        &&& builds(mid, x)
                        &&& #[trigger] readied(mid.graph, x.graph, pc, e, e2)
                        &&& match demand {
                            Demand::Wildcard => unmet_wild(x, b, pc, e2.perm, c.perm),
                            Demand::Concrete => exists|y: Context, need: Id|
                                {
                                    &&& unmet_need(x, y, pc, e2.perm, c.perm)
                                    &&& y.graph.denotes(need, perm_tm(c.perm))
                                    &&& #[trigger] unmet_together(
                                        y,
                                        b,
                                        pc,
                                        h.group(kind),
                                        Some(e2),
                                        c,
                                        need,
                                    )
                                },
                        }
                    },
            }
        }
}

proof fn lemma_refused_earlier(
    a: Context,
    b: Context,
    d: Context,
    h: Heap,
    kind: usize,
    c: Chunk,
    pc: Seq<(Id, Polarity)>,
    demand: Demand,
)
    requires
        reaches(a, b, take_facts(pc, h.group(kind), c, a.next_fresh)),
        refused(b, d, h, kind, c, pc, demand),
    ensures
        refused(a, d, h, kind, c, pc, demand),
{
    let fs = take_facts(pc, h.group(kind), c, a.next_fresh);
    let late = take_facts(pc, h.group(kind), c, b.next_fresh);
    lemma_group_take(pc, h.group(kind), c, a.next_fresh, b.next_fresh);
    let (mid, out, had) = choose|mid: Context, out: Heap, had: Option<Chunk>|
        {
            &&& reaches(b, mid, late)
            &&& #[trigger] consolidated(mid.graph, h, kind, c.addr, out, had)
            &&& match had {
                None => exists|x: Context, need: Id|
                    {
                        &&& reaches(mid, x, late)
                        &&& x.graph.denotes(need, perm_tm(c.perm))
                        &&& #[trigger] unmet_together(
                            x,
                            d,
                            pc,
                            h.group(kind),
                            None,
                            c,
                            need,
                        )
                    },
                Some(e) => exists|x: Context, e2: Chunk|
                    {
                        &&& builds(mid, x)
                        &&& #[trigger] readied(mid.graph, x.graph, pc, e, e2)
                        &&& match demand {
                            Demand::Wildcard => unmet_wild(x, d, pc, e2.perm, c.perm),
                            Demand::Concrete => exists|y: Context, need: Id|
                                {
                                    &&& unmet_need(x, y, pc, e2.perm, c.perm)
                                    &&& y.graph.denotes(need, perm_tm(c.perm))
                                    &&& #[trigger] unmet_together(
                                        y,
                                        d,
                                        pc,
                                        h.group(kind),
                                        Some(e2),
                                        c,
                                        need,
                                    )
                                },
                        }
                    },
            }
        };
    lemma_reaches_more(b, mid, late, fs);
    lemma_reaches_trans(a, b, mid);
    if had is None {
        let (x, need) = choose|x: Context, need: Id|
            {
                &&& reaches(mid, x, late)
                &&& x.graph.denotes(need, perm_tm(c.perm))
                &&& #[trigger] unmet_together(x, d, pc, h.group(kind), None, c, need)
            };
        lemma_reaches_more(mid, x, late, fs);
        assert(unmet_together(x, d, pc, h.group(kind), None, c, need));
    }
    assert(consolidated(mid.graph, h, kind, c.addr, out, had));
}

proof fn lemma_readied_grows(
    g: Graph,
    h: Graph,
    k: Graph,
    pc: Seq<(Id, Polarity)>,
    c: Chunk,
    r: Chunk,
)
    requires
        h.wf(),
        h.grows_to(k),
        readied(g, h, pc, c, r),
    ensures
        readied(g, k, pc, c, r),
{
    if !k.full() && !(c.guard@.len() == 0 || crate::heap::cube::entails(g, pc, c.guard@)) {
        assert forall|m: Model| #[trigger] k.models(m) implies perm_amt(m, r.perm) == chunk_amt(
            m,
            c,
        ) by {
            lemma_grows_models(h, k, m);
        }
    }
}

proof fn lemma_consumed_earlier(
    a: Context,
    b: Context,
    c: Context,
    pc: Seq<(Id, Polarity)>,
    cs: Seq<Chunk>,
    k: Chunk,
    r: Seq<Chunk>,
)
    requires
        reaches(a, b, take_facts(pc, cs, k, a.next_fresh)),
        consumed(b, c, pc, cs, k, r),
    ensures
        consumed(a, c, pc, cs, k, r),
{
    if !taken_off_in(c.graph, |m: Model| true, pc, cs, k, r) && classes_apart(c.graph, cs) {
        let (mid, p) = choose|mid: Context, p: Graph|
            {
                &&& reaches(b, mid, take_facts(pc, cs, k, b.next_fresh))
                &&& mid.leads_to(c)
                &&& #[trigger] probed(mid, pc, p)
                &&& taken_off_in(c.graph, shown_by(mid, p), pc, cs, k, r)
            };
        lemma_group_take(pc, cs, k, a.next_fresh, b.next_fresh);
        lemma_reaches_more(
            b,
            mid,
            take_facts(pc, cs, k, b.next_fresh),
            take_facts(pc, cs, k, a.next_fresh),
        );
        lemma_reaches_trans(a, b, mid);
    }
}

/// Whether the demand may still be tried to be nothing.
pub open spec fn pass_rank(pass: ConsumePass) -> nat {
    match pass {
        ConsumePass::First => 1,
        ConsumePass::Retry { .. } => 0,
    }
}

proof fn lemma_nothing_taken(
    b: Context,
    pc: Seq<(Id, Polarity)>,
    cs: Seq<Chunk>,
    c: Chunk,
    need: Id,
)
    requires
        plain_chunk(c),
        b.graph.denotes(need, perm_tm(c.perm)),
        no_demand(b.graph, pc, need),
    ensures
        taken_off_in(b.graph, |m: Model| true, pc, cs, c, cs),
{
    let g = b.graph;
    assert forall|m: Model| #[trigger] g.models(m) && fair(m, pc, cs, c) implies taken_off(
        m,
        cs,
        c,
        cs,
    ) by {
        lemma_to_id(g, m, need, c.perm);
    }
}

proof fn lemma_direct_taken(
    b: Context,
    pc: Seq<(Id, Polarity)>,
    cs: Seq<Chunk>,
    out: Seq<Chunk>,
    e: Chunk,
    c: Chunk,
    rest: ChunkPerm,
    r: Seq<Chunk>,
)
    requires
        b.wf(),
        gathered(b.graph, cs, c.addr, out, Some(e)),
        plain_chunk(c),
        debited(b.graph, out, e, c, rest, r),
    ensures
        taken_off_in(b.graph, |m: Model| true, pc, cs, c, r),
{
    let h = b.graph;
    if !h.full() {
        assert(plain_chunk(e)) by {
            assert(out[place(out, e.addr)] == e);
            crate::heap::groups::lemma_place(out, e.addr);
        }
        assert forall|m: Model| #[trigger] h.models(m) && fair(m, pc, cs, c) implies taken_off(
            m,
            cs,
            c,
            r,
        ) by {
            assert forall|loc: Value| #[trigger]
                total(m, r, loc) == total(m, cs, loc) - chunk_share(m, c, loc) by {
                law_debited(h, out, e, c, rest, r, m, loc);
                assert(total(m, out, loc) == total(m, cs, loc));
            }
        }
    }
}

/// A demand is known to be nothing: it is a literal that is not positive.
pub open spec fn known_nothing(g: Graph, p: ChunkPerm) -> bool {
    p matches ChunkPerm::Leaf { id, .. } && (g.known_value(id) matches Some(Value::Real(q)) && q
        <= 0 as real)
}

/// Whether a demand is known to be nothing.
fn is_known_nothing(g: &Graph, p: &ChunkPerm) -> (r: bool)
    requires
        g.wf(),
        perm_in(*g, *p),
    ensures
        r == known_nothing(*g, *p),
{
    match p {
        ChunkPerm::Leaf { id, .. } => match g.known_real(*id) {
            Some(q) => !Rat::from_int(&Int::from_i64(0)).less(&q),
            None => false,
        },
        ChunkPerm::Select { .. } => false,
    }
}

proof fn lemma_known_nothing(g: Graph, h: Graph, m: Model, p: ChunkPerm)
    requires
        g.wf(),
        g.grows_to(h),
        !h.full(),
        h.models(m),
        perm_in(g, p),
        known_nothing(g, p),
    ensures
        perm_amt(m, p) <= 0 as real,
{
    lemma_grows_models(g, h, m);
    if let ChunkPerm::Leaf { id, .. } = p {
        crate::terms::lemma_known(g, m, id);
    }
}

/// Takes a chunk out of a heap on a path. The steps are tried in turn: the chunk at
/// its address; where there is none, that nothing is demanded, and once more after all
/// rules were run; and all chunks that may be at its location.
pub fn heap_subtract_inner(
    ctx: &mut Context,
    h: &Heap,
    kind: usize,
    chunk: &Chunk,
    pc: &Vec<(Id, Polarity)>,
    demand: Demand,
    pass: ConsumePass,
) -> (r: Result<Heap, VerifyError>)
    requires
        old(ctx).wf(),
        heap_in(old(ctx).graph, *h),
        chunk_in(old(ctx).graph, *chunk),
        cube_in(old(ctx).graph, pc@),
    ensures
        reaches(
            *old(ctx),
            *final(ctx),
            take_facts(pc@, h.group(kind), *chunk, old(ctx).next_fresh),
        ),
        match r {
            Ok(q) => {
                &&& heap_in(final(ctx).graph, q)
                &&& forall|k: usize| k != kind ==> #[trigger] q.group(k) == h.group(k)
                &&& subtracted(*old(ctx), *final(ctx), *h, kind, *chunk, pc@, demand, q)
                &&& plain(h.group(kind)) && plain_chunk(*chunk) && demand == Demand::Concrete
                    ==> consumed(
                    *old(ctx),
                    *final(ctx),
                    pc@,
                    h.group(kind),
                    *chunk,
                    q.group(kind),
                )
            },
            Err(e) => e is InsufficientPermission && refused(
                *old(ctx),
                *final(ctx),
                *h,
                kind,
                *chunk,
                pc@,
                demand,
            ) && (pass is First ==> asked_first(*old(ctx), *h, kind, *chunk, pc@)),
        },
        forall|i: int| #[trigger]
            sole_canon(old(ctx).graph, h.group(kind), chunk.addr, i) && h.group(
                kind,
            )[i].guard@.len() == 0 && (match demand {
                Demand::Concrete => sure_enough(old(ctx).graph, h.group(kind)[i], *chunk),
                Demand::Wildcard => sure_positive(old(ctx).graph, h.group(kind)[i], *chunk),
            }) ==> r is Ok,
        pass is First && known_nothing(old(ctx).graph, chunk.perm) && demand == Demand::Concrete
            && !final(ctx).graph.full() ==> r is Ok,
    decreases pass_rank(pass),
{
    let ghost c0 = *ctx;
    let ghost cs = h.group(kind);
    let nothing = is_known_nothing(&ctx.graph, &chunk.perm);
    let (out, found) = find_chunk_consolidated(ctx, h, kind, chunk.addr, pc, true);
    let ghost had = found;
    let ghost c1 = *ctx;
    let ghost fs = take_facts(pc@, cs, *chunk, c0.next_fresh);
    let ghost steps: nat = choose|n: nat|
        had is Some ==> #[trigger] made_of(c1.graph, pc@, cs, had.unwrap(), n);
    proof {
        lemma_group_take(pc@, cs, *chunk, c0.next_fresh, c0.next_fresh);
        lemma_reaches_more(c0, c1, group_facts(pc@, cs, c0.next_fresh), fs);
        lemma_chunk_grows(c0.graph, c1.graph, *chunk);
        lemma_cube_grows(c0.graph, c1.graph, pc@);
        lemma_heap_grows(c0.graph, c1.graph, *h);
        assert(chunks_in(c1.graph, cs));
        if plain(cs) {
            lemma_gathered(c1.graph, *h, kind, chunk.addr, out, had);
        }
    }
    let e = match found {
        None => {
            let need = chunk.perm.to_id(ctx);
            let ghost c2 = *ctx;
            proof {
                lemma_reaches_extended(c1, c2);
                lemma_reaches_trans(c0, c1, c2);
                lemma_cube_grows(c1.graph, c2.graph, pc@);
            }
            let skip = match pass {
                ConsumePass::Retry { zero_demand_settled } => zero_demand_settled,
                ConsumePass::First => false,
            };
            if !skip {
                if (nothing && !ctx.graph.is_full()) || prove_no_demand(ctx, need, pc) {
                    proof {
                        let c3 = *ctx;
                        lemma_reaches_refl(c2);
                        lemma_leads_trans(c0, c1, c2);
                        lemma_leads_trans(c0, c2, c3);
                        if !no_demand(c3.graph, pc@, need) {
                            assert forall|m: Model| #[trigger]
                                c3.graph.models(m) && cube_holds(m, pc@) implies amount(m.at(need))
                                <= 0 as real by {
                                lemma_known_nothing(c0.graph, c3.graph, m, chunk.perm);
                                lemma_to_id(c3.graph, m, need, chunk.perm);
                            }
                        }
                        lemma_reaches_trans(c1, c2, c3);
                        lemma_reaches_trans(c0, c1, c3);
                        lemma_heap_grows(c1.graph, c3.graph, out);
                        lemma_grows_denotes(c2.graph, c3.graph, need, perm_tm(chunk.perm));
                        assert(demands_nothing(c3.graph, pc@, *chunk));
                        assert(taken_out(
                            c1.graph,
                            c3.graph,
                            pc@,
                            out.group(kind),
                            had,
                            *chunk,
                            demand,
                            out.group(kind),
                        ));
                        assert(subtracted(c0, c3, *h, kind, *chunk, pc@, demand, out));
                        if plain(cs) && plain_chunk(*chunk) {
                            lemma_nothing_taken(c3, pc@, cs, *chunk, need);
                        }
                    }
                    return Ok(out);
                }
            }
            let ghost c3 = *ctx;
            proof {
                lemma_reaches_refl(c2);
                lemma_reaches_trans(c1, c2, c3);
                lemma_reaches_trans(c0, c1, c3);
                lemma_chunk_grows(c1.graph, c3.graph, *chunk);
                lemma_cube_grows(c1.graph, c3.graph, pc@);
                lemma_heap_grows(c1.graph, c3.graph, *h);
                lemma_heap_grows(c1.graph, c3.graph, out);
                lemma_grows_denotes(c2.graph, c3.graph, need, perm_tm(chunk.perm));
            }
            if let ConsumePass::First = pass {
                let settled = ctx.is_saturated();
                ctx.saturate();
                let ghost c4 = *ctx;
                proof {
                    lemma_reaches_follows(c3, c4);
                    lemma_reaches_trans(c0, c3, c4);
                    lemma_chunk_grows(c3.graph, c4.graph, *chunk);
                    lemma_cube_grows(c3.graph, c4.graph, pc@);
                    lemma_heap_grows(c3.graph, c4.graph, *h);
                }
                let r = heap_subtract_inner(
                    ctx,
                    h,
                    kind,
                    chunk,
                    pc,
                    demand,
                    ConsumePass::Retry { zero_demand_settled: settled },
                );
                proof {
                    let c5 = *ctx;
                    if r is Err {
                        lemma_refused_earlier(c0, c4, c5, *h, kind, *chunk, pc@, demand);
                        assert(asks_something(c1, pc@, *chunk));
                        assert(asked_first(c0, *h, kind, *chunk, pc@));
                    }
                    lemma_group_take(pc@, cs, *chunk, c0.next_fresh, c4.next_fresh);
                    let late = take_facts(pc@, cs, *chunk, c4.next_fresh);
                    lemma_reaches_more(c4, c5, late, fs);
                    lemma_reaches_trans(c0, c4, c5);
                    if let Ok(ref q) = r {
                        let (mid, o, f) = choose|mid: Context, o: Heap, f: Option<Chunk>|
                            {
                                &&& reaches(c4, mid, late)
                                &&& #[trigger] consolidated(mid.graph, *h, kind, chunk.addr, o, f)
                                &&& reaches(mid, c5, late)
                                &&& #[trigger] taken_out(
                                    mid.graph,
                                    c5.graph,
                                    pc@,
                                    o.group(kind),
                                    f,
                                    *chunk,
                                    demand,
                                    q.group(kind),
                                )
                            };
                        lemma_reaches_more(c4, mid, late, fs);
                        lemma_reaches_more(mid, c5, late, fs);
                        lemma_reaches_trans(c0, c4, mid);
                        assert(subtracted(c0, c5, *h, kind, *chunk, pc@, demand, *q));
                        if plain(cs) && plain_chunk(*chunk) && demand == Demand::Concrete {
                            lemma_consumed_earlier(c0, c4, c5, pc@, cs, *chunk, q.group(kind));
                        }
                    }
                }
                return r;
            }
            let r = heap_subtract_summarized_fallbacks(ctx, h, &out, kind, None, chunk, need, pc);
            proof {
                let c6 = *ctx;
                lemma_group_take(pc@, cs, *chunk, c0.next_fresh, c3.next_fresh);
                lemma_reaches_more(c3, c6, take_facts(pc@, cs, *chunk, c3.next_fresh), fs);
                lemma_reaches_trans(c1, c3, c6);
                lemma_reaches_trans(c0, c3, c6);
                if r is Err {
                    assert(reaches(c1, c3, fs));
                    assert(unmet_together(c3, c6, pc@, cs, None, *chunk, need));
                    assert(consolidated(c1.graph, *h, kind, chunk.addr, out, had));
                    assert(refused(c0, c6, *h, kind, *chunk, pc@, demand));
                }
                if let Ok(ref q) = r {
                    lemma_grows_denotes(c2.graph, c6.graph, need, perm_tm(chunk.perm));
                    assert(met_by_many(c6.graph, pc@, out.group(kind), *chunk, q.group(kind)));
                    assert(taken_out(
                        c1.graph,
                        c6.graph,
                        pc@,
                        out.group(kind),
                        had,
                        *chunk,
                        demand,
                        q.group(kind),
                    ));
                    assert(subtracted(c0, c6, *h, kind, *chunk, pc@, demand, *q));
                    if plain(cs) && plain_chunk(*chunk) {
                        lemma_gathered_grows(
                            c1.graph,
                            c3.graph,
                            cs,
                            chunk.addr,
                            out.group(kind),
                            had,
                        );
                        lemma_consumed_earlier(c0, c3, c6, pc@, cs, *chunk, q.group(kind));
                    }
                }
            }
            return r;
        },
        Some(e) => normalize_guard_for_consume(ctx, e, pc),
    };
    let ghost c2 = *ctx;
    proof {
        lemma_reaches_extended(c1, c2);
        lemma_reaches_trans(c0, c1, c2);
        lemma_chunk_grows(c1.graph, c2.graph, *chunk);
        lemma_cube_grows(c1.graph, c2.graph, pc@);
        lemma_heap_grows(c1.graph, c2.graph, *h);
        lemma_heap_grows(c1.graph, c2.graph, out);
    }
    let need = chunk.perm.to_id(ctx);
    let ghost c3 = *ctx;
    proof {
        lemma_reaches_extended(c2, c3);
        lemma_reaches_trans(c1, c2, c3);
        lemma_reaches_trans(c0, c1, c3);
        lemma_chunk_grows(c2.graph, c3.graph, *chunk);
        lemma_chunk_grows(c2.graph, c3.graph, e);
        lemma_cube_grows(c2.graph, c3.graph, pc@);
        lemma_heap_grows(c2.graph, c3.graph, *h);
        lemma_heap_grows(c2.graph, c3.graph, out);
    }
    if demand == Demand::Wildcard {
        let r = debit_wildcard(ctx, &out, kind, &e, chunk, pc);
        proof {
            let c4 = *ctx;
            lemma_take_reaches(c0, c1, c3, c4, pc@, cs, had.unwrap(), steps, *chunk);
            lemma_reaches_trans(c1, c3, c4);
            lemma_reaches_trans(c0, c1, c4);
            if r is Err {
                lemma_readied_grows(c1.graph, c2.graph, c3.graph, pc@, had.unwrap(), e);
                assert(builds(c1, c3));
                assert(readied(c1.graph, c3.graph, pc@, had.unwrap(), e));
                assert(consolidated(c1.graph, *h, kind, chunk.addr, out, had));
                assert(refused(c0, c4, *h, kind, *chunk, pc@, demand));
                assert(asked_first(c0, *h, kind, *chunk, pc@));
            }
            if let Ok(ref q) = r {
                lemma_leads_trans(c2, c3, c4);
                lemma_readied_grows(c1.graph, c2.graph, c4.graph, pc@, had.unwrap(), e);
                assert(taken_out(
                    c1.graph,
                    c4.graph,
                    pc@,
                    out.group(kind),
                    had,
                    *chunk,
                    demand,
                    q.group(kind),
                ));
                assert(subtracted(c0, c4, *h, kind, *chunk, pc@, demand, *q));
            }
        }
        return r;
    }
    if !nothing && !prove_sufficient_aligned(ctx, &e.perm, &chunk.perm, pc) {
        let ghost c4 = *ctx;
        proof {
            lemma_reaches_trans(c1, c3, c4);
            lemma_reaches_trans(c0, c1, c4);
            lemma_chunk_grows(c3.graph, c4.graph, *chunk);
            lemma_chunk_grows(c3.graph, c4.graph, e);
            lemma_cube_grows(c3.graph, c4.graph, pc@);
            lemma_heap_grows(c3.graph, c4.graph, *h);
            lemma_heap_grows(c3.graph, c4.graph, out);
            lemma_grows_denotes(c3.graph, c4.graph, need, perm_tm(chunk.perm));
            lemma_leads_trans(c1, c3, c4);
            lemma_made_grows(c1.graph, c4.graph, pc@, cs, had.unwrap(), steps);
            assert(stands_for(c4.graph, pc@, cs, e, chunk.addr));
        }
        let r = heap_subtract_summarized_fallbacks(ctx, h, &out, kind, Some(&e), chunk, need, pc);
        proof {
            let c5 = *ctx;
            lemma_group_take(pc@, cs, *chunk, c0.next_fresh, c4.next_fresh);
            lemma_reaches_more(c4, c5, take_facts(pc@, cs, *chunk, c4.next_fresh), fs);
            lemma_reaches_trans(c1, c4, c5);
            lemma_reaches_trans(c0, c4, c5);
            lemma_leads_trans(c2, c3, c4);
            lemma_leads_trans(c2, c4, c5);
            if r is Err {
                lemma_readied_grows(c1.graph, c2.graph, c3.graph, pc@, had.unwrap(), e);
                assert(builds(c1, c3));
                assert(unmet_together(c4, c5, pc@, cs, Some(e), *chunk, need));
                assert(readied(c1.graph, c3.graph, pc@, had.unwrap(), e));
                assert(consolidated(c1.graph, *h, kind, chunk.addr, out, had));
                assert(refused(c0, c5, *h, kind, *chunk, pc@, demand));
                assert(asked_first(c0, *h, kind, *chunk, pc@));
            }
            if let Ok(ref q) = r {
                lemma_grows_denotes(c4.graph, c5.graph, need, perm_tm(chunk.perm));
                lemma_readied_grows(c1.graph, c2.graph, c5.graph, pc@, had.unwrap(), e);
                assert(met_by_many(c5.graph, pc@, out.group(kind), *chunk, q.group(kind)));
                assert(taken_out(
                    c1.graph,
                    c5.graph,
                    pc@,
                    out.group(kind),
                    had,
                    *chunk,
                    demand,
                    q.group(kind),
                ));
                assert(subtracted(c0, c5, *h, kind, *chunk, pc@, demand, *q));
                if plain(cs) && plain_chunk(*chunk) {
                    lemma_plain_found(out.group(kind), had.unwrap());
                    lemma_leads_trans(c1, c3, c4);
                    lemma_gathered_grows(
                        c1.graph,
                        c4.graph,
                        cs,
                        chunk.addr,
                        out.group(kind),
                        had,
                    );
                    assert(had == Some(e));
                    lemma_consumed_earlier(c0, c4, c5, pc@, cs, *chunk, q.group(kind));
                }
            }
        }
        return r;
    }
    let ghost c4 = *ctx;
    proof {
        lemma_reaches_refl(c3);
        lemma_reaches_trans(c1, c3, c4);
        lemma_reaches_trans(c0, c1, c4);
        lemma_chunk_grows(c3.graph, c4.graph, *chunk);
        lemma_chunk_grows(c3.graph, c4.graph, e);
        lemma_heap_grows(c3.graph, c4.graph, out);
        if nothing && !c4.graph.full() {
            assert forall|m: Model| #[trigger]
                c4.graph.models(m) && cube_holds(m, pc@) && perm_sorted(m, e.perm) && perm_sorted(
                    m,
                    chunk.perm,
                ) implies perm_amt(m, e.perm) >= perm_amt(m, chunk.perm) || perm_amt(
                m,
                chunk.perm,
            ) <= 0 as real by {
                lemma_known_nothing(c0.graph, c4.graph, m, chunk.perm);
            }
        }
    }
    let q = debit_direct(ctx, &out, kind, &e, chunk);
    proof {
        let c5 = *ctx;
        lemma_leads_trans(c1, c3, c4);
        lemma_reaches_more(
            c4,
            c5,
            only(same_fact(e.value, chunk.value)),
            only(same_fact(e.value, chunk.value)) + fresh_facts(c4.next_fresh),
        );
        lemma_take_reaches(c0, c1, c4, c5, pc@, cs, had.unwrap(), steps, *chunk);
        lemma_reaches_trans(c1, c4, c5);
        lemma_reaches_trans(c0, c4, c5);
        lemma_leads_trans(c2, c3, c4);
        lemma_leads_trans(c2, c4, c5);
        lemma_readied_grows(c1.graph, c2.graph, c5.graph, pc@, had.unwrap(), e);
        let rest = choose|rest: ChunkPerm| #[trigger]
            debited(c5.graph, out.group(kind), e, *chunk, rest, q.group(kind)) && (wild_in(rest)
                ==> wild_in(e.perm));
        if !c5.graph.full() {
            assert forall|m: Model| #[trigger]
                c5.graph.models(m) && cube_holds(m, pc@) && perm_sorted(m, e.perm) && perm_sorted(
                    m,
                    chunk.perm,
                ) implies perm_amt(m, e.perm) >= perm_amt(m, chunk.perm) || perm_amt(
                m,
                chunk.perm,
            ) <= 0 as real by {
                lemma_grows_models(c4.graph, c5.graph, m);
            }
        }
        assert(met_by_one(c5.graph, pc@, out.group(kind), e, *chunk, q.group(kind)));
        assert(taken_out(
            c1.graph,
            c5.graph,
            pc@,
            out.group(kind),
            had,
            *chunk,
            demand,
            q.group(kind),
        ));
        assert(subtracted(c0, c5, *h, kind, *chunk, pc@, demand, q));
        if plain(cs) && plain_chunk(*chunk) {
            lemma_plain_found(out.group(kind), had.unwrap());
            lemma_leads_trans(c1, c4, c5);
            lemma_gathered_grows(c1.graph, c5.graph, cs, chunk.addr, out.group(kind), had);
            lemma_direct_taken(
                c5,
                pc@,
                cs,
                out.group(kind),
                e,
                *chunk,
                rest,
                q.group(kind),
            );
        }
    }
    Ok(q)
}

proof fn lemma_plain_found(out: Seq<Chunk>, e: Chunk)
    requires
        plain(out),
        holds_chunk(out, e),
    ensures
        plain_chunk(e),
{
    crate::heap::groups::lemma_place(out, e.addr);
    assert(plain_chunk(out[place(out, e.addr)]));
}

/// Takes a chunk out of a heap on a path.
pub fn heap_subtract(
    ctx: &mut Context,
    h: &Heap,
    kind: usize,
    chunk: &Chunk,
    pc: &Vec<(Id, Polarity)>,
    demand: Demand,
) -> (r: Result<Heap, VerifyError>)
    requires
        old(ctx).wf(),
        heap_in(old(ctx).graph, *h),
        chunk_in(old(ctx).graph, *chunk),
        cube_in(old(ctx).graph, pc@),
    ensures
        reaches(
            *old(ctx),
            *final(ctx),
            take_facts(pc@, h.group(kind), *chunk, old(ctx).next_fresh),
        ),
        match r {
            Ok(q) => {
                &&& heap_in(final(ctx).graph, q)
                &&& forall|k: usize| k != kind ==> #[trigger] q.group(k) == h.group(k)
                &&& subtracted(*old(ctx), *final(ctx), *h, kind, *chunk, pc@, demand, q)
                &&& plain(h.group(kind)) && plain_chunk(*chunk) && demand == Demand::Concrete
                    ==> consumed(
                    *old(ctx),
                    *final(ctx),
                    pc@,
                    h.group(kind),
                    *chunk,
                    q.group(kind),
                )
            },
            Err(e) => e is InsufficientPermission && refused(
                *old(ctx),
                *final(ctx),
                *h,
                kind,
                *chunk,
                pc@,
                demand,
            ) && asked_first(*old(ctx), *h, kind, *chunk, pc@),
        },
        forall|i: int| #[trigger]
            sole_canon(old(ctx).graph, h.group(kind), chunk.addr, i) && h.group(
                kind,
            )[i].guard@.len() == 0 && (match demand {
                Demand::Concrete => sure_enough(old(ctx).graph, h.group(kind)[i], *chunk),
                Demand::Wildcard => sure_positive(old(ctx).graph, h.group(kind)[i], *chunk),
            }) ==> r is Ok,
        known_nothing(old(ctx).graph, chunk.perm) && demand == Demand::Concrete
            && !final(ctx).graph.full() ==> r is Ok,
{
    heap_subtract_inner(ctx, h, kind, chunk, pc, demand, ConsumePass::First)
}

/// What was put into a group and taken off again leaves every location what it had.
pub proof fn law_give_back(
    g: Graph,
    m: Model,
    cs: Seq<Chunk>,
    c: Chunk,
    put: Seq<Chunk>,
    r: Seq<Chunk>,
    loc: Value,
)
    requires
        !g.full(),
        g.models(m),
        gains(g, put, cs, c),
        taken_off(m, put, c, r),
    ensures
        total(m, r, loc) == total(m, cs, loc),
{
    assert(total(m, put, loc) == total(m, cs, loc) + chunk_share(m, c, loc));
    assert(total(m, r, loc) == total(m, put, loc) - chunk_share(m, c, loc));
}

} // verus!
