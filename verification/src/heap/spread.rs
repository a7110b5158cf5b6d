//! Taking permission off several chunks that may be at one location.

use crate::context::{
    cube_holds, cube_in, learns, lemma_cube_grows, lemma_leads_trans, Context,
};
use crate::graph::Graph;
use crate::heap::amount::{law_all_zero, perm_all_zero, perm_sub};
use crate::heap::chunk::{lemma_chunk_grows, Chunk};
use crate::heap::enough::{unmet_perm, answered, known_enough, prove_sufficient, Ask};
use crate::heap::facts::{
    deduces, equal_fact, lemma_reaches_asserted, lemma_reaches_extended, lemma_reaches_follows,
    lemma_reaches_more, lemma_reaches_refl, lemma_reaches_trans, only, reaches,
};
use crate::heap::gate::{gate_amount_by_pc, law_gated_amount};
use crate::heap::groups::{
    apart, chunks_in, heap_in, law_with, law_without, lemma_heap_grows, lemma_place,
    lemma_with_apart, lemma_without_apart, total, with, without, Heap,
};
use crate::heap::join::lemma_to_id;
use crate::heap::perm::{lemma_perm_grows, perm_amt, perm_in, perm_tm, wild_in, ChunkPerm};
use crate::heap::summary::{
    chunks_of_set, lemma_members_grow, member_in, members_in, Member,
};
use crate::heap::union::{
    holds_chunk, lemma_heap_with, lemma_with_in, lemma_with_keeps, lemma_without_in,
    lemma_without_keeps,
};
use crate::lang::Id;
use crate::method::error::VerifyError;
use crate::method::merge::amount;
use crate::model::{lemma_tm_bin, lemma_tm_ite, t_bin, t_ite, t_ltr, Model, Tm};
use crate::rewrite::guards::guard_expr;
use crate::terms::{lemma_grows_denotes, lemma_grows_models, Expr};
use crate::vmir::{BinOp, Polarity, Value};
use vstd::prelude::*;

verus! {

/// What is still demanded after the first members gave what they could.
pub open spec fn left(m: Model, set: Seq<Member>, n: int, need: real) -> real
    decreases n,
{
    if n <= 0 {
        need
    } else {
        left(m, set, n - 1, need) - taken(m, set, n - 1, left(m, set, n - 1, need))
    }
}

/// What a member gives where so much is demanded: all that it holds or all that is
/// demanded, and nothing where its cube does not hold.
pub open spec fn taken(m: Model, set: Seq<Member>, i: int, need: real) -> real {
    let held = perm_amt(m, set[i].chunk.perm);
    if !cube_holds(m, set[i].cube@) {
        0 as real
    } else if held < need {
        held
    } else {
        need
    }
}

/// The amounts of the members whose cubes hold.
pub open spec fn sum_on(m: Model, set: Seq<Member>, n: int) -> real
    decreases n,
{
    if n <= 0 {
        0 as real
    } else {
        sum_on(m, set, n - 1) + (if cube_holds(m, set[n - 1].cube@) {
            perm_amt(m, set[n - 1].chunk.perm)
        } else {
            0 as real
        })
    }
}

/// No member holds less than nothing.
pub open spec fn none_negative(m: Model, set: Seq<Member>) -> bool {
    forall|i: int| 0 <= i < set.len() ==> perm_amt(m, (#[trigger] set[i]).chunk.perm) >= 0 as real
}

/// What is still demanded is what the members did not have.
pub proof fn law_left(m: Model, set: Seq<Member>, n: int, need: real)
    requires
        0 <= n <= set.len(),
        need >= 0 as real,
        none_negative(m, set),
    ensures
        left(m, set, n, need) == (if sum_on(m, set, n) < need {
            need - sum_on(m, set, n)
        } else {
            0 as real
        }),
        sum_on(m, set, n) >= 0 as real,
    decreases n,
{
    if n > 0 {
        law_left(m, set, n - 1, need);
        assert(perm_amt(m, set[n - 1].chunk.perm) >= 0 as real);
    }
}

/// What the members at a location give.
pub open spec fn taken_at(m: Model, set: Seq<Member>, n: int, need: real, loc: Value) -> real
    decreases n,
{
    if n <= 0 {
        0 as real
    } else {
        taken_at(m, set, n - 1, need, loc) + (if m.at(set[n - 1].chunk.addr) == loc {
            taken(m, set, n - 1, left(m, set, n - 1, need))
        } else {
            0 as real
        })
    }
}

/// Where members whose cubes hold are at one location, all that is given is given
/// there.
pub proof fn law_taken_at(m: Model, set: Seq<Member>, n: int, need: real, loc: Value)
    requires
        0 <= n <= set.len(),
        forall|i: int|
            0 <= i < set.len() && cube_holds(m, (#[trigger] set[i]).cube@) ==> m.at(
                set[i].chunk.addr,
            ) == loc,
    ensures
        taken_at(m, set, n, need, loc) == need - left(m, set, n, need),
        forall|other: Value|
            other != loc ==> #[trigger] taken_at(m, set, n, need, other) == 0 as real,
    decreases n,
{
    if n > 0 {
        law_taken_at(m, set, n - 1, need, loc);
        let w = set[n - 1];
        assert(cube_holds(m, w.cube@) ==> m.at(w.chunk.addr) == loc);
        assert forall|other: Value| other != loc implies #[trigger] taken_at(
            m,
            set,
            n,
            need,
            other,
        ) == 0 as real by {
            assert(taken_at(m, set, n - 1, need, other) == 0 as real);
        }
    }
}

/// The chunks when what is left of the first members was put back.
pub open spec fn list_after(
    cs: Seq<Chunk>,
    set: Seq<Member>,
    rests: Seq<ChunkPerm>,
    drops: Seq<bool>,
    n: int,
) -> Seq<Chunk>
    decreases n,
{
    if n <= 0 {
        cs
    } else {
        let front = list_after(cs, set, rests, drops, n - 1);
        let c = set[n - 1].chunk;
        if drops[n - 1] {
            without(front, c.addr)
        } else {
            with(front, Chunk { perm: rests[n - 1], ..c })
        }
    }
}

/// What is left of a member, which is nothing where it was dropped.
pub open spec fn rest_is(
    m: Model,
    set: Seq<Member>,
    rests: Seq<ChunkPerm>,
    drops: Seq<bool>,
    i: int,
    need: real,
) -> bool {
    &&& perm_amt(m, rests[i]) == perm_amt(m, set[i].chunk.perm) - taken(
        m,
        set,
        i,
        left(m, set, i, need),
    )
    &&& drops[i] ==> perm_amt(m, rests[i]) == 0 as real
}

/// What is left of the first members.
pub open spec fn rests_are(
    g: Graph,
    set: Seq<Member>,
    rests: Seq<ChunkPerm>,
    drops: Seq<bool>,
    n: int,
    need: Id,
) -> bool {
    &&& rests.len() == n
    &&& drops.len() == n
    &&& g.full() || forall|m: Model, i: int|
        #![trigger g.models(m), rests[i]]
        g.models(m) && 0 <= i < n ==> rest_is(m, set, rests, drops, i, amount(m.at(need)))
}

/// A demand was met by members in turn.
pub open spec fn spread_over(
    g: Graph,
    cs: Seq<Chunk>,
    set: Seq<Member>,
    need: Id,
    r: Seq<Chunk>,
) -> bool {
    exists|rests: Seq<ChunkPerm>, drops: Seq<bool>| #[trigger]
        rests_are(g, set, rests, drops, set.len() as int, need) && r == list_after(
            cs,
            set,
            rests,
            drops,
            set.len() as int,
        )
}

proof fn lemma_list_keeps(
    cs: Seq<Chunk>,
    set: Seq<Member>,
    rests: Seq<ChunkPerm>,
    drops: Seq<bool>,
    n: int,
)
    requires
        0 <= n <= set.len(),
        apart(cs),
        apart(chunks_of_set(set)),
        forall|i: int| 0 <= i < set.len() ==> holds_chunk(cs, (#[trigger] set[i]).chunk),
    ensures
        apart(list_after(cs, set, rests, drops, n)),
        forall|i: int|
            n <= i < set.len() ==> holds_chunk(
                list_after(cs, set, rests, drops, n),
                (#[trigger] set[i]).chunk,
            ),
    decreases n,
{
    if n > 0 {
        lemma_list_keeps(cs, set, rests, drops, n - 1);
        let front = list_after(cs, set, rests, drops, n - 1);
        let c = set[n - 1].chunk;
        let put = Chunk { perm: rests[n - 1], ..c };
        lemma_with_apart(front, put);
        lemma_without_apart(front, c.addr);
        let ks = chunks_of_set(set);
        assert forall|i: int| n <= i < set.len() implies holds_chunk(
            list_after(cs, set, rests, drops, n),
            (#[trigger] set[i]).chunk,
        ) by {
            assert(ks[n - 1].addr != ks[i].addr);
            assert(holds_chunk(front, set[i].chunk));
            lemma_with_keeps(front, put, set[i].chunk);
            lemma_without_keeps(front, c.addr, set[i].chunk);
        }
    }
}

proof fn lemma_list_total(
    g: Graph,
    m: Model,
    cs: Seq<Chunk>,
    set: Seq<Member>,
    rests: Seq<ChunkPerm>,
    drops: Seq<bool>,
    n: int,
    need: Id,
    loc: Value,
)
    requires
        0 <= n <= set.len(),
        !g.full(),
        g.models(m),
        apart(cs),
        apart(chunks_of_set(set)),
        forall|i: int|
            0 <= i < set.len() ==> holds_chunk(cs, (#[trigger] set[i]).chunk)
                && set[i].chunk.guard@.len() == 0,
        rests_are(g, set, rests, drops, set.len() as int, need),
    ensures
        total(m, list_after(cs, set, rests, drops, n), loc) == total(m, cs, loc) - taken_at(
            m,
            set,
            n,
            amount(m.at(need)),
            loc,
        ),
    decreases n,
{
    if n > 0 {
        lemma_list_total(g, m, cs, set, rests, drops, n - 1, need, loc);
        lemma_list_keeps(cs, set, rests, drops, n - 1);
        let front = list_after(cs, set, rests, drops, n - 1);
        let c = set[n - 1].chunk;
        let put = Chunk { perm: rests[n - 1], ..c };
        assert(holds_chunk(front, set[n - 1].chunk));
        assert(rest_is(m, set, rests, drops, n - 1, amount(m.at(need)))) by {
            let _ = rests[n - 1];
        }
        assert(set[n - 1].chunk.guard@.len() == 0);
        lemma_place(front, c.addr);
        law_with(m, front, put, loc);
        law_without(m, front, c.addr, loc);
    }
}

/// Where chunks without guards met a demand, each location has what it had, without
/// what the members there gave.
pub proof fn law_spread(
    g: Graph,
    m: Model,
    cs: Seq<Chunk>,
    set: Seq<Member>,
    need: Id,
    r: Seq<Chunk>,
    loc: Value,
)
    requires
        !g.full(),
        g.models(m),
        apart(cs),
        apart(chunks_of_set(set)),
        forall|i: int|
            0 <= i < set.len() ==> holds_chunk(cs, (#[trigger] set[i]).chunk)
                && set[i].chunk.guard@.len() == 0,
        spread_over(g, cs, set, need, r),
    ensures
        total(m, r, loc) == total(m, cs, loc) - taken_at(
            m,
            set,
            set.len() as int,
            amount(m.at(need)),
            loc,
        ),
{
    let (rests, drops) = choose|rests: Seq<ChunkPerm>, drops: Seq<bool>| #[trigger]
        rests_are(g, set, rests, drops, set.len() as int, need) && r == list_after(
            cs,
            set,
            rests,
            drops,
            set.len() as int,
        );
    lemma_list_total(g, m, cs, set, rests, drops, set.len() as int, need, loc);
}

/// Where a cube holds, two values are one.
pub fn assume_equal_on(ctx: &mut Context, v: Id, w: Id, cube: &Vec<(Id, Polarity)>)
    requires
        old(ctx).wf(),
        old(ctx).graph.has(v),
        old(ctx).graph.has(w),
        cube_in(old(ctx).graph, cube@),
    ensures
        reaches(*old(ctx), *final(ctx), only(equal_fact(cube@, v, w))),
        learns(*old(ctx), *final(ctx), seq![equal_fact(cube@, v, w)]),
{
    let ghost c0 = *ctx;
    let fact = guard_expr(cube, Expr::bin(BinOp::Eq, Expr::Class(v), Expr::Class(w)));
    ctx.assume_expr(&fact);
    proof {
        let f = equal_fact(cube@, v, w);
        lemma_reaches_asserted(c0, *ctx, f, only(f));
    }
}

/// The facts that the value of a member is that of the demand, each where its cube
/// holds.
pub open spec fn value_facts(set: Seq<Member>, v: Id) -> Seq<(Tm, Tm)> {
    Seq::new(set.len(), |i: int| equal_fact(set[i].cube@, set[i].chunk.value, v))
}

/// What may be assumed where a demand is taken off members: where its cube holds, the value
/// of a member is that of the demand.
pub open spec fn member_facts(set: Seq<Member>, v: Id) -> Set<(crate::graph::Graph, (Tm, Tm))> {
    Set::new(
        |e: (crate::graph::Graph, (Tm, Tm))|
            exists|i: int| 0 <= i < set.len() && e.1 == #[trigger] value_facts(set, v)[i],
    )
}

/// What a member gives, as a class.
proof fn lemma_taken(
    g: Graph,
    m: Model,
    set: Seq<Member>,
    i: int,
    hold: Id,
    remaining: Id,
    take: Id,
    gated: Id,
)
    requires
        0 <= i < set.len(),
        !g.full(),
        g.models(m),
        g.denotes(hold, perm_tm(set[i].chunk.perm)),
        g.denotes(
            take,
            t_ite(
                t_ltr(Tm::Class(hold), Tm::Class(remaining)),
                Tm::Class(hold),
                Tm::Class(remaining),
            ),
        ),
        g.denotes(
            gated,
            crate::heap::gate::gate_tm(
                set[i].cube@,
                Tm::Class(take),
                crate::model::t_real(0 as real),
            ),
        ),
    ensures
        amount(m.at(gated)) == taken(m, set, i, amount(m.at(remaining))),
{
    lemma_to_id(g, m, hold, set[i].chunk.perm);
    lemma_tm_bin(m, BinOp::LtR, Tm::Class(hold), Tm::Class(remaining));
    lemma_tm_ite(
        m,
        t_ltr(Tm::Class(hold), Tm::Class(remaining)),
        Tm::Class(hold),
        Tm::Class(remaining),
    );
    law_gated_amount(g, m, gated, take, set[i].cube@);
}

proof fn lemma_list_same(
    cs: Seq<Chunk>,
    set: Seq<Member>,
    rests: Seq<ChunkPerm>,
    drops: Seq<bool>,
    more: Seq<ChunkPerm>,
    flags: Seq<bool>,
    n: int,
)
    requires
        forall|i: int| 0 <= i < n ==> #[trigger] rests[i] == more[i],
        forall|i: int| 0 <= i < n ==> #[trigger] drops[i] == flags[i],
    ensures
        list_after(cs, set, rests, drops, n) == list_after(cs, set, more, flags, n),
    decreases n,
{
    if n > 0 {
        lemma_list_same(cs, set, rests, drops, more, flags, n - 1);
        let _ = rests[n - 1];
        let _ = drops[n - 1];
    }
}

/// Takes from one member what it can give of what is still demanded. Gives what is
/// left of it and what is still demanded then.
fn take_member(ctx: &mut Context, w: &Member, remaining: Id, Ghost(set): Ghost<Seq<Member>>, Ghost(
    i,
): Ghost<int>) -> (r: (ChunkPerm, Id))
    requires
        old(ctx).wf(),
        0 <= i < set.len(),
        set[i] == *w,
        member_in(old(ctx).graph, *w),
        old(ctx).graph.has(remaining),
    ensures
        deduces(*old(ctx), *final(ctx)),
        perm_in(final(ctx).graph, r.0),
        final(ctx).graph.has(r.1),
        wild_in(r.0) ==> wild_in(w.chunk.perm),
        final(ctx).graph.full() || forall|m: Model| #[trigger]
            final(ctx).graph.models(m) ==> {
                let t = taken(m, set, i, amount(m.at(remaining)));
                &&& perm_amt(m, r.0) == perm_amt(m, w.chunk.perm) - t
                &&& amount(m.at(r.1)) == amount(m.at(remaining)) - t
            },
{
    let ghost c0 = *ctx;
    let hold = w.chunk.perm.to_id(ctx);
    let ghost c1 = *ctx;
    let take = ctx.build(
        &Expr::ite(
            Expr::bin(BinOp::LtR, Expr::Class(hold), Expr::Class(remaining)),
            Expr::Class(hold),
            Expr::Class(remaining),
        ),
    );
    let ghost c2 = *ctx;
    proof {
        lemma_leads_trans(c0, c1, c2);
        lemma_cube_grows(c0.graph, c2.graph, w.cube@);
    }
    let gated = gate_amount_by_pc(ctx, take, &w.cube);
    let ghost c3 = *ctx;
    proof {
        lemma_leads_trans(c1, c2, c3);
        lemma_leads_trans(c0, c2, c3);
        lemma_perm_grows(c0.graph, c3.graph, w.chunk.perm);
    }
    let rest = perm_sub(ctx, &w.chunk.perm, gated);
    let ghost c4 = *ctx;
    proof {
        lemma_leads_trans(c0, c3, c4);
    }
    let next = ctx.build(&Expr::bin(BinOp::SubR, Expr::Class(remaining), Expr::Class(gated)));
    let ghost cs = *ctx;
    ctx.rebuild();
    let ghost c5 = *ctx;
    let r = (rest, next);
    proof {
        lemma_leads_trans(c0, c4, cs);
        lemma_reaches_extended(c0, cs);
        lemma_reaches_follows(cs, c5);
        lemma_reaches_trans(c0, cs, c5);
        lemma_leads_trans(c4, cs, c5);
        lemma_leads_trans(c3, c4, c5);
        lemma_grows_denotes(
            cs.graph,
            c5.graph,
            next,
            t_bin(BinOp::SubR, Tm::Class(remaining), Tm::Class(gated)),
        );
        lemma_leads_trans(c2, c3, c5);
        lemma_leads_trans(c1, c2, c5);
        lemma_perm_grows(c4.graph, c5.graph, rest);
        let g = c5.graph;
        lemma_grows_denotes(c1.graph, g, hold, perm_tm(w.chunk.perm));
        lemma_grows_denotes(
            c2.graph,
            g,
            take,
            t_ite(
                t_ltr(Tm::Class(hold), Tm::Class(remaining)),
                Tm::Class(hold),
                Tm::Class(remaining),
            ),
        );
        lemma_grows_denotes(
            c3.graph,
            g,
            gated,
            crate::heap::gate::gate_tm(
                w.cube@,
                Tm::Class(take),
                crate::model::t_real(0 as real),
            ),
        );
        if !g.full() {
            assert forall|m: Model| #[trigger] g.models(m) implies {
                let t = taken(m, set, i, amount(m.at(remaining)));
                &&& perm_amt(m, r.0) == perm_amt(m, w.chunk.perm) - t
                &&& amount(m.at(r.1)) == amount(m.at(remaining)) - t
            } by {
                lemma_taken(g, m, set, i, hold, remaining, take, gated);
                lemma_grows_models(c4.graph, g, m);
                lemma_tm_bin(m, BinOp::SubR, Tm::Class(remaining), Tm::Class(gated));
                assert(perm_amt(m, ChunkPerm::Leaf { id: gated, wild: false }) == amount(
                    m.at(gated),
                ));
            }
        }
    }
    r
}

/// Where cubes hold, the values of members and that of the demand are one.
fn assume_values_on(ctx: &mut Context, set: &Vec<Member>, value: Id)
    requires
        old(ctx).wf(),
        members_in(old(ctx).graph, set@),
        old(ctx).graph.has(value),
    ensures
        reaches(*old(ctx), *final(ctx), member_facts(set@, value)),
        learns(*old(ctx), *final(ctx), value_facts(set@, value)),
{
    let ghost c0 = *ctx;
    let ghost all = value_facts(set@, value);
    let mut i: usize = 0;
    proof {
        lemma_reaches_refl(c0);
        crate::context::lemma_learns_refl(c0);
        assert(all.take(0) =~= Seq::empty());
    }
    while i < set.len()
        invariant
            i <= set@.len(),
            c0.wf(),
            members_in(c0.graph, set@),
            c0.graph.has(value),
            all == value_facts(set@, value),
            ctx.wf(),
            reaches(c0, *ctx, member_facts(set@, value)),
            learns(c0, *ctx, all.take(i as int)),
        decreases set.len() - i,
    {
        let ghost c1 = *ctx;
        proof {
            assert(member_in(c0.graph, set@[i as int]));
            lemma_chunk_grows(c0.graph, c1.graph, set@[i as int].chunk);
            lemma_cube_grows(c0.graph, c1.graph, set@[i as int].cube@);
        }
        assume_equal_on(ctx, set[i].chunk.value, value, &set[i].cube);
        proof {
            assert(only(all[i as int]).subset_of(member_facts(set@, value)));
            lemma_reaches_more(c1, *ctx, only(all[i as int]), member_facts(set@, value));
            lemma_reaches_trans(c0, c1, *ctx);
            let f = seq![all[i as int]];
            crate::context::lemma_learns_trans(c0, c1, *ctx, all.take(i as int), f);
            assert(all.take(i + 1) =~= all.take(i as int) + f);
        }
        i += 1;
    }
    proof {
        assert(all.take(set@.len() as int) =~= all);
    }
}

/// Takes a demand off members that may be at its location, each where its cube holds.
/// Their sum must be enough on the path. They give in turn what they have, until
/// nothing is demanded.
pub fn heap_subtract_summarized(
    ctx: &mut Context,
    out: &Heap,
    kind: usize,
    set: &Vec<Member>,
    sum: &ChunkPerm,
    value: Id,
    need: Id,
    pc: &Vec<(Id, Polarity)>,
) -> (r: Result<Heap, VerifyError>)
    requires
        old(ctx).wf(),
        heap_in(old(ctx).graph, *out),
        members_in(old(ctx).graph, set@),
        perm_in(old(ctx).graph, *sum),
        old(ctx).graph.has(value),
        old(ctx).graph.has(need),
        cube_in(old(ctx).graph, pc@),
    ensures
        reaches(*old(ctx), *final(ctx), member_facts(set@, value)),
        match r {
            Ok(h) => {
                &&& heap_in(final(ctx).graph, h)
                &&& forall|k: usize| k != kind ==> #[trigger] h.group(k) == out.group(k)
                &&& final(ctx).graph.full() || answered(
                    final(ctx).graph,
                    pc@,
                    *sum,
                    Ask::AtLeast(need),
                )
                &&& spread_over(final(ctx).graph, out.group(kind), set@, need, h.group(kind))
            },
            Err(e) => e is InsufficientPermission && unmet_perm(
                *old(ctx),
                *final(ctx),
                pc@,
                *sum,
                Ask::AtLeast(need),
            ) && !(*sum matches ChunkPerm::Leaf { id, .. }
                && known_enough(old(ctx).graph, id, Ask::AtLeast(need))),
        },
{
    let ghost c0 = *ctx;
    if !prove_sufficient(ctx, sum, need, pc) {
        return Err(VerifyError::InsufficientPermission);
    }
    let ghost c1 = *ctx;
    proof {
        lemma_members_grow(c0.graph, c1.graph, set@);
    }
    assume_values_on(ctx, set, value);
    let ghost c2 = *ctx;
    let mut h = out.copy();
    let mut remaining = need;
    let mut i: usize = 0;
    let ghost mut rests: Seq<ChunkPerm> = Seq::empty();
    let ghost mut drops: Seq<bool> = Seq::empty();
    proof {
        lemma_reaches_trans(c0, c1, c2);
        lemma_members_grow(c1.graph, c2.graph, set@);
        lemma_heap_grows(c0.graph, c2.graph, *out);
        lemma_heap_with(c2.graph, *out, h, kind);
        lemma_reaches_refl(c2);
    }
    while i < set.len()
        invariant
            i <= set@.len(),
            c2.wf(),
            ctx.wf(),
            deduces(c2, *ctx),
            members_in(c2.graph, set@),
            c2.graph.has(need),
            ctx.graph.has(remaining),
            heap_in(ctx.graph, h),
            forall|k: usize| k != kind ==> #[trigger] h.group(k) == out.group(k),
            rests_are(ctx.graph, set@, rests, drops, i as int, need),
            h.group(kind) == list_after(out.group(kind), set@, rests, drops, i as int),
            ctx.graph.full() || forall|m: Model| #[trigger]
                ctx.graph.models(m) ==> amount(m.at(remaining)) == left(
                    m,
                    set@,
                    i as int,
                    amount(m.at(need)),
                ),
        decreases set.len() - i,
    {
        let ghost c3 = *ctx;
        let ghost h0 = h;
        let ghost r0 = rests;
        let ghost d0 = drops;
        let ghost before = remaining;
        let w = &set[i];
        proof {
            assert(member_in(c2.graph, set@[i as int]));
            lemma_chunk_grows(c2.graph, c3.graph, w.chunk);
            lemma_cube_grows(c2.graph, c3.graph, w.cube@);
        }
        let (rest, next) = take_member(ctx, w, remaining, Ghost(set@), Ghost(i as int));
        remaining = next;
        let ghost c4 = *ctx;
        let drop = perm_all_zero(&ctx.graph, &rest);
        proof {
            lemma_reaches_trans(c2, c3, c4);
            rests = rests.push(rest);
            drops = drops.push(drop);
            lemma_list_same(out.group(kind), set@, r0, d0, rests, drops, i as int);
            lemma_heap_grows(c3.graph, c4.graph, h);
            assert(chunks_in(c4.graph, h.group(kind)));
            lemma_chunk_grows(c3.graph, c4.graph, w.chunk);
            let g = c4.graph;
            if !g.full() {
                assert forall|m: Model, k: int|
                    #![trigger g.models(m), rests[k]]
                    g.models(m) && 0 <= k < i + 1 implies rest_is(
                    m,
                    set@,
                    rests,
                    drops,
                    k,
                    amount(m.at(need)),
                ) by {
                    lemma_grows_models(c3.graph, g, m);
                    if k < i {
                        let _ = r0[k];
                        assert(rest_is(m, set@, r0, d0, k, amount(m.at(need))));
                    } else {
                        if drop {
                            law_all_zero(g, m, rest);
                        }
                    }
                }
                assert forall|m: Model| #[trigger] g.models(m) implies amount(m.at(remaining))
                    == left(m, set@, i + 1, amount(m.at(need))) by {
                    lemma_grows_models(c3.graph, g, m);
                }
            }
        }
        if drop {
            h = h.without_chunk(kind, w.chunk.addr);
            proof {
                lemma_without_in(c4.graph, h0.group(kind), w.chunk.addr);
            }
        } else {
            let put = w.chunk.copy().with_perm(rest);
            proof {
                lemma_with_in(c4.graph, h0.group(kind), put);
            }
            h = h.with_chunk(kind, put);
        }
        proof {
            lemma_heap_with(c4.graph, h0, h, kind);
        }
        i += 1;
    }
    proof {
        let g = ctx.graph;
        lemma_reaches_trans(c0, c2, *ctx);
        lemma_leads_trans(c1, c2, *ctx);
        lemma_answered_grows(c1.graph, g, pc@, *sum, Ask::AtLeast(need));
        assert(spread_over(g, out.group(kind), set@, need, h.group(kind)));
    }
    Ok(h)
}

/// What is enough stays so.
pub proof fn lemma_answered_grows(
    g: Graph,
    h: Graph,
    pc: Seq<(Id, Polarity)>,
    p: ChunkPerm,
    ask: Ask,
)
    requires
        g.wf(),
        g.grows_to(h),
        answered(g, pc, p, ask),
    ensures
        h.full() || answered(h, pc, p, ask),
{
    if !h.full() {
        assert forall|m: Model| #[trigger]
            h.models(m) && cube_holds(m, pc) && crate::heap::perm::perm_sorted(m, p) implies crate::heap::enough::is_enough(
            m,
            ask,
            perm_amt(m, p),
        ) by {
            lemma_grows_models(g, h, m);
        }
    }
}

} // verus!
