//! Taking permission out of a heap.

use crate::context::{cube_holds, cube_in, lemma_cube_grows, Context};
use crate::graph::Graph;
use crate::heap::facts::{
    lemma_reaches_asserted, lemma_reaches_extended, lemma_reaches_follows, lemma_reaches_more,
    lemma_reaches_proof, lemma_reaches_refl, lemma_reaches_since, lemma_reaches_trans,
    lemma_shown_before, lemma_unshown_before, only, reaches, shown_after, since, unshown_after,
};
use crate::lang::Id;
use crate::method::error::VerifyError;
use crate::method::merge::{
    absorb, agree_facts, agreement, agrees_at, amount, canonical_entries, canonical_list,
    canonicalized, content, gathered, has_addr, held, lemma_canonicalized, lemma_entry_in,
    lemma_gathered_none, lemma_held_remove, lemma_held_update, lemma_made_grows, lemma_made_more,
    lemma_made_through, lemma_same_permissions, made_at,
};
use crate::method::plain::{
    addrs_differ, chunk_map, entries_in, lemma_chunk_map, lemma_entries_grow, Chunk, Heap,
};
use crate::model::{lemma_tm_bin, lemma_tm_not, t_bin, t_ltr, t_not, Model, Tm};
use crate::nums::{Int, Rat};
use crate::prove::{left_open, shown, shown_tm, unshown};
use crate::terms::{group_grows, lemma_grows_denotes, lemma_known, Expr};
use crate::vmir::{BinOp, Polarity, Value};
use vstd::prelude::*;

verus! {

/// The real that a class is known to be is zero.
pub fn known_zero(g: &Graph, id: Id) -> (r: bool)
    requires
        g.wf(),
        g.has(id),
    ensures
        r == (g.known_value(id) == Some(Value::Real(0 as real))),
{
    match g.known_real(id) {
        Some(q) => {
            let zero = Rat::from_int(&Int::from_i64(0));
            q.same(&zero)
        },
        None => false,
    }
}

/// That two classes are one.
pub open spec fn same_fact(v: Id, w: Id) -> (Tm, Tm) {
    (Tm::Class(v), Tm::Class(w))
}

/// That a chunk of one list and a chunk of another at one address have one value.
pub open spec fn gives_at(
    g: Graph,
    xs: Seq<(Id, Chunk)>,
    ys: Seq<(Id, Chunk)>,
    f: (Tm, Tm),
) -> bool {
    exists|k: Id, a: Chunk, b: Chunk, n: nat|
        {
            &&& #[trigger] made_at(g, xs, k, a, n)
            &&& #[trigger] made_at(g, ys, k, b, n)
            &&& f == same_fact(a.value, b.value)
        }
}

/// What may be assumed where the chunks of one list are taken out of another: that the
/// chunks of each list at one address agree, and that what is taken has the value of
/// what is held.
pub open spec fn give_facts(xs: Seq<(Id, Chunk)>, ys: Seq<(Id, Chunk)>) -> Set<
    (Graph, (Tm, Tm)),
> {
    agree_facts(Seq::empty(), xs) + agree_facts(Seq::empty(), ys) + Set::new(
        |e: (Graph, (Tm, Tm))| gives_at(e.0, xs, ys, e.1),
    )
}

/// One chunk taken from another at one address: what stays is the difference.
pub open spec fn leaves(g: Graph, c: Chunk, taken: Chunk, rest: Option<Chunk>) -> bool {
    g.full() || forall|m: Model| #[trigger]
        g.models(m) ==> m.at(c.value) == m.at(taken.value) && match rest {
            Some(r) => r.value == c.value && amount(m.at(r.perm)) == amount(m.at(c.perm)) - amount(
                m.at(taken.perm),
            ),
            None => amount(m.at(c.perm)) == amount(m.at(taken.perm)),
        }
}

/// On the path, a chunk has as much as is taken from it.
pub open spec fn enough(g: Graph, pc: Seq<(Id, Polarity)>, c: Chunk, taken: Chunk) -> bool {
    !g.full() && forall|m: Model| #[trigger]
        g.models(m) && cube_holds(m, pc) ==> amount(m.at(taken.perm)) <= amount(m.at(c.perm))
}

/// Takes a chunk from another of the same address: what stays, or nothing where that
/// is known to be zero.
pub fn take_chunk(ctx: &mut Context, c: Chunk, taken: Chunk, pc: &Vec<(Id, Polarity)>) -> (r: Result<
    Option<Chunk>,
    VerifyError,
>)
    requires
        old(ctx).wf(),
        old(ctx).graph.has(c.perm),
        old(ctx).graph.has(c.value),
        old(ctx).graph.has(taken.perm),
        old(ctx).graph.has(taken.value),
        cube_in(old(ctx).graph, pc@),
    ensures
        reaches(*old(ctx), *final(ctx), only(same_fact(c.value, taken.value))),
        r matches Err(e) ==> e == VerifyError::InsufficientPermission && unshown(
            *old(ctx),
            *final(ctx),
            pc@,
            t_not(t_ltr(Tm::Class(c.perm), Tm::Class(taken.perm))),
        ),
        r is Ok ==> shown_tm(
            *old(ctx),
            pc@,
            t_not(t_ltr(Tm::Class(c.perm), Tm::Class(taken.perm))),
        ),
        r matches Ok(rest) ==> leaves(final(ctx).graph, c, taken, rest) && (
        !final(ctx).graph.full() ==> enough(final(ctx).graph, pc@, c, taken)),
        r matches Ok(Some(rest)) ==> final(ctx).graph.has(rest.perm) && rest.value == c.value,
{
    broadcast use group_grows;

    let ghost c0 = *ctx;
    let below = Expr::bin(BinOp::LtR, Expr::Class(c.perm), Expr::Class(taken.perm));
    let goal = ctx.build(&Expr::negation(below));
    let ghost c1 = *ctx;
    let ghost tgoal = t_not(t_ltr(Tm::Class(c.perm), Tm::Class(taken.perm)));
    proof {
        lemma_reaches_extended(c0, c1);
        crate::context::lemma_builds_refl(c1);
        lemma_cube_grows(c0.graph, c1.graph, pc@);
    }
    let ok = ctx.prove_under_pc(goal, pc);
    let ghost c2 = *ctx;
    proof {
        lemma_reaches_proof(c1, c2, pc@, goal, ok);
        lemma_reaches_trans(c0, c1, c2);
    }
    if !ok {
        proof {
            assert(left_open(c1, c2, pc@, goal));
        }
        return Err(VerifyError::InsufficientPermission);
    }
    proof {
        assert(shown(c1, pc@, goal));
    }
    ctx.union(c.value, taken.value);
    let ghost c3 = *ctx;
    proof {
        let f = same_fact(c.value, taken.value);
        lemma_reaches_asserted(c2, c3, f, only(f));
        lemma_reaches_trans(c0, c2, c3);
    }
    let rest = ctx.build(
        &Expr::bin(BinOp::SubR, Expr::Class(c.perm), Expr::Class(taken.perm)),
    );
    let ghost c4 = *ctx;
    ctx.rebuild();
    let ghost c5 = *ctx;
    let ghost trest = t_bin(BinOp::SubR, Tm::Class(c.perm), Tm::Class(taken.perm));
    proof {
        lemma_reaches_extended(c3, c4);
        lemma_reaches_follows(c4, c5);
        lemma_reaches_trans(c3, c4, c5);
        lemma_reaches_trans(c0, c3, c5);
        lemma_grows_denotes(c4.graph, c5.graph, rest, trest);
        lemma_grows_denotes(c1.graph, c5.graph, goal, tgoal);
        if !c5.graph.full() {
            assert forall|m: Model| #[trigger] c5.graph.models(m) implies m.at(c.value) == m.at(
                taken.value,
            ) && m.at(rest) == Value::Real(amount(m.at(c.perm)) - amount(m.at(taken.perm))) by {
                assert(c3.graph.models(m));
                let f = same_fact(c.value, taken.value);
                crate::context::lemma_learns_holds(c2, c3, seq![f], m);
                assert(crate::model::equation_holds(m, seq![f][0]));
                lemma_tm_bin(m, BinOp::SubR, Tm::Class(c.perm), Tm::Class(taken.perm));
            }
            assert forall|m: Model| #[trigger]
                c5.graph.models(m) && cube_holds(m, pc@) implies amount(m.at(taken.perm)) <= amount(
                m.at(c.perm),
            ) by {
                assert(c2.graph.models(m));
                assert(m.is(goal, true));
                lemma_tm_bin(m, BinOp::LtR, Tm::Class(c.perm), Tm::Class(taken.perm));
                lemma_tm_not(m, t_ltr(Tm::Class(c.perm), Tm::Class(taken.perm)));
            }
        }
    }
    if known_zero(&ctx.graph, rest) {
        proof {
            if !c5.graph.full() {
                assert forall|m: Model| #[trigger] c5.graph.models(m) implies amount(m.at(c.perm))
                    == amount(m.at(taken.perm)) by {
                    lemma_known(c5.graph, m, rest);
                }
            }
        }
        Ok(None)
    } else {
        Ok(Some(Chunk::new(rest, c.value)))
    }
}

/// What is left at an address.
pub open spec fn left_at(r: Map<Id, Chunk>, k: Id) -> Option<Chunk> {
    if r.dom().contains(k) {
        Some(r[k])
    } else {
        None
    }
}

/// The entries `ys` were taken from `x`, each from the chunk of its address.
pub open spec fn took(
    g: Graph,
    pc: Seq<(Id, Polarity)>,
    x: Map<Id, Chunk>,
    ys: Seq<(Id, Chunk)>,
    r: Map<Id, Chunk>,
) -> bool {
    &&& forall|k: Id| #[trigger] r.dom().contains(k) ==> x.dom().contains(k)
    &&& forall|k: Id|
        #![trigger x.dom().contains(k)]
        #![trigger r.dom().contains(k)]
        !has_addr(ys, k) ==> r.dom().contains(k) == x.dom().contains(k) && (x.dom().contains(k)
            ==> r[k] == x[k])
    &&& forall|j: int| 0 <= j < ys.len() ==> took_one(g, pc, x, #[trigger] ys[j], r)
}

/// An entry was taken from the chunk of its address.
pub open spec fn took_one(
    g: Graph,
    pc: Seq<(Id, Polarity)>,
    x: Map<Id, Chunk>,
    y: (Id, Chunk),
    r: Map<Id, Chunk>,
) -> bool {
    &&& x.dom().contains(y.0)
    &&& leaves(g, x[y.0], y.1, left_at(r, y.0))
    &&& !g.full() ==> enough(g, pc, x[y.0], y.1)
}

/// The entries of `r` give a location what those of `a` give it, less what those of
/// `b` give it.
pub open spec fn takes_off(
    g: Graph,
    r: Seq<(Id, Chunk)>,
    a: Seq<(Id, Chunk)>,
    b: Seq<(Id, Chunk)>,
) -> bool {
    g.full() || forall|m: Model, loc: Value|
        #![trigger held(m, r, loc), g.models(m)]
        g.models(m) ==> held(m, r, loc) == held(m, a, loc) - held(m, b, loc)
}

proof fn lemma_took_step(
    g: Graph,
    k: Graph,
    pc: Seq<(Id, Polarity)>,
    x: Map<Id, Chunk>,
    ys: Seq<(Id, Chunk)>,
    n: int,
    before: Map<Id, Chunk>,
    after: Map<Id, Chunk>,
)
    requires
        g.grows_to(k),
        addrs_differ(ys),
        0 <= n < ys.len(),
        took(g, pc, x, ys.take(n), before),
        before.dom().contains(ys[n].0),
        leaves(k, before[ys[n].0], ys[n].1, left_at(after, ys[n].0)),
        !k.full() ==> enough(k, pc, before[ys[n].0], ys[n].1),
        forall|a: Id| a != ys[n].0 ==> #[trigger] left_at(after, a) == left_at(before, a),
    ensures
        took(k, pc, x, ys.take(n + 1), after),
{
    broadcast use group_grows;

    let prev = ys.take(n);
    let now = ys.take(n + 1);
    let a = ys[n].0;
    assert(!has_addr(prev, a)) by {
        if has_addr(prev, a) {
            let i = choose|i: int| 0 <= i < prev.len() && (#[trigger] prev[i]).0 == a;
            assert(ys[i].0 != ys[n].0);
        }
    }
    assert(x.dom().contains(a) && before[a] == x[a]);
    assert forall|c: Id| #[trigger] after.dom().contains(c) implies x.dom().contains(c) by {
        if c != a {
            assert(left_at(after, c) == left_at(before, c));
            assert(before.dom().contains(c));
        }
    }
    assert forall|c: Id|
        #![trigger x.dom().contains(c)]
        #![trigger after.dom().contains(c)]
        !has_addr(now, c) implies after.dom().contains(c) == x.dom().contains(c) && (
    x.dom().contains(c) ==> after[c] == x[c]) by {
        assert(now[n] == ys[n]);
        assert(c != a);
        assert(!has_addr(prev, c)) by {
            if has_addr(prev, c) {
                let i = choose|i: int| 0 <= i < prev.len() && (#[trigger] prev[i]).0 == c;
                assert(now[i].0 == c);
            }
        }
        assert(left_at(after, c) == left_at(before, c));
        assert(before.dom().contains(c) == x.dom().contains(c));
    }
    assert forall|j: int| 0 <= j < now.len() implies took_one(k, pc, x, #[trigger] now[j], after) by {
        if j < n {
            assert(now[j] == prev[j]);
            assert(took_one(g, pc, x, prev[j], before));
            assert(ys[j].0 != ys[n].0);
            assert(left_at(after, ys[j].0) == left_at(before, ys[j].0));
        } else {
            assert(now[j] == ys[n]);
        }
    }
}

proof fn lemma_takes_step(
    g: Graph,
    k: Graph,
    x: Seq<(Id, Chunk)>,
    ys: Seq<(Id, Chunk)>,
    n: int,
    before: Seq<(Id, Chunk)>,
    after: Seq<(Id, Chunk)>,
    at: int,
    rest: Option<Chunk>,
)
    requires
        g.grows_to(k),
        0 <= n < ys.len(),
        0 <= at < before.len(),
        before[at].0 == ys[n].0,
        takes_off(g, before, x, ys.take(n)),
        leaves(k, before[at].1, ys[n].1, rest),
        rest matches Some(r) ==> after == before.update(at, (ys[n].0, r)),
        rest is None ==> after == before.remove(at),
    ensures
        takes_off(k, after, x, ys.take(n + 1)),
{
    broadcast use group_grows;

    let now = ys.take(n + 1);
    assert(now.drop_last() =~= ys.take(n));
    if !k.full() {
        assert forall|m: Model, loc: Value|
            #![trigger held(m, after, loc), k.models(m)]
            k.models(m) implies held(m, after, loc) == held(m, x, loc) - held(m, now, loc) by {
            assert(g.models(m));
            assert(held(m, before, loc) == held(m, x, loc) - held(m, ys.take(n), loc));
            match rest {
                Some(r) => {
                    lemma_held_update(m, before, at, (ys[n].0, r), loc);
                },
                None => {
                    lemma_held_remove(m, before, at, loc);
                },
            }
        }
    }
}

/// It was not shown that a heap has at an address what is taken there: nothing is
/// held, or perhaps less.
pub open spec fn short_at(
    c: Context,
    d: Context,
    pc: Seq<(Id, Polarity)>,
    x: Map<Id, Chunk>,
    y: (Id, Chunk),
    fs: Set<(Graph, (Tm, Tm))>,
) -> bool {
    x.dom().contains(y.0) ==> unshown_after(
        c,
        d,
        pc,
        t_not(t_ltr(Tm::Class(x[y.0].perm), Tm::Class(y.1.perm))),
        fs,
    )
}

/// It was shown that a heap has at an address what is taken there.
pub open spec fn covers_at(
    c: Context,
    pc: Seq<(Id, Polarity)>,
    x: Map<Id, Chunk>,
    y: (Id, Chunk),
    fs: Set<(Graph, (Tm, Tm))>,
) -> bool {
    x.dom().contains(y.0) && shown_after(
        c,
        pc,
        t_not(t_ltr(Tm::Class(x[y.0].perm), Tm::Class(y.1.perm))),
        fs,
    )
}

/// Taking one entry assumes what taking all may.
proof fn lemma_gives(
    a: Context,
    b: Context,
    xs: Seq<(Id, Chunk)>,
    ys: Seq<(Id, Chunk)>,
    i: int,
    c: Chunk,
)
    requires
        0 <= i < ys.len(),
        addrs_differ(xs),
        chunk_map(xs).dom().contains(ys[i].0),
        chunk_map(xs)[ys[i].0] == c,
        reaches(a, b, only(same_fact(c.value, ys[i].1.value))),
    ensures
        reaches(a, b, give_facts(xs, ys)),
{
    let small = only(same_fact(c.value, ys[i].1.value));
    lemma_chunk_map(xs);
    let k = choose|k: int| 0 <= k < xs.len() && (#[trigger] xs[k]).0 == ys[i].0;
    assert(xs[k] == (ys[i].0, c));
    assert(xs.contains((ys[i].0, c)));
    assert(ys.contains(ys[i]));
    assert(ys.contains((ys[i].0, ys[i].1)));
    assert forall|e: (Graph, (Tm, Tm))| small.contains(e) implies give_facts(xs, ys).contains(e) by {
        assert(made_at(e.0, xs, ys[i].0, c, 0));
        assert(made_at(e.0, ys, ys[i].0, ys[i].1, 0));
        assert(gives_at(e.0, xs, ys, e.1));
    }
    lemma_reaches_more(a, b, small, give_facts(xs, ys));
}

/// Taking chunks that were made of two lists assumes what those lists may.
proof fn lemma_give_through(
    a: Context,
    xs: Seq<(Id, Chunk)>,
    ys: Seq<(Id, Chunk)>,
    ps: Seq<(Id, Chunk)>,
    qs: Seq<(Id, Chunk)>,
    more: nat,
)
    requires
        a.wf(),
        forall|i: int|
            0 <= i < xs.len() ==> made_at(a.graph, ps, (#[trigger] xs[i]).0, xs[i].1, more),
        forall|i: int|
            0 <= i < ys.len() ==> made_at(a.graph, qs, (#[trigger] ys[i]).0, ys[i].1, more),
    ensures
        since(a, give_facts(xs, ys)).subset_of(give_facts(ps, qs)),
{
    let none = Seq::<(Id, Polarity)>::empty();
    let mid = since(a, give_facts(xs, ys));
    assert forall|e: (Graph, (Tm, Tm))| mid.contains(e) implies give_facts(ps, qs).contains(e) by {
        assert forall|i: int| 0 <= i < xs.len() implies made_at(
            e.0,
            ps,
            (#[trigger] xs[i]).0,
            xs[i].1,
            more,
        ) by {
            lemma_made_grows(a.graph, e.0, ps, xs[i].0, xs[i].1, more);
        }
        assert forall|i: int| 0 <= i < ys.len() implies made_at(
            e.0,
            qs,
            (#[trigger] ys[i]).0,
            ys[i].1,
            more,
        ) by {
            lemma_made_grows(a.graph, e.0, qs, ys[i].0, ys[i].1, more);
        }
        if agrees_at(e.0, none, xs, e.1) {
            let (k, x, y, n) = choose|k: Id, x: Chunk, y: Chunk, n: nat|
                {
                    &&& #[trigger] made_at(e.0, xs, k, x, n)
                    &&& #[trigger] made_at(e.0, xs, k, y, n)
                    &&& e.1 == (agreement(none, x, y), crate::model::t_bool(true))
                };
            lemma_made_through(e.0, xs, ps, k, x, n, more);
            lemma_made_through(e.0, xs, ps, k, y, n, more);
            assert(made_at(e.0, ps, k, x, n + more) && made_at(e.0, ps, k, y, n + more));
            assert(agrees_at(e.0, none, ps, e.1));
        } else if agrees_at(e.0, none, ys, e.1) {
            let (k, x, y, n) = choose|k: Id, x: Chunk, y: Chunk, n: nat|
                {
                    &&& #[trigger] made_at(e.0, ys, k, x, n)
                    &&& #[trigger] made_at(e.0, ys, k, y, n)
                    &&& e.1 == (agreement(none, x, y), crate::model::t_bool(true))
                };
            lemma_made_through(e.0, ys, qs, k, x, n, more);
            lemma_made_through(e.0, ys, qs, k, y, n, more);
            assert(made_at(e.0, qs, k, x, n + more) && made_at(e.0, qs, k, y, n + more));
            assert(agrees_at(e.0, none, qs, e.1));
        } else {
            assert(gives_at(e.0, xs, ys, e.1));
            let (k, x, y, n) = choose|k: Id, x: Chunk, y: Chunk, n: nat|
                {
                    &&& #[trigger] made_at(e.0, xs, k, x, n)
                    &&& #[trigger] made_at(e.0, ys, k, y, n)
                    &&& e.1 == same_fact(x.value, y.value)
                };
            lemma_made_through(e.0, xs, ps, k, x, n, more);
            lemma_made_through(e.0, ys, qs, k, y, n, more);
            assert(made_at(e.0, ps, k, x, n + more) && made_at(e.0, qs, k, y, n + more));
            assert(gives_at(e.0, ps, qs, e.1));
        }
    }
}

/// Takes entries of distinct addresses from a heap.
pub fn take_entries(
    ctx: &mut Context,
    x: &Heap,
    ys: &Vec<(Id, Chunk)>,
    pc: &Vec<(Id, Polarity)>,
) -> (r: Result<Heap, VerifyError>)
    requires
        old(ctx).wf(),
        entries_in(old(ctx).graph, x.list()),
        entries_in(old(ctx).graph, ys@),
        addrs_differ(ys@),
        cube_in(old(ctx).graph, pc@),
    ensures
        reaches(*old(ctx), *final(ctx), give_facts(x.list(), ys@)),
        r matches Err(e) ==> e == VerifyError::InsufficientPermission && exists|j: int|
            0 <= j < ys@.len() && short_at(
                *old(ctx),
                *final(ctx),
                pc@,
                x@,
                #[trigger] ys@[j],
                give_facts(x.list(), ys@),
            ),
        ys@.len() == 0 ==> r is Ok,
        r is Ok ==> forall|j: int|
            0 <= j < ys@.len() ==> covers_at(
                *old(ctx),
                pc@,
                x@,
                #[trigger] ys@[j],
                give_facts(x.list(), ys@),
            ),
        r matches Ok(h) ==> entries_in(final(ctx).graph, h.list()) && took(
            final(ctx).graph,
            pc@,
            x@,
            ys@,
            h@,
        ) && takes_off(final(ctx).graph, h.list(), x.list(), ys@),
{
    let ghost c0 = *ctx;
    let mut out = x.copy();
    let mut i: usize = 0;
    let ghost fs = give_facts(x.list(), ys@);
    proof {
        lemma_reaches_refl(c0);
        assert(ys@.take(0) =~= Seq::empty());
        assert forall|m: Model, loc: Value|
            #![trigger held(m, out.list(), loc), c0.graph.models(m)]
            c0.graph.models(m) implies held(m, out.list(), loc) == held(m, x.list(), loc) - held(
            m,
            ys@.take(0),
            loc,
        ) by {}
    }
    while i < ys.len()
        invariant
            i <= ys@.len(),
            ctx.wf(),
            entries_in(c0.graph, ys@),
            addrs_differ(ys@),
            cube_in(c0.graph, pc@),
            reaches(c0, *ctx, fs),
            fs == give_facts(x.list(), ys@),
            addrs_differ(x.list()),
            entries_in(ctx.graph, out.list()),
            took(ctx.graph, pc@, x@, ys@.take(i as int), out@),
            takes_off(ctx.graph, out.list(), x.list(), ys@.take(i as int)),
            c0 == *old(ctx),
            forall|j: int| 0 <= j < i ==> covers_at(c0, pc@, x@, #[trigger] ys@[j], fs),
        decreases ys.len() - i,
    {
        let ghost c1 = *ctx;
        let ghost before = out@;
        let ghost old_list = out.list();
        let (addr, taken) = ys[i];
        proof {
            assert(c0.graph.has(ys@[i as int].0));
            lemma_cube_grows(c0.graph, c1.graph, pc@);
        }
        let c = match out.chunk(addr) {
            Some(c) => c,
            None => {
                proof {
                    lemma_not_taken(ys@, i as int);
                    assert(short_at(c0, c1, pc@, x@, ys@[i as int], fs));
                }
                return Err(VerifyError::InsufficientPermission);
            },
        };
        proof {
            lemma_entry_in(c1.graph, out, addr);
            lemma_chunk_map(old_list);
        }
        let rest = match take_chunk(ctx, c, taken, pc) {
            Ok(rest) => rest,
            Err(e) => {
                proof {
                    lemma_not_taken(ys@, i as int);
                    lemma_gives(c1, *ctx, x.list(), ys@, i as int, c);
                    lemma_reaches_trans(c0, c1, *ctx);
                    assert(reaches(c0, c1, fs));
                    assert(short_at(c0, *ctx, pc@, x@, ys@[i as int], fs));
                }
                return Err(e);
            },
        };
        proof {
            lemma_entries_grow(c1.graph, ctx.graph, out.list());
            lemma_not_taken(ys@, i as int);
            lemma_gives(c1, *ctx, x.list(), ys@, i as int, c);
            assert(reaches(c0, c1, fs));
            lemma_reaches_trans(c0, c1, *ctx);
            assert(covers_at(c0, pc@, x@, ys@[i as int], fs));
        }
        out = match rest {
            Some(r) => out.with_chunk(addr, r),
            None => out.without_chunk(addr),
        };
        proof {
            assert forall|a: Id| a != addr implies #[trigger] left_at(out@, a) == left_at(
                before,
                a,
            ) by {}
            assert(left_at(out@, addr) == rest);
            lemma_took_step(c1.graph, ctx.graph, pc@, x@, ys@, i as int, before, out@);
            let at = choose|at: int|
                0 <= at < old_list.len() && (#[trigger] old_list[at]).0 == addr && match rest {
                    Some(r) => out.list() == old_list.update(at, (addr, r)),
                    None => out.list() == old_list.remove(at),
                };
            assert(old_list[at].1 == c);
            lemma_takes_step(
                c1.graph,
                ctx.graph,
                x.list(),
                ys@,
                i as int,
                old_list,
                out.list(),
                at,
                rest,
            );
        }
        i += 1;
    }
    proof {
        assert(ys@.take(ys@.len() as int) =~= ys@);
    }
    Ok(out)
}

proof fn lemma_not_taken(ys: Seq<(Id, Chunk)>, n: int)
    requires
        0 <= n < ys.len(),
        addrs_differ(ys),
    ensures
        !has_addr(ys.take(n), ys[n].0),
{
    if has_addr(ys.take(n), ys[n].0) {
        let i = choose|i: int| 0 <= i < n && (#[trigger] ys.take(n)[i]).0 == ys[n].0;
        assert(ys[i].0 == ys[n].0);
    }
}

/// What entries hold at an address together is the permission `p`.
pub open spec fn holds_at(g: Graph, es: Seq<(Id, Chunk)>, k: Id, p: Id) -> bool {
    g.full() || forall|m: Model| #[trigger]
        g.models(m) ==> (gathered(m, es, k) matches Some(c) && c.0 == m.at(p))
}

/// It was not shown, on a path, that one list of entries holds what another does: at
/// an address of the second the first holds nothing, or perhaps less.
pub open spec fn short_of(
    c: Context,
    d: Context,
    pc: Seq<(Id, Polarity)>,
    base: Seq<(Id, Chunk)>,
    less: Seq<(Id, Chunk)>,
) -> bool {
    let x = canonical_list(c.graph, base);
    let y = canonical_list(c.graph, less);
    exists|k: Id| #[trigger]
        has_addr(y, k) && (has_addr(x, k) ==> exists|p: Id, q: Id|
            {
                &&& #[trigger] unshown_after(
                    c,
                    d,
                    pc,
                    t_not(t_ltr(Tm::Class(p), Tm::Class(q))),
                    give_facts(x, y),
                )
                &&& holds_at(d.graph, x, k, p)
                &&& holds_at(d.graph, y, k, q)
            })
}

/// It was shown, on a path, that one list of entries holds what another does, address
/// by address.
pub open spec fn covers(
    c: Context,
    d: Context,
    pc: Seq<(Id, Polarity)>,
    base: Seq<(Id, Chunk)>,
    less: Seq<(Id, Chunk)>,
) -> bool {
    let x = canonical_list(c.graph, base);
    let y = canonical_list(c.graph, less);
    forall|k: Id| #[trigger]
        has_addr(y, k) ==> has_addr(x, k) && exists|p: Id, q: Id|
            {
                &&& #[trigger] shown_after(
                    c,
                    pc,
                    t_not(t_ltr(Tm::Class(p), Tm::Class(q))),
                    give_facts(x, y),
                )
                &&& holds_at(d.graph, x, k, p)
                &&& holds_at(d.graph, y, k, q)
            }
}

proof fn lemma_covers(
    c0: Context,
    c1: Context,
    c2: Context,
    d: Context,
    pc: Seq<(Id, Polarity)>,
    a: Heap,
    b: Heap,
    x: Heap,
    y: Heap,
)
    requires
        reaches(
            c0,
            c2,
            give_facts(canonical_list(c0.graph, a.list()), canonical_list(c0.graph, b.list())),
        ),
        c1.graph.grows_to(d.graph),
        c2.graph.grows_to(d.graph),
        addrs_differ(y.list()),
        canonicalized(c0.graph, c1.graph, a, x),
        canonicalized(c0.graph, c2.graph, b, y),
        forall|j: int|
            0 <= j < y.list().len() ==> covers_at(
                c2,
                pc,
                x@,
                #[trigger] y.list()[j],
                give_facts(
                    canonical_list(c0.graph, a.list()),
                    canonical_list(c0.graph, b.list()),
                ),
            ),
    ensures
        covers(c0, d, pc, a.list(), b.list()),
{
    broadcast use group_grows;

    let p = canonical_list(c0.graph, a.list());
    let q = canonical_list(c0.graph, b.list());
    let ys = y.list();
    let fs = give_facts(p, q);
    lemma_chunk_map(ys);
    assert forall|k: Id| #[trigger] has_addr(q, k) implies has_addr(p, k) && exists|u: Id, w: Id|
        {
            &&& #[trigger] shown_after(
                c0,
                pc,
                t_not(t_ltr(Tm::Class(u), Tm::Class(w))),
                fs,
            )
            &&& holds_at(d.graph, p, k, u)
            &&& holds_at(d.graph, q, k, w)
        } by {
        assert(y@.dom().contains(k));
        let j = choose|j: int| 0 <= j < ys.len() && (#[trigger] ys[j]).0 == k;
        assert(covers_at(c2, pc, x@, ys[j], fs));
        assert(y@[k] == ys[j].1);
        assert(x@.dom().contains(k));
        let c = x@[k];
        let less = ys[j].1;
        lemma_shown_before(
            c0,
            c2,
            pc,
            t_not(t_ltr(Tm::Class(c.perm), Tm::Class(less.perm))),
            fs,
        );
        if !d.graph.full() {
            assert forall|m: Model| #[trigger] d.graph.models(m) implies (gathered(
                m,
                p,
                k,
            ) matches Some(g) && g.0 == m.at(c.perm)) && (gathered(m, q, k) matches Some(g)
                && g.0 == m.at(less.perm)) by {
                assert(c1.graph.models(m) && c2.graph.models(m));
                assert(gathered(m, p, k) == Some(content(m, x@[k])));
                assert(gathered(m, q, k) == Some(content(m, y@[k])));
            }
        }
        assert(holds_at(d.graph, p, k, c.perm));
        assert(holds_at(d.graph, q, k, less.perm));
    }
}

proof fn lemma_short(
    c0: Context,
    c1: Context,
    c2: Context,
    d: Context,
    pc: Seq<(Id, Polarity)>,
    a: Heap,
    b: Heap,
    x: Heap,
    y: Heap,
    j: int,
)
    requires
        reaches(
            c0,
            c2,
            give_facts(canonical_list(c0.graph, a.list()), canonical_list(c0.graph, b.list())),
        ),
        c1.graph.grows_to(d.graph),
        c2.graph.grows_to(d.graph),
        addrs_differ(y.list()),
        canonicalized(c0.graph, c1.graph, a, x),
        canonicalized(c0.graph, c2.graph, b, y),
        0 <= j < y.list().len(),
        short_at(
            c2,
            d,
            pc,
            x@,
            y.list()[j],
            give_facts(canonical_list(c0.graph, a.list()), canonical_list(c0.graph, b.list())),
        ),
    ensures
        short_of(c0, d, pc, a.list(), b.list()),
{
    broadcast use group_grows;

    let p = canonical_list(c0.graph, a.list());
    let q = canonical_list(c0.graph, b.list());
    let ys = y.list();
    let k = ys[j].0;
    lemma_chunk_map(ys);
    assert(y@.dom().contains(k) && y@[k] == ys[j].1);
    assert(has_addr(q, k));
    if has_addr(p, k) {
        assert(x@.dom().contains(k));
        let c = x@[k];
        let less = ys[j].1;
        lemma_unshown_before(
            c0,
            c2,
            d,
            pc,
            t_not(t_ltr(Tm::Class(c.perm), Tm::Class(less.perm))),
            give_facts(p, q),
        );
        if !d.graph.full() {
            assert forall|m: Model| #[trigger] d.graph.models(m) implies (gathered(
                m,
                p,
                k,
            ) matches Some(g) && g.0 == m.at(c.perm)) && (gathered(m, q, k) matches Some(g)
                && g.0 == m.at(less.perm)) by {
                assert(c1.graph.models(m) && c2.graph.models(m));
                assert(gathered(m, p, k) == Some(content(m, x@[k])));
                assert(gathered(m, q, k) == Some(content(m, y@[k])));
            }
        }
        assert(holds_at(d.graph, p, k, c.perm));
        assert(holds_at(d.graph, q, k, less.perm));
    }
}

/// `r` is `a` with the permissions of `b` taken out, address by address: each is held
/// in full on the path, values agree, and what stays is the difference.
pub open spec fn subtracted(
    g: Graph,
    k: Graph,
    pc: Seq<(Id, Polarity)>,
    a: Heap,
    b: Heap,
    r: Heap,
) -> bool {
    let x = canonical_list(g, a.list());
    let y = canonical_list(g, b.list());
    &&& entries_in(k, r.list())
    &&& addrs_differ(r.list())
    &&& forall|c: Id| #[trigger] r@.dom().contains(c) ==> has_addr(x, c)
    &&& forall|c: Id| #[trigger] has_addr(y, c) ==> has_addr(x, c)
    &&& forall|c: Id| #[trigger] has_addr(x, c) && !has_addr(y, c) ==> r@.dom().contains(c)
    &&& k.full() || forall|m: Model, c: Id|
        #![trigger k.models(m), has_addr(x, c)]
        k.models(m) && has_addr(x, c) ==> subtracted_at(m, pc, x, y, r@, c)
}

/// What an address holds after permission was taken out.
pub open spec fn subtracted_at(
    m: Model,
    pc: Seq<(Id, Polarity)>,
    x: Seq<(Id, Chunk)>,
    y: Seq<(Id, Chunk)>,
    r: Map<Id, Chunk>,
    c: Id,
) -> bool {
    match (gathered(m, x, c), gathered(m, y, c)) {
        (Some(p), None) => r.dom().contains(c) && content(m, r[c]) == p,
        (Some(p), Some(q)) => {
            &&& p.1 == q.1
            &&& cube_holds(m, pc) ==> amount(q.0) <= amount(p.0)
            &&& r.dom().contains(c) ==> amount(m.at(r[c].perm)) == amount(p.0) - amount(q.0)
                && m.at(r[c].value) == p.1
            &&& !r.dom().contains(c) ==> amount(p.0) == amount(q.0)
        },
        _ => false,
    }
}

proof fn lemma_subtracted(
    g: Graph,
    g1: Graph,
    g2: Graph,
    k: Graph,
    pc: Seq<(Id, Polarity)>,
    a: Heap,
    b: Heap,
    x: Heap,
    y: Heap,
    r: Heap,
)
    requires
        g1.grows_to(k),
        g2.grows_to(k),
        addrs_differ(y.list()),
        canonicalized(g, g1, a, x),
        canonicalized(g, g2, b, y),
        entries_in(k, r.list()),
        addrs_differ(r.list()),
        took(k, pc, x@, y.list(), r@),
    ensures
        subtracted(g, k, pc, a, b, r),
{
    broadcast use group_grows;

    let p = canonical_list(g, a.list());
    let q = canonical_list(g, b.list());
    let ys = y.list();
    lemma_chunk_map(ys);
    assert forall|c: Id| has_addr(ys, c) == #[trigger] has_addr(q, c) by {
        assert(y@.dom().contains(c) == has_addr(q, c));
        if has_addr(ys, c) {
            let i = choose|i: int| 0 <= i < ys.len() && (#[trigger] ys[i]).0 == c;
            assert(chunk_map(ys).dom().contains(ys[i].0));
        }
    }
    assert forall|c: Id| #[trigger] r@.dom().contains(c) implies has_addr(p, c) by {
        assert(x@.dom().contains(c));
    }
    assert forall|c: Id| #[trigger] has_addr(q, c) implies has_addr(p, c) by {
        let i = choose|i: int| 0 <= i < ys.len() && (#[trigger] ys[i]).0 == c;
        assert(took_one(k, pc, x@, ys[i], r@));
        assert(x@.dom().contains(c));
    }
    assert forall|c: Id| #[trigger] has_addr(p, c) && !has_addr(q, c) implies r@.dom().contains(
        c,
    ) by {
        assert(x@.dom().contains(c));
    }
    if !k.full() {
        assert forall|m: Model, c: Id|
            #![trigger k.models(m), has_addr(p, c)]
            k.models(m) && has_addr(p, c) implies subtracted_at(m, pc, p, q, r@, c) by {
            assert(g1.models(m) && g2.models(m));
            assert(x@.dom().contains(c));
            assert(gathered(m, p, c) == Some(content(m, x@[c])));
            if has_addr(q, c) {
                let i = choose|i: int| 0 <= i < ys.len() && (#[trigger] ys[i]).0 == c;
                assert(took_one(k, pc, x@, ys[i], r@));
                assert(y@.dom().contains(c) && y@[c] == ys[i].1);
                assert(gathered(m, q, c) == Some(content(m, y@[c])));
            } else {
                lemma_gathered_none(m, q, c);
            }
        }
    }
}

proof fn lemma_give_steps(
    c1: Context,
    c2: Context,
    d: Context,
    a: Seq<(Id, Chunk)>,
    b: Seq<(Id, Chunk)>,
    x: Seq<(Id, Chunk)>,
    y: Seq<(Id, Chunk)>,
)
    requires
        c1.leads_to(c2),
        forall|i: int|
            0 <= i < x.len() ==> made_at(c1.graph, a, (#[trigger] x[i]).0, x[i].1, a.len()),
        forall|i: int|
            0 <= i < y.len() ==> made_at(c2.graph, b, (#[trigger] y[i]).0, y[i].1, b.len()),
        reaches(c2, d, give_facts(x, y)),
    ensures
        since(c2, give_facts(x, y)).subset_of(give_facts(a, b)),
        reaches(c2, d, give_facts(a, b)),
{
    let n = a.len() + b.len();
    assert forall|i: int| 0 <= i < x.len() implies made_at(
        c2.graph,
        a,
        (#[trigger] x[i]).0,
        x[i].1,
        n,
    ) by {
        lemma_made_grows(c1.graph, c2.graph, a, x[i].0, x[i].1, a.len());
        lemma_made_more(c2.graph, a, x[i].0, x[i].1, a.len(), n);
    }
    assert forall|i: int| 0 <= i < y.len() implies made_at(
        c2.graph,
        b,
        (#[trigger] y[i]).0,
        y[i].1,
        n,
    ) by {
        lemma_made_more(c2.graph, b, y[i].0, y[i].1, b.len(), n);
    }
    lemma_give_through(c2, x, y, a, b, n);
    lemma_reaches_since(c2, d, give_facts(x, y));
    lemma_reaches_more(c2, d, since(c2, give_facts(x, y)), give_facts(a, b));
}

proof fn lemma_shown_more(
    c: Context,
    pc: Seq<(Id, Polarity)>,
    t: Tm,
    low: Set<(Graph, (Tm, Tm))>,
    fs: Set<(Graph, (Tm, Tm))>,
)
    requires
        c.wf(),
        shown_after(c, pc, t, low),
        since(c, low).subset_of(fs),
    ensures
        shown_after(c, pc, t, fs),
{
    let mid = choose|mid: Context| #[trigger] reaches(c, mid, low) && shown_tm(mid, pc, t);
    lemma_reaches_since(c, mid, low);
    lemma_reaches_more(c, mid, since(c, low), fs);
}

proof fn lemma_unshown_more(
    c: Context,
    d: Context,
    pc: Seq<(Id, Polarity)>,
    t: Tm,
    low: Set<(Graph, (Tm, Tm))>,
    fs: Set<(Graph, (Tm, Tm))>,
)
    requires
        c.wf(),
        unshown_after(c, d, pc, t, low),
        since(c, low).subset_of(fs),
    ensures
        unshown_after(c, d, pc, t, fs),
{
    let mid = choose|mid: Context| #[trigger] reaches(c, mid, low) && unshown(mid, d, pc, t);
    lemma_reaches_since(c, mid, low);
    lemma_reaches_more(c, mid, since(c, low), fs);
}

/// Takes the permissions of one heap out of another. Fails where an address is not
/// held, or where it cannot be proven that enough is held on the path.
pub fn heap_subtract(ctx: &mut Context, h1: &Heap, h2: &Heap, pc: &Vec<(Id, Polarity)>) -> (r: Result<
    Heap,
    VerifyError,
>)
    requires
        old(ctx).wf(),
        entries_in(old(ctx).graph, h1.list()),
        entries_in(old(ctx).graph, h2.list()),
        cube_in(old(ctx).graph, pc@),
    ensures
        reaches(
            *old(ctx),
            *final(ctx),
            give_facts(
                canonical_list(old(ctx).graph, h1.list()),
                canonical_list(old(ctx).graph, h2.list()),
            ),
        ),
        r matches Err(e) ==> e == VerifyError::InsufficientPermission && short_of(
            *old(ctx),
            *final(ctx),
            pc@,
            h1.list(),
            h2.list(),
        ),
        h2.list().len() == 0 ==> r is Ok,
        r is Ok ==> covers(*old(ctx), *final(ctx), pc@, h1.list(), h2.list()),
        r matches Ok(h) ==> subtracted(old(ctx).graph, final(ctx).graph, pc@, *h1, *h2, h)
            && takes_off(final(ctx).graph, h.list(), h1.list(), h2.list()),
{
    let ghost c0 = *ctx;
    let ghost g0 = ctx.graph;
    let e1 = canonical_entries(&ctx.graph, h1);
    let e2 = canonical_entries(&ctx.graph, h2);
    let none = Heap::empty();
    let ghost fs = give_facts(e1@, e2@);
    let always: Vec<(Id, Polarity)> = Vec::new();
    let x = absorb(ctx, &none, &e1, &always);
    let ghost c1 = *ctx;
    proof {
        assert(always@ =~= Seq::empty());
        lemma_canonicalized(g0, c1.graph, *h1, x);
        lemma_same_permissions(g0, c1.graph, x.list(), none.list(), h1.list());
        lemma_entries_grow(g0, c1.graph, e2@);
        assert(none.list() + e1@ =~= e1@);
        lemma_reaches_more(c0, c1, agree_facts(always@, e1@), fs);
    }
    let y = absorb(ctx, &none, &e2, &always);
    let ys = y.entries();
    let ghost c2 = *ctx;
    proof {
        assert(none.list() + e2@ =~= e2@);
        lemma_reaches_more(c1, c2, agree_facts(always@, e2@), fs);
        lemma_reaches_trans(c0, c1, c2);
        lemma_canonicalized(g0, c2.graph, *h2, y);
        lemma_same_permissions(g0, c2.graph, y.list(), none.list(), h2.list());
        lemma_entries_grow(c1.graph, c2.graph, x.list());
        lemma_cube_grows(g0, c2.graph, pc@);
        if h2.list().len() == 0 && y.list().len() > 0 {
            lemma_no_entries(y.list());
            assert(y@.dom().contains(y.list()[0].0));
        }
    }
    let r = take_entries(ctx, &x, ys, pc);
    if let Ok(h) = &r {
        let _left = h.entries();
    }
    proof {
        broadcast use group_grows;

        lemma_give_steps(c1, c2, *ctx, e1@, e2@, x.list(), ys@);
        lemma_reaches_trans(c0, c2, *ctx);
        let res = r;
        let low = give_facts(x.list(), ys@);
        if res is Err {
            let j = choose|j: int|
                0 <= j < ys@.len() && short_at(c2, *ctx, pc@, x@, #[trigger] ys@[j], low);
            if x@.dom().contains(ys@[j].0) {
                lemma_unshown_more(
                    c2,
                    *ctx,
                    pc@,
                    t_not(t_ltr(Tm::Class(x@[ys@[j].0].perm), Tm::Class(ys@[j].1.perm))),
                    low,
                    fs,
                );
            }
            lemma_short(c0, c1, c2, *ctx, pc@, *h1, *h2, x, y, j);
        }
        if let Ok(h) = res {
            assert forall|j: int| 0 <= j < ys@.len() implies covers_at(
                c2,
                pc@,
                x@,
                #[trigger] ys@[j],
                fs,
            ) by {
                assert(covers_at(c2, pc@, x@, ys@[j], low));
                lemma_shown_more(
                    c2,
                    pc@,
                    t_not(t_ltr(Tm::Class(x@[ys@[j].0].perm), Tm::Class(ys@[j].1.perm))),
                    low,
                    fs,
                );
            }
            lemma_covers(c0, c1, c2, *ctx, pc@, *h1, *h2, x, y);
            lemma_subtracted(g0, c1.graph, c2.graph, ctx.graph, pc@, *h1, *h2, x, y, h);
            if !ctx.graph.full() {
                assert forall|m: Model, loc: Value|
                    #![trigger held(m, h.list(), loc), ctx.graph.models(m)]
                    ctx.graph.models(m) implies held(m, h.list(), loc) == held(m, h1.list(), loc)
                    - held(m, h2.list(), loc) by {
                    assert(c1.graph.models(m) && c2.graph.models(m));
                    assert(held(m, x.list(), loc) == held(m, h1.list(), loc));
                    assert(held(m, y.list(), loc) == held(m, h2.list(), loc));
                }
            }
        }
    }
    r
}

proof fn lemma_no_entries(es: Seq<(Id, Chunk)>)
    requires
        es.len() > 0,
        addrs_differ(es),
    ensures
        chunk_map(es).dom().contains(es[0].0),
{
    lemma_chunk_map(es);
}

/// Taking out what was put in leaves the permissions as they were.
pub proof fn law_give_back(
    g: Graph,
    m: Model,
    a: Seq<(Id, Chunk)>,
    b: Seq<(Id, Chunk)>,
    sum: Seq<(Id, Chunk)>,
    rest: Seq<(Id, Chunk)>,
    loc: Value,
)
    requires
        !g.full(),
        g.models(m),
        crate::method::merge::adds_up(g, sum, a, b),
        takes_off(g, rest, sum, b),
    ensures
        held(m, rest, loc) == held(m, a, loc),
{
    assert(held(m, sum, loc) == held(m, a, loc) + held(m, b, loc));
}

} // verus!
