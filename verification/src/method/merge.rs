//! Joining chunks: permissions add up, and values agree where both are held.

use crate::context::{
    builds, cube_holds, cube_in, learns, lemma_cube_grows, lemma_learns_asserted,
    lemma_learns_extended, lemma_learns_holds, lemma_learns_refl, Context,
};
use crate::graph::{lemma_canon_in, lemma_canon_value, Graph};
use crate::heap::facts::{
    lemma_reaches_asserted, lemma_reaches_extended, lemma_reaches_more, lemma_reaches_refl,
    lemma_reaches_since, lemma_reaches_trans, reaches, since,
};
use crate::lang::Id;
use crate::method::plain::{
    addrs_differ, chunk_map, entries_in, lemma_chunk_map, lemma_entries_grow, Chunk, Heap,
};
use crate::model::{
    equation_holds, lemma_tm_bin, lemma_tm_ite, lemma_tm_lit, t_bin, t_bool, t_eq, t_ite, t_ltr,
    t_real, Model, Tm,
};
use crate::prove::law_guard_value;
use crate::rewrite::guards::{class_guards, guard_expr, guard_tm};
use crate::terms::{group_grows, lemma_grows_denotes, lemma_grows_refl, Expr};
use crate::vmir::{BinOp, Polarity, Value};
use vstd::prelude::*;

verus! {

/// `pc ==> 0 < p0 ==> 0 < p1 ==> v0 == v1`.
pub open spec fn agreement(pc: Seq<(Id, Polarity)>, a: Chunk, b: Chunk) -> Tm {
    let zero = t_real(0 as real);
    guard_tm(
        class_guards(pc),
        t_ite(
            t_ltr(zero, Tm::Class(a.perm)),
            t_ite(
                t_ltr(zero, Tm::Class(b.perm)),
                t_eq(Tm::Class(a.value), Tm::Class(b.value)),
                t_bool(true),
            ),
            t_bool(true),
        ),
    )
}

/// A chunk that a list has at an address, or one that chunks of it there became in turn.
pub open spec fn made_at(g: Graph, es: Seq<(Id, Chunk)>, k: Id, c: Chunk, n: nat) -> bool
    decreases n,
{
    es.contains((k, c)) || (n > 0 && exists|a: Chunk, b: Chunk|
        made_at(g, es, k, a, (n - 1) as nat) && made_at(g, es, k, b, (n - 1) as nat)
            && #[trigger] merged(g, a, b, c))
}

/// That two chunks of a list at one address agree on a path.
pub open spec fn agrees_at(
    g: Graph,
    pc: Seq<(Id, Polarity)>,
    es: Seq<(Id, Chunk)>,
    f: (Tm, Tm),
) -> bool {
    exists|k: Id, a: Chunk, b: Chunk, n: nat|
        {
            &&& #[trigger] made_at(g, es, k, a, n)
            &&& #[trigger] made_at(g, es, k, b, n)
            &&& f == (agreement(pc, a, b), t_bool(true))
        }
}

/// What may be assumed where the chunks of a list at one address become one: that they
/// agree.
pub open spec fn agree_facts(pc: Seq<(Id, Polarity)>, es: Seq<(Id, Chunk)>) -> Set<
    (Graph, (Tm, Tm)),
> {
    Set::new(|e: (Graph, (Tm, Tm))| agrees_at(e.0, pc, es, e.1))
}

/// A later state, reached with nothing assumed but that chunks of a list at one address
/// agree.
pub open spec fn learns_agreements(
    a: Context,
    b: Context,
    pc: Seq<(Id, Polarity)>,
    es: Seq<(Id, Chunk)>,
) -> bool {
    reaches(a, b, agree_facts(pc, es))
}

pub proof fn lemma_made_grows(
    g: Graph,
    h: Graph,
    es: Seq<(Id, Chunk)>,
    k: Id,
    c: Chunk,
    n: nat,
)
    requires
        g.grows_to(h),
        made_at(g, es, k, c, n),
    ensures
        made_at(h, es, k, c, n),
    decreases n,
{
    if !es.contains((k, c)) {
        let (a, b) = choose|a: Chunk, b: Chunk|
            made_at(g, es, k, a, (n - 1) as nat) && made_at(g, es, k, b, (n - 1) as nat)
                && #[trigger] merged(g, a, b, c);
        lemma_made_grows(g, h, es, k, a, (n - 1) as nat);
        lemma_made_grows(g, h, es, k, b, (n - 1) as nat);
        lemma_grows_denotes(
            g,
            h,
            c.perm,
            t_bin(BinOp::AddR, Tm::Class(a.perm), Tm::Class(b.perm)),
        );
        lemma_grows_denotes(
            g,
            h,
            c.value,
            t_ite(
                t_ltr(t_real(0 as real), Tm::Class(a.perm)),
                Tm::Class(a.value),
                Tm::Class(b.value),
            ),
        );
        assert(merged(h, a, b, c));
    }
}

/// What is made of chunks that were made of a list, in so many steps, is made of that list.
pub proof fn lemma_made_through(
    g: Graph,
    ls: Seq<(Id, Chunk)>,
    es: Seq<(Id, Chunk)>,
    k: Id,
    c: Chunk,
    n: nat,
    more: nat,
)
    requires
        forall|i: int|
            0 <= i < ls.len() ==> made_at(g, es, (#[trigger] ls[i]).0, ls[i].1, more),
        made_at(g, ls, k, c, n),
    ensures
        made_at(g, es, k, c, n + more),
    decreases n,
{
    if ls.contains((k, c)) {
        let i = choose|i: int| 0 <= i < ls.len() && ls[i] == (k, c);
        assert(made_at(g, es, ls[i].0, ls[i].1, more));
        lemma_made_more(g, es, k, c, more, n + more);
    } else {
        let (a, b) = choose|a: Chunk, b: Chunk|
            made_at(g, ls, k, a, (n - 1) as nat) && made_at(g, ls, k, b, (n - 1) as nat)
                && #[trigger] merged(g, a, b, c);
        lemma_made_through(g, ls, es, k, a, (n - 1) as nat, more);
        lemma_made_through(g, ls, es, k, b, (n - 1) as nat, more);
        assert(merged(g, a, b, c));
    }
}

pub proof fn lemma_made_more(
    g: Graph,
    es: Seq<(Id, Chunk)>,
    k: Id,
    c: Chunk,
    n: nat,
    more: nat,
)
    requires
        made_at(g, es, k, c, n),
        n <= more,
    ensures
        made_at(g, es, k, c, more),
    decreases n,
{
    if !es.contains((k, c)) {
        let (a, b) = choose|a: Chunk, b: Chunk|
            made_at(g, es, k, a, (n - 1) as nat) && made_at(g, es, k, b, (n - 1) as nat)
                && #[trigger] merged(g, a, b, c);
        lemma_made_more(g, es, k, a, (n - 1) as nat, (more - 1) as nat);
        lemma_made_more(g, es, k, b, (n - 1) as nat, (more - 1) as nat);
        assert(merged(g, a, b, c));
    }
}

/// What may be assumed of chunks that were made of a list may be assumed of that list.
pub proof fn lemma_agree_through(
    a: Context,
    b: Context,
    pc: Seq<(Id, Polarity)>,
    ls: Seq<(Id, Chunk)>,
    es: Seq<(Id, Chunk)>,
    more: nat,
)
    requires
        a.wf(),
        forall|i: int|
            0 <= i < ls.len() ==> made_at(a.graph, es, (#[trigger] ls[i]).0, ls[i].1, more),
        learns_agreements(a, b, pc, ls),
    ensures
        learns_agreements(a, b, pc, es),
{
    let small = agree_facts(pc, ls);
    let big = agree_facts(pc, es);
    lemma_reaches_since(a, b, small);
    let mid = since(a, small);
    assert forall|e: (Graph, (Tm, Tm))| mid.contains(e) implies big.contains(e) by {
        assert(agrees_at(e.0, pc, ls, e.1));
        let (k, x, y, n) = choose|k: Id, x: Chunk, y: Chunk, n: nat|
            {
                &&& #[trigger] made_at(e.0, ls, k, x, n)
                &&& #[trigger] made_at(e.0, ls, k, y, n)
                &&& e.1 == (agreement(pc, x, y), t_bool(true))
            };
        assert forall|i: int| 0 <= i < ls.len() implies made_at(
            e.0,
            es,
            (#[trigger] ls[i]).0,
            ls[i].1,
            more,
        ) by {
            lemma_made_grows(a.graph, e.0, es, ls[i].0, ls[i].1, more);
        }
        lemma_made_through(e.0, ls, es, k, x, n, more);
        lemma_made_through(e.0, ls, es, k, y, n, more);
        assert(made_at(e.0, es, k, x, n + more) && made_at(e.0, es, k, y, n + more));
        assert(agrees_at(e.0, pc, es, e.1));
    }
    lemma_reaches_more(a, b, mid, big);
}

/// The amount that a permission stands for.
pub open spec fn amount(v: Value) -> real {
    match v {
        Value::Real(x) => x,
        _ => 0 as real,
    }
}

/// What a chunk holds in a model: a permission and a value.
pub open spec fn content(m: Model, c: Chunk) -> (Value, Value) {
    (m.at(c.perm), m.at(c.value))
}

/// Two contents at one address: permissions add up, and the first value counts
/// where it is held.
pub open spec fn join(a: (Value, Value), b: (Value, Value)) -> (Value, Value) {
    (
        Value::Real(amount(a.0) + amount(b.0)),
        if amount(a.0) > 0 as real {
            a.1
        } else {
            b.1
        },
    )
}

/// What the entries of an address hold together.
pub open spec fn gathered(m: Model, es: Seq<(Id, Chunk)>, addr: Id) -> Option<(Value, Value)>
    decreases es.len(),
{
    if es.len() == 0 {
        None
    } else {
        let rest = gathered(m, es.drop_last(), addr);
        if es.last().0 == addr {
            match rest {
                None => Some(content(m, es.last().1)),
                Some(c) => Some(join(c, content(m, es.last().1))),
            }
        } else {
            rest
        }
    }
}

/// The chunks hold, address by address, what the entries hold together.
pub open spec fn holds_all(g: Graph, h: Map<Id, Chunk>, es: Seq<(Id, Chunk)>) -> bool {
    g.full() || forall|m: Model, k: Id|
        #![trigger g.models(m), h.dom().contains(k)]
        g.models(m) && h.dom().contains(k) ==> gathered(m, es, k) == Some(content(m, h[k]))
}

/// The permission that an entry gives to a location.
pub open spec fn share(m: Model, e: (Id, Chunk), loc: Value) -> real {
    if m.at(e.0) == loc {
        amount(m.at(e.1.perm))
    } else {
        0 as real
    }
}

/// The permission that entries give to a location together.
pub open spec fn held(m: Model, es: Seq<(Id, Chunk)>, loc: Value) -> real
    decreases es.len(),
{
    if es.len() == 0 {
        0 as real
    } else {
        held(m, es.drop_last(), loc) + share(m, es.last(), loc)
    }
}

pub proof fn lemma_held_update(m: Model, es: Seq<(Id, Chunk)>, i: int, e: (Id, Chunk), loc: Value)
    requires
        0 <= i < es.len(),
    ensures
        held(m, es.update(i, e), loc) == held(m, es, loc) - share(m, es[i], loc) + share(m, e, loc),
    decreases es.len(),
{
    let fs = es.update(i, e);
    if i == es.len() - 1 {
        assert(fs.drop_last() =~= es.drop_last());
    } else {
        assert(fs.drop_last() =~= es.drop_last().update(i, e));
        lemma_held_update(m, es.drop_last(), i, e, loc);
    }
}

pub proof fn lemma_held_remove(m: Model, es: Seq<(Id, Chunk)>, i: int, loc: Value)
    requires
        0 <= i < es.len(),
    ensures
        held(m, es.remove(i), loc) == held(m, es, loc) - share(m, es[i], loc),
    decreases es.len(),
{
    let fs = es.remove(i);
    if i == es.len() - 1 {
        assert(fs =~= es.drop_last());
    } else {
        assert(fs.drop_last() =~= es.drop_last().remove(i));
        assert(fs.last() == es.last());
        lemma_held_remove(m, es.drop_last(), i, loc);
    }
}

/// No entry has a negative permission.
pub open spec fn nonnegative(m: Model, es: Seq<(Id, Chunk)>) -> bool {
    forall|i: int| 0 <= i < es.len() ==> amount(m.at((#[trigger] es[i]).1.perm)) >= 0 as real
}

/// No chunk has a negative permission.
pub open spec fn map_nonnegative(m: Model, h: Map<Id, Chunk>) -> bool {
    forall|k: Id| #[trigger] h.dom().contains(k) ==> amount(m.at(h[k].perm)) >= 0 as real
}

/// A chunk holds no less than another, and the value of the other where that one is
/// held.
pub open spec fn covers(m: Model, r: Chunk, c: Chunk) -> bool {
    &&& amount(m.at(r.perm)) >= amount(m.at(c.perm))
    &&& amount(m.at(c.perm)) > 0 as real ==> m.at(r.value) == m.at(c.value)
}

/// The chunks cover every entry.
pub open spec fn covers_entries(m: Model, r: Map<Id, Chunk>, es: Seq<(Id, Chunk)>) -> bool {
    forall|i: int|
        0 <= i < es.len() ==> r.dom().contains((#[trigger] es[i]).0) && covers(
            m,
            r[es[i].0],
            es[i].1,
        )
}

/// The chunks cover those of another heap.
pub open spec fn covers_chunks(m: Model, r: Map<Id, Chunk>, h: Map<Id, Chunk>) -> bool {
    forall|k: Id| #[trigger] h.dom().contains(k) ==> r.dom().contains(k) && covers(m, r[k], h[k])
}

/// On the path, and where no permission is negative, the chunks of `r` cover those
/// of `h` and the entries `es`: values that are held agree.
pub open spec fn one_value(
    g: Graph,
    pc: Seq<(Id, Polarity)>,
    r: Map<Id, Chunk>,
    h: Map<Id, Chunk>,
    es: Seq<(Id, Chunk)>,
) -> bool {
    g.full() || forall|m: Model| #[trigger]
        g.models(m) && cube_holds(m, pc) && map_nonnegative(m, h) && nonnegative(m, es)
            ==> map_nonnegative(m, r) && covers_chunks(m, r, h) && covers_entries(m, r, es)
}

/// The entries of `r` give a location what those of `a` and of `b` give together.
pub open spec fn adds_up(
    g: Graph,
    r: Seq<(Id, Chunk)>,
    a: Seq<(Id, Chunk)>,
    b: Seq<(Id, Chunk)>,
) -> bool {
    g.full() || forall|m: Model, loc: Value|
        #![trigger held(m, r, loc), g.models(m)]
        g.models(m) ==> held(m, r, loc) == held(m, a, loc) + held(m, b, loc)
}

/// Whether an entry has the address.
pub open spec fn has_addr(es: Seq<(Id, Chunk)>, k: Id) -> bool {
    exists|i: int| 0 <= i < es.len() && (#[trigger] es[i]).0 == k
}

/// Two chunks agree where an agreement holds: both held on the path, they hold one
/// value.
pub proof fn law_agreement(m: Model, pc: Seq<(Id, Polarity)>, a: Chunk, b: Chunk)
    requires
        equation_holds(m, (agreement(pc, a, b), t_bool(true))),
        cube_holds(m, pc),
        amount(m.at(a.perm)) > 0 as real,
        amount(m.at(b.perm)) > 0 as real,
    ensures
        m.at(a.value) == m.at(b.value),
{
    let zero = t_real(0 as real);
    let same = t_eq(Tm::Class(a.value), Tm::Class(b.value));
    let inner = t_ite(t_ltr(zero, Tm::Class(b.perm)), same, t_bool(true));
    let whole = t_ite(t_ltr(zero, Tm::Class(a.perm)), inner, t_bool(true));
    lemma_tm_lit(m, Value::Bool(true));
    lemma_tm_lit(m, Value::Real(0 as real));
    lemma_tm_bin(m, BinOp::LtR, zero, Tm::Class(a.perm));
    lemma_tm_bin(m, BinOp::LtR, zero, Tm::Class(b.perm));
    lemma_tm_bin(m, BinOp::Eq, Tm::Class(a.value), Tm::Class(b.value));
    lemma_tm_ite(m, t_ltr(zero, Tm::Class(b.perm)), same, t_bool(true));
    lemma_tm_ite(m, t_ltr(zero, Tm::Class(a.perm)), inner, t_bool(true));
    law_guard_value(m, pc, whole);
}

/// The chunk that a permission and a value make, joined from two.
pub open spec fn merged(g: Graph, a: Chunk, b: Chunk, r: Chunk) -> bool {
    &&& g.has(r.perm)
    &&& g.has(r.value)
    &&& g.denotes(r.perm, t_bin(BinOp::AddR, Tm::Class(a.perm), Tm::Class(b.perm)))
    &&& g.denotes(
        r.value,
        t_ite(
            t_ltr(t_real(0 as real), Tm::Class(a.perm)),
            Tm::Class(a.value),
            Tm::Class(b.value),
        ),
    )
}

pub proof fn lemma_merged(g: Graph, m: Model, a: Chunk, b: Chunk, r: Chunk)
    requires
        !g.full(),
        g.models(m),
        merged(g, a, b, r),
    ensures
        content(m, r) == join(content(m, a), content(m, b)),
{
    let zero = t_real(0 as real);
    lemma_tm_bin(m, BinOp::AddR, Tm::Class(a.perm), Tm::Class(b.perm));
    lemma_tm_lit(m, Value::Real(0 as real));
    lemma_tm_bin(m, BinOp::LtR, zero, Tm::Class(a.perm));
    lemma_tm_ite(m, t_ltr(zero, Tm::Class(a.perm)), Tm::Class(a.value), Tm::Class(b.value));
}

/// Joins two chunks of one address: permissions add up, the first value counts where
/// it is held, and both values are assumed to agree where both are.
pub fn merge_chunks(ctx: &mut Context, a: Chunk, b: Chunk, pc: &Vec<(Id, Polarity)>) -> (r: Chunk)
    requires
        old(ctx).wf(),
        old(ctx).graph.has(a.perm),
        old(ctx).graph.has(a.value),
        old(ctx).graph.has(b.perm),
        old(ctx).graph.has(b.value),
        cube_in(old(ctx).graph, pc@),
    ensures
        learns(*old(ctx), *final(ctx), seq![(agreement(pc@, a, b), t_bool(true))]),
        exists|mid: Context|
            {
                &&& #[trigger] builds(*old(ctx), mid)
                &&& mid.leads_to(*final(ctx))
                &&& crate::rewrite::pins::asserted(
                    mid.graph,
                    final(ctx).graph,
                    seq![(agreement(pc@, a, b), t_bool(true))],
                )
            },
        merged(final(ctx).graph, a, b, r),
{
    broadcast use group_grows;

    let ghost c0 = *ctx;
    let perm = ctx.build(
        &Expr::bin(BinOp::AddR, Expr::Class(a.perm), Expr::Class(b.perm)),
    );
    let ghost c1 = *ctx;
    let held = Expr::bin(BinOp::LtR, Expr::zero(), Expr::Class(a.perm));
    let value = ctx.build(&Expr::ite(held, Expr::Class(a.value), Expr::Class(b.value)));
    let ghost c2 = *ctx;
    let same = Expr::bin(BinOp::Eq, Expr::Class(a.value), Expr::Class(b.value));
    let second = Expr::bin(BinOp::LtR, Expr::zero(), Expr::Class(b.perm));
    let inner = Expr::ite(second, same, Expr::boolean(true));
    let first = Expr::bin(BinOp::LtR, Expr::zero(), Expr::Class(a.perm));
    let fact = guard_expr(pc, Expr::ite(first, inner, Expr::boolean(true)));
    proof {
        lemma_cube_grows(c0.graph, c2.graph, pc@);
    }
    ctx.assume_expr(&fact);
    proof {
        lemma_learns_refl(c0);
        lemma_learns_extended(c0, c0, c1, Seq::empty());
        lemma_learns_extended(c0, c1, c2, Seq::empty());
        let facts = seq![(agreement(pc@, a, b), t_bool(true))];
        crate::context::lemma_builds_trans(c0, c1, c2);
        lemma_learns_asserted(c0, c2, *ctx, Seq::empty(), facts);
        assert(Seq::<(Tm, Tm)>::empty() + facts =~= facts);
        lemma_grows_denotes(
            c1.graph,
            ctx.graph,
            perm,
            t_bin(BinOp::AddR, Tm::Class(a.perm), Tm::Class(b.perm)),
        );
        lemma_grows_denotes(
            c2.graph,
            ctx.graph,
            value,
            t_ite(
                t_ltr(t_real(0 as real), Tm::Class(a.perm)),
                Tm::Class(a.value),
                Tm::Class(b.value),
            ),
        );
    }
    Chunk::new(perm, value)
}

/// The entries of a heap, each under the canonical id of its address.
pub open spec fn canonical_list(g: Graph, es: Seq<(Id, Chunk)>) -> Seq<(Id, Chunk)> {
    Seq::new(es.len(), |i: int| (g.canon(es[i].0), es[i].1))
}

/// The entries of a heap, each under the canonical id of its address.
pub fn canonical_entries(g: &Graph, h: &Heap) -> (r: Vec<(Id, Chunk)>)
    requires
        g.wf(),
        entries_in(*g, h.list()),
    ensures
        r@ == canonical_list(*g, h.list()),
        entries_in(*g, r@),
{
    let es = h.entries();
    let mut out: Vec<(Id, Chunk)> = Vec::new();
    let mut i: usize = 0;
    while i < es.len()
        invariant
            g.wf(),
            es@ == h.list(),
            entries_in(*g, es@),
            i <= es@.len(),
            out@.len() == i,
            forall|k: int| 0 <= k < i ==> #[trigger] out@[k] == (g.canon(es@[k].0), es@[k].1),
            entries_in(*g, out@),
        decreases es.len() - i,
    {
        proof {
            assert(g.has(es@[i as int].0));
            lemma_canon_in(*g, es@[i as int].0);
        }
        let ghost before = out@;
        out.push((g.find(es[i].0), es[i].1));
        proof {
            assert forall|k: int| 0 <= k < out@.len() implies g.has((#[trigger] out@[k]).0)
                && g.has(out@[k].1.perm) && g.has(out@[k].1.value) by {
                if k < i {
                    assert(out@[k] == before[k]);
                }
            }
        }
        i += 1;
    }
    proof {
        assert(out@ =~= canonical_list(*g, h.list()));
    }
    out
}

/// What the entries of two lists hold together.
pub open spec fn joined_contents(a: Option<(Value, Value)>, b: Option<(Value, Value)>) -> Option<
    (Value, Value),
> {
    match (a, b) {
        (Some(x), Some(y)) => Some(join(x, y)),
        (Some(x), None) => Some(x),
        (None, y) => y,
    }
}

/// The chunks of `r` hold what those of `h` hold, joined with the entries `es`.
pub open spec fn holds_joined(
    g: Graph,
    r: Map<Id, Chunk>,
    h: Map<Id, Chunk>,
    es: Seq<(Id, Chunk)>,
) -> bool {
    &&& forall|k: Id| #[trigger] r.dom().contains(k) == (h.dom().contains(k) || has_addr(es, k))
    &&& g.full() || forall|m: Model, k: Id|
        #![trigger g.models(m), r.dom().contains(k)]
        g.models(m) && r.dom().contains(k) ==> Some(content(m, r[k])) == absorbed(m, h, es, k)
}

/// What an address holds after each entry in turn was joined to it.
pub open spec fn absorbed(m: Model, h: Map<Id, Chunk>, es: Seq<(Id, Chunk)>, k: Id) -> Option<
    (Value, Value),
>
    decreases es.len(),
{
    if es.len() == 0 {
        if h.dom().contains(k) {
            Some(content(m, h[k]))
        } else {
            None
        }
    } else {
        let rest = absorbed(m, h, es.drop_last(), k);
        if es.last().0 == k {
            joined_contents(rest, Some(content(m, es.last().1)))
        } else {
            rest
        }
    }
}

proof fn lemma_has_addr_push(es: Seq<(Id, Chunk)>, n: int, k: Id)
    requires
        0 <= n < es.len(),
    ensures
        has_addr(es.take(n + 1), k) == (has_addr(es.take(n), k) || es[n].0 == k),
{
    let a = es.take(n);
    let b = es.take(n + 1);
    if has_addr(b, k) {
        let i = choose|i: int| 0 <= i < b.len() && (#[trigger] b[i]).0 == k;
        if i < n {
            assert(a[i] == b[i]);
        }
    }
    if has_addr(a, k) {
        let i = choose|i: int| 0 <= i < a.len() && (#[trigger] a[i]).0 == k;
        assert(b[i].0 == k);
    }
    assert(b[n] == es[n]);
}

/// Joining a chunk of a list assumes what the list may.
proof fn lemma_absorb_reaches(
    a: Context,
    b: Context,
    pc: Seq<(Id, Polarity)>,
    pool: Seq<(Id, Chunk)>,
    list: Seq<(Id, Chunk)>,
    addr: Id,
    c: Chunk,
    chunk: Chunk,
    j: int,
    n: nat,
)
    requires
        a.wf(),
        0 <= j < pool.len(),
        pool[j] == (addr, chunk),
        chunk_map(list).dom().contains(addr),
        chunk_map(list)[addr] == c,
        addrs_differ(list),
        forall|k: int|
            0 <= k < list.len() ==> made_at(a.graph, pool, (#[trigger] list[k]).0, list[k].1, n),
        exists|mid: Context|
            {
                &&& #[trigger] builds(a, mid)
                &&& mid.leads_to(b)
                &&& crate::rewrite::pins::asserted(
                    mid.graph,
                    b.graph,
                    seq![(agreement(pc, c, chunk), t_bool(true))],
                )
            },
    ensures
        learns_agreements(a, b, pc, pool),
{
    let f = (agreement(pc, c, chunk), t_bool(true));
    let mid = choose|mid: Context|
        {
            &&& #[trigger] builds(a, mid)
            &&& mid.leads_to(b)
            &&& crate::rewrite::pins::asserted(mid.graph, b.graph, seq![f])
        };
    lemma_chunk_map(list);
    let k = choose|k: int| 0 <= k < list.len() && (#[trigger] list[k]).0 == addr;
    assert(list[k].1 == c);
    assert(made_at(a.graph, pool, list[k].0, list[k].1, n));
    lemma_made_grows(a.graph, mid.graph, pool, addr, c, n);
    assert(pool.contains((addr, chunk)));
    assert(made_at(mid.graph, pool, addr, chunk, n));
    assert(agrees_at(mid.graph, pc, pool, f));
    let fs = agree_facts(pc, pool);
    assert(fs.contains((mid.graph, f)));
    lemma_reaches_asserted(mid, b, f, fs);
    lemma_reaches_extended(a, mid);
    lemma_reaches_trans(a, mid, b);
}

proof fn lemma_made_update(
    a: Context,
    b: Context,
    pool: Seq<(Id, Chunk)>,
    list: Seq<(Id, Chunk)>,
    at: int,
    addr: Id,
    c: Chunk,
    chunk: Chunk,
    r: Chunk,
    n: nat,
)
    requires
        a.leads_to(b),
        0 <= at < list.len(),
        list[at] == (addr, c),
        pool.contains((addr, chunk)),
        merged(b.graph, c, chunk, r),
        forall|k: int|
            0 <= k < list.len() ==> made_at(a.graph, pool, (#[trigger] list[k]).0, list[k].1, n),
    ensures
        forall|k: int|
            0 <= k < list.len() ==> made_at(
                b.graph,
                pool,
                (#[trigger] list.update(at, (addr, r))[k]).0,
                list.update(at, (addr, r))[k].1,
                n + 1,
            ),
{
    let now = list.update(at, (addr, r));
    assert forall|k: int| 0 <= k < list.len() implies made_at(
        b.graph,
        pool,
        (#[trigger] now[k]).0,
        now[k].1,
        n + 1,
    ) by {
        assert(made_at(a.graph, pool, list[k].0, list[k].1, n));
        lemma_made_grows(a.graph, b.graph, pool, list[k].0, list[k].1, n);
        lemma_made_more(b.graph, pool, list[k].0, list[k].1, n, n + 1);
        if k == at {
            assert(made_at(b.graph, pool, addr, chunk, n));
            assert(merged(b.graph, c, chunk, r));
        }
    }
}

proof fn lemma_made_push(
    g: Graph,
    pool: Seq<(Id, Chunk)>,
    list: Seq<(Id, Chunk)>,
    e: (Id, Chunk),
    n: nat,
    j: int,
)
    requires
        0 <= j < pool.len(),
        pool[j] == e,
        forall|k: int|
            0 <= k < list.len() ==> made_at(g, pool, (#[trigger] list[k]).0, list[k].1, n),
    ensures
        forall|k: int|
            0 <= k < list.len() + 1 ==> made_at(
                g,
                pool,
                (#[trigger] list.push(e)[k]).0,
                list.push(e)[k].1,
                n + 1,
            ),
{
    let now = list.push(e);
    assert forall|k: int| 0 <= k < now.len() implies made_at(
        g,
        pool,
        (#[trigger] now[k]).0,
        now[k].1,
        n + 1,
    ) by {
        if k < list.len() {
            assert(made_at(g, pool, list[k].0, list[k].1, n));
            lemma_made_more(g, pool, list[k].0, list[k].1, n, n + 1);
        } else {
            assert(pool.contains(e));
        }
    }
}

/// Joins entries to a heap, one after the other.
pub fn absorb(ctx: &mut Context, h: &Heap, es: &Vec<(Id, Chunk)>, pc: &Vec<(Id, Polarity)>) -> (r:
    Heap)
    requires
        old(ctx).wf(),
        entries_in(old(ctx).graph, h.list()),
        entries_in(old(ctx).graph, es@),
        cube_in(old(ctx).graph, pc@),
    ensures
        learns_agreements(*old(ctx), *final(ctx), pc@, h.list() + es@),
        forall|i: int|
            0 <= i < r.list().len() ==> made_at(
                final(ctx).graph,
                h.list() + es@,
                (#[trigger] r.list()[i]).0,
                r.list()[i].1,
                es@.len(),
            ),
        entries_in(final(ctx).graph, r.list()),
        holds_joined(final(ctx).graph, r@, h@, es@),
        adds_up(final(ctx).graph, r.list(), h.list(), es@),
        one_value(final(ctx).graph, pc@, r@, h@, es@),
{
    let ghost c0 = *ctx;
    let mut out = h.copy();
    let mut i: usize = 0;
    let ghost pool = h.list() + es@;
    proof {
        let ghost none = Seq::<(Id, Chunk)>::empty();
        assert forall|m: Model, loc: Value|
            #![trigger held(m, out.list(), loc), c0.graph.models(m)]
            c0.graph.models(m) implies held(m, out.list(), loc) == held(m, h.list(), loc) + held(
            m,
            none,
            loc,
        ) by {}
        lemma_reaches_refl(c0);
        assert forall|k: int| 0 <= k < out.list().len() implies made_at(
            c0.graph,
            pool,
            (#[trigger] out.list()[k]).0,
            out.list()[k].1,
            0,
        ) by {
            assert(pool[k] == out.list()[k]);
        }
        assert(es@.take(0) =~= Seq::empty());
    }
    while i < es.len()
        invariant
            i <= es@.len(),
            ctx.wf(),
            entries_in(c0.graph, es@),
            cube_in(c0.graph, pc@),
            learns_agreements(c0, *ctx, pc@, pool),
            pool == h.list() + es@,
            forall|k: int|
                0 <= k < out.list().len() ==> made_at(
                    ctx.graph,
                    pool,
                    (#[trigger] out.list()[k]).0,
                    out.list()[k].1,
                    i as nat,
                ),
            entries_in(ctx.graph, out.list()),
            holds_joined(ctx.graph, out@, h@, es@.take(i as int)),
            adds_up(ctx.graph, out.list(), h.list(), es@.take(i as int)),
            one_value(ctx.graph, pc@, out@, h@, es@.take(i as int)),
        decreases es.len() - i,
    {
        let ghost c1 = *ctx;
        let ghost before = out@;
        let ghost old_list = out.list();
        let (addr, chunk) = es[i];
        proof {
            assert(c0.graph.has(es@[i as int].0));
            lemma_cube_grows(c0.graph, c1.graph, pc@);
        }
        let had = out.chunk(addr);
        match had {
            Some(c) => {
                proof {
                    lemma_entry_in(c1.graph, out, addr);
                }
                let r = merge_chunks(ctx, c, chunk, pc);
                proof {
                    lemma_entries_grow(c1.graph, ctx.graph, out.list());
                    lemma_absorb_reaches(
                        c1,
                        *ctx,
                        pc@,
                        pool,
                        old_list,
                        addr,
                        c,
                        chunk,
                        h.list().len() + i,
                        i as nat,
                    );
                    lemma_reaches_trans(c0, c1, *ctx);
                }
                out = out.with_chunk(addr, r);
                proof {
                    lemma_absorb_step(c1.graph, ctx.graph, before, h@, es@, i as int, Some(c), r);
                    lemma_one_value_step(
                        c1,
                        *ctx,
                        pc@,
                        before,
                        h@,
                        es@,
                        i as int,
                        Some(c),
                        r,
                    );
                    let at = choose|at: int|
                        0 <= at < old_list.len() && (#[trigger] old_list[at]).0 == addr
                            && out.list() == old_list.update(at, (addr, r));
                    lemma_list_at(old_list, at);
                    lemma_made_update(c1, *ctx, pool, old_list, at, addr, c, chunk, r, i as nat);
                    lemma_adds_merged(
                        c1.graph,
                        ctx.graph,
                        old_list,
                        h.list(),
                        es@,
                        i as int,
                        at,
                        r,
                    );
                }
            },
            None => {
                out = out.with_chunk(addr, chunk);
                proof {
                    lemma_made_push(c1.graph, pool, old_list, (addr, chunk), i as nat, h.list().len()
                        + i);
                    lemma_grows_refl(c1.graph);
                    lemma_absorb_step(c1.graph, ctx.graph, before, h@, es@, i as int, None, chunk);
                    lemma_adds_pushed(c1.graph, old_list, h.list(), es@, i as int);
                    lemma_learns_refl(c1);
                    lemma_one_value_step(
                        c1,
                        *ctx,
                        pc@,
                        before,
                        h@,
                        es@,
                        i as int,
                        None,
                        chunk,
                    );
                }
            },
        }
        i += 1;
    }
    proof {
        assert(es@.take(es@.len() as int) =~= es@);
    }
    out
}

/// The chunk that an address maps to is the one that its entry lists.
proof fn lemma_list_at(es: Seq<(Id, Chunk)>, i: int)
    requires
        0 <= i < es.len(),
        addrs_differ(es),
    ensures
        chunk_map(es).dom().contains(es[i].0),
        chunk_map(es)[es[i].0] == es[i].1,
{
    lemma_chunk_map(es);
}

proof fn lemma_one_value_step(
    a: Context,
    b: Context,
    pc: Seq<(Id, Polarity)>,
    before: Map<Id, Chunk>,
    h: Map<Id, Chunk>,
    es: Seq<(Id, Chunk)>,
    n: int,
    had: Option<Chunk>,
    r: Chunk,
)
    requires
        a.graph.grows_to(b.graph),
        0 <= n < es.len(),
        one_value(a.graph, pc, before, h, es.take(n)),
        had is Some == before.dom().contains(es[n].0),
        had is Some ==> had == Some(before[es[n].0]) && merged(
            b.graph,
            had.unwrap(),
            es[n].1,
            r,
        ) && learns(a, b, seq![(agreement(pc, had.unwrap(), es[n].1), t_bool(true))]),
        had is None ==> r == es[n].1,
    ensures
        one_value(b.graph, pc, before.insert(es[n].0, r), h, es.take(n + 1)),
{
    broadcast use group_grows;

    let after = before.insert(es[n].0, r);
    let prev = es.take(n);
    let now = es.take(n + 1);
    if !b.graph.full() {
        assert forall|m: Model| #[trigger]
            b.graph.models(m) && cube_holds(m, pc) && map_nonnegative(m, h) && nonnegative(
                m,
                now,
            ) implies map_nonnegative(m, after) && covers_chunks(m, after, h) && covers_entries(
            m,
            after,
            now,
        ) by {
            assert(a.graph.models(m));
            assert(nonnegative(m, prev)) by {
                assert forall|i: int| 0 <= i < prev.len() implies amount(
                    m.at((#[trigger] prev[i]).1.perm),
                ) >= 0 as real by {
                    assert(now[i] == prev[i]);
                }
            }
            assert(now[n] == es[n]);
            let k0 = es[n].0;
            if had is Some {
                let c = had.unwrap();
                lemma_merged(b.graph, m, c, es[n].1, r);
                let facts = seq![(agreement(pc, c, es[n].1), t_bool(true))];
                lemma_learns_holds(a, b, facts, m);
                assert(equation_holds(m, facts[0]));
                if amount(m.at(c.perm)) > 0 as real && amount(m.at(es[n].1.perm)) > 0 as real {
                    law_agreement(m, pc, c, es[n].1);
                }
                assert(before.dom().contains(k0));
                assert(covers(m, r, c));
                assert(covers(m, r, es[n].1));
            } else {
                assert(covers(m, r, es[n].1));
            }
            assert forall|k: Id| #[trigger] h.dom().contains(k) implies after.dom().contains(k)
                && covers(m, after[k], h[k]) by {
                assert(before.dom().contains(k) && covers(m, before[k], h[k]));
            }
            assert forall|k: Id| #[trigger] after.dom().contains(k) implies amount(
                m.at(after[k].perm),
            ) >= 0 as real by {
                if k != k0 {
                    assert(before.dom().contains(k));
                }
            }
            assert forall|i: int| 0 <= i < now.len() implies after.dom().contains(
                (#[trigger] now[i]).0,
            ) && covers(m, after[now[i].0], now[i].1) by {
                if i < n {
                    assert(now[i] == prev[i]);
                    assert(before.dom().contains(prev[i].0));
                }
            }
        }
    }
}

proof fn lemma_adds_merged(
    g: Graph,
    k: Graph,
    list: Seq<(Id, Chunk)>,
    a: Seq<(Id, Chunk)>,
    es: Seq<(Id, Chunk)>,
    n: int,
    at: int,
    r: Chunk,
)
    requires
        g.grows_to(k),
        0 <= n < es.len(),
        0 <= at < list.len(),
        list[at].0 == es[n].0,
        adds_up(g, list, a, es.take(n)),
        merged(k, list[at].1, es[n].1, r),
    ensures
        adds_up(k, list.update(at, (es[n].0, r)), a, es.take(n + 1)),
{
    broadcast use group_grows;

    let after = list.update(at, (es[n].0, r));
    let now = es.take(n + 1);
    assert(now.drop_last() =~= es.take(n));
    if !k.full() {
        assert forall|m: Model, loc: Value|
            #![trigger held(m, after, loc), k.models(m)]
            k.models(m) implies held(m, after, loc) == held(m, a, loc) + held(m, now, loc) by {
            assert(g.models(m));
            assert(held(m, list, loc) == held(m, a, loc) + held(m, es.take(n), loc));
            lemma_held_update(m, list, at, (es[n].0, r), loc);
            lemma_merged(k, m, list[at].1, es[n].1, r);
        }
    }
}

proof fn lemma_adds_pushed(
    g: Graph,
    list: Seq<(Id, Chunk)>,
    a: Seq<(Id, Chunk)>,
    es: Seq<(Id, Chunk)>,
    n: int,
)
    requires
        0 <= n < es.len(),
        adds_up(g, list, a, es.take(n)),
    ensures
        adds_up(g, list.push(es[n]), a, es.take(n + 1)),
{
    let after = list.push(es[n]);
    let now = es.take(n + 1);
    assert(now.drop_last() =~= es.take(n));
    assert(after.drop_last() =~= list);
    if !g.full() {
        assert forall|m: Model, loc: Value|
            #![trigger held(m, after, loc), g.models(m)]
            g.models(m) implies held(m, after, loc) == held(m, a, loc) + held(m, now, loc) by {
            assert(held(m, list, loc) == held(m, a, loc) + held(m, es.take(n), loc));
        }
    }
}

/// Canonical addresses name the same locations.
pub proof fn lemma_held_canonical(g: Graph, m: Model, es: Seq<(Id, Chunk)>, loc: Value)
    requires
        g.wf(),
        g.models(m),
        entries_in(g, es),
    ensures
        held(m, canonical_list(g, es), loc) == held(m, es, loc),
    decreases es.len(),
{
    if es.len() > 0 {
        let front = es.drop_last();
        assert forall|i: int| 0 <= i < front.len() implies g.has((#[trigger] front[i]).0) && g.has(
            front[i].1.perm,
        ) && g.has(front[i].1.value) by {
            assert(g.has(es[i].0));
        }
        lemma_held_canonical(g, m, front, loc);
        assert(canonical_list(g, es).drop_last() =~= canonical_list(g, front));
        assert(g.has(es[es.len() - 1].0));
        lemma_canon_value(g, m, es.last().0);
    }
}

/// The chunk of a heap is over classes of its graph.
pub proof fn lemma_entry_in(g: Graph, h: Heap, addr: Id)
    requires
        entries_in(g, h.list()),
        h@.dom().contains(addr),
    ensures
        g.has(addr),
        g.has(h@[addr].perm),
        g.has(h@[addr].value),
{
    lemma_map_in(g, h.list(), addr);
}

proof fn lemma_map_in(g: Graph, es: Seq<(Id, Chunk)>, addr: Id)
    requires
        entries_in(g, es),
        chunk_map(es).dom().contains(addr),
    ensures
        g.has(addr),
        g.has(chunk_map(es)[addr].perm),
        g.has(chunk_map(es)[addr].value),
    decreases es.len(),
{
    if es.len() > 0 {
        assert(g.has(es[es.len() - 1].0));
        if es.last().0 != addr {
            let front = es.drop_last();
            assert forall|i: int| 0 <= i < front.len() implies g.has((#[trigger] front[i]).0)
                && g.has(front[i].1.perm) && g.has(front[i].1.value) by {
                assert(g.has(es[i].0));
            }
            lemma_map_in(g, front, addr);
        }
    }
}

proof fn lemma_absorb_step(
    g: Graph,
    k: Graph,
    before: Map<Id, Chunk>,
    h: Map<Id, Chunk>,
    es: Seq<(Id, Chunk)>,
    n: int,
    had: Option<Chunk>,
    r: Chunk,
)
    requires
        g.grows_to(k),
        0 <= n < es.len(),
        holds_joined(g, before, h, es.take(n)),
        had is Some == before.dom().contains(es[n].0),
        had is Some ==> had == Some(before[es[n].0]) && merged(k, had.unwrap(), es[n].1, r),
        had is None ==> r == es[n].1,
    ensures
        holds_joined(k, before.insert(es[n].0, r), h, es.take(n + 1)),
{
    broadcast use group_grows;

    let after = before.insert(es[n].0, r);
    let now = es.take(n + 1);
    assert(now.drop_last() =~= es.take(n));
    assert(now.last() == es[n]);
    assert forall|x: Id| #[trigger] after.dom().contains(x) == (h.dom().contains(x) || has_addr(
        now,
        x,
    )) by {
        lemma_has_addr_push(es, n, x);
        assert(before.dom().contains(x) == (h.dom().contains(x) || has_addr(es.take(n), x)));
    }
    if !k.full() {
        assert forall|m: Model, x: Id|
            #![trigger k.models(m), after.dom().contains(x)]
            k.models(m) && after.dom().contains(x) implies Some(content(m, after[x])) == absorbed(
            m,
            h,
            now,
            x,
        ) by {
            assert(g.models(m));
            if x == es[n].0 {
                if had is Some {
                    lemma_merged(k, m, had.unwrap(), es[n].1, r);
                    assert(before.dom().contains(x));
                } else {
                    assert(!before.dom().contains(x));
                    lemma_absorbed_none(m, h, es.take(n), x);
                }
            } else {
                assert(before.dom().contains(x));
            }
        }
    }
}

/// An address that neither the heap nor the entries have holds nothing.
proof fn lemma_absorbed_none(m: Model, h: Map<Id, Chunk>, es: Seq<(Id, Chunk)>, k: Id)
    requires
        !h.dom().contains(k),
        !has_addr(es, k),
    ensures
        absorbed(m, h, es, k) is None,
    decreases es.len(),
{
    if es.len() > 0 {
        assert(es[es.len() - 1].0 != k);
        let front = es.drop_last();
        assert(!has_addr(front, k)) by {
            if has_addr(front, k) {
                let i = choose|i: int| 0 <= i < front.len() && (#[trigger] front[i]).0 == k;
                assert(es[i].0 == k);
            }
        }
        lemma_absorbed_none(m, h, front, k);
    }
}

/// Joining entries to an empty heap gathers them.
proof fn lemma_absorbed_gathered(m: Model, es: Seq<(Id, Chunk)>, k: Id)
    ensures
        absorbed(m, Map::empty(), es, k) == gathered(m, es, k),
    decreases es.len(),
{
    if es.len() > 0 {
        lemma_absorbed_gathered(m, es.drop_last(), k);
    }
}

/// The chunks of `h`, those of one class joined, under canonical addresses.
pub open spec fn canonicalized(g: Graph, k: Graph, h: Heap, r: Heap) -> bool {
    let es = canonical_list(g, h.list());
    &&& entries_in(k, r.list())
    &&& forall|a: Id| #[trigger] r@.dom().contains(a) == has_addr(es, a)
    &&& holds_all(k, r@, es)
}

pub proof fn lemma_canonicalized(g: Graph, k: Graph, h: Heap, r: Heap)
    requires
        entries_in(k, r.list()),
        holds_joined(k, r@, Map::empty(), canonical_list(g, h.list())),
    ensures
        canonicalized(g, k, h, r),
{
    let es = canonical_list(g, h.list());
    if !k.full() {
        assert forall|m: Model, a: Id|
            #![trigger k.models(m), r@.dom().contains(a)]
            k.models(m) && r@.dom().contains(a) implies gathered(m, es, a) == Some(
            content(m, r@[a]),
        ) by {
            lemma_absorbed_gathered(m, es, a);
        }
    }
}

/// A heap with its chunks under canonical addresses. Chunks whose addresses fell
/// together are joined.
pub fn canonicalize_heap(ctx: &mut Context, h: &Heap, pc: &Vec<(Id, Polarity)>) -> (r: Heap)
    requires
        old(ctx).wf(),
        entries_in(old(ctx).graph, h.list()),
        cube_in(old(ctx).graph, pc@),
    ensures
        learns_agreements(
            *old(ctx),
            *final(ctx),
            pc@,
            canonical_list(old(ctx).graph, h.list()),
        ),
        canonicalized(old(ctx).graph, final(ctx).graph, *h, r),
        same_permissions(final(ctx).graph, r.list(), h.list()),
{
    let ghost g0 = ctx.graph;
    let es = canonical_entries(&ctx.graph, h);
    let none = Heap::empty();
    let r = absorb(ctx, &none, &es, pc);
    proof {
        assert(none.list() + es@ =~= es@);
        lemma_canonicalized(g0, ctx.graph, *h, r);
        lemma_same_permissions(g0, ctx.graph, r.list(), none.list(), h.list());
    }
    r
}

/// The entries of `r` give every location what those of `a` give it.
pub open spec fn same_permissions(g: Graph, r: Seq<(Id, Chunk)>, a: Seq<(Id, Chunk)>) -> bool {
    g.full() || forall|m: Model, loc: Value|
        #![trigger held(m, r, loc), g.models(m)]
        g.models(m) ==> held(m, r, loc) == held(m, a, loc)
}

pub proof fn lemma_same_permissions(
    g: Graph,
    k: Graph,
    r: Seq<(Id, Chunk)>,
    none: Seq<(Id, Chunk)>,
    a: Seq<(Id, Chunk)>,
)
    requires
        g.wf(),
        g.grows_to(k),
        entries_in(g, a),
        none.len() == 0,
        adds_up(k, r, none, canonical_list(g, a)),
    ensures
        same_permissions(k, r, a),
{
    broadcast use group_grows;

    if !k.full() {
        assert forall|m: Model, loc: Value|
            #![trigger held(m, r, loc), k.models(m)]
            k.models(m) implies held(m, r, loc) == held(m, a, loc) by {
            assert(g.models(m));
            lemma_held_canonical(g, m, a, loc);
        }
    }
}

/// The chunks of two heaps, joined address by address.
pub open spec fn united(g: Graph, k: Graph, a: Heap, b: Heap, r: Heap) -> bool {
    let x = canonical_list(g, a.list());
    let y = canonical_list(g, b.list());
    &&& entries_in(k, r.list())
    &&& forall|c: Id| #[trigger] r@.dom().contains(c) == (has_addr(x, c) || has_addr(y, c))
    &&& k.full() || forall|m: Model, c: Id|
        #![trigger k.models(m), r@.dom().contains(c)]
        k.models(m) && r@.dom().contains(c) ==> Some(content(m, r@[c])) == joined_contents(
            gathered(m, x, c),
            gathered(m, y, c),
        )
}

/// Joining entries of distinct addresses joins their chunks.
pub proof fn lemma_absorbed_map(m: Model, h: Map<Id, Chunk>, es: Seq<(Id, Chunk)>, k: Id)
    requires
        addrs_differ(es),
    ensures
        absorbed(m, h, es, k) == joined_contents(
            if h.dom().contains(k) {
                Some(content(m, h[k]))
            } else {
                None
            },
            if chunk_map(es).dom().contains(k) {
                Some(content(m, chunk_map(es)[k]))
            } else {
                None
            },
        ),
        chunk_map(es).dom().contains(k) == has_addr(es, k),
    decreases es.len(),
{
    lemma_chunk_map(es);
    if has_addr(es, k) {
        let i = choose|i: int| 0 <= i < es.len() && (#[trigger] es[i]).0 == k;
        assert(chunk_map(es).dom().contains(es[i].0));
    }
    if es.len() > 0 {
        let front = es.drop_last();
        assert(addrs_differ(front)) by {
            assert forall|i: int, j: int| 0 <= i < j < front.len() implies (#[trigger] front[i]).0
                != (#[trigger] front[j]).0 by {
                assert(es[i].0 != es[j].0);
            }
        }
        lemma_absorbed_map(m, h, front, k);
        if es.last().0 == k {
            assert(!has_addr(front, k)) by {
                if has_addr(front, k) {
                    let i = choose|i: int| 0 <= i < front.len() && (#[trigger] front[i]).0 == k;
                    assert(es[i].0 != es[es.len() - 1].0);
                }
            }
        }
    }
}

proof fn lemma_united(g: Graph, g1: Graph, g2: Graph, k: Graph, a: Heap, b: Heap, x: Heap, y: Heap, r: Heap)
    requires
        g1.grows_to(k),
        g2.grows_to(k),
        addrs_differ(y.list()),
        canonicalized(g, g1, a, x),
        canonicalized(g, g2, b, y),
        entries_in(k, r.list()),
        holds_joined(k, r@, x@, y.list()),
    ensures
        united(g, k, a, b, r),
{
    broadcast use group_grows;

    let p = canonical_list(g, a.list());
    let q = canonical_list(g, b.list());
    let any = Model { ..arbitrary() };
    assert forall|c: Id| #[trigger] r@.dom().contains(c) == (has_addr(p, c) || has_addr(q, c)) by {
        lemma_absorbed_map(any, x@, y.list(), c);
        assert(x@.dom().contains(c) == has_addr(p, c));
        assert(y@.dom().contains(c) == has_addr(q, c));
    }
    if !k.full() {
        assert forall|m: Model, c: Id|
            #![trigger k.models(m), r@.dom().contains(c)]
            k.models(m) && r@.dom().contains(c) implies Some(content(m, r@[c])) == joined_contents(
            gathered(m, p, c),
            gathered(m, q, c),
        ) by {
            lemma_absorbed_map(m, x@, y.list(), c);
            assert(g1.models(m) && g2.models(m));
            assert(x@.dom().contains(c) == has_addr(p, c));
            assert(y@.dom().contains(c) == has_addr(q, c));
            if !has_addr(p, c) {
                lemma_gathered_none(m, p, c);
            }
            if !has_addr(q, c) {
                lemma_gathered_none(m, q, c);
            }
        }
    }
}

/// On the path, and where no permission is negative, the chunks of `r` hold the
/// values that the entries of `a` and `b` hold.
pub open spec fn united_values(
    g: Graph,
    k: Graph,
    pc: Seq<(Id, Polarity)>,
    r: Map<Id, Chunk>,
    a: Seq<(Id, Chunk)>,
    b: Seq<(Id, Chunk)>,
) -> bool {
    k.full() || forall|m: Model| #[trigger]
        k.models(m) && cube_holds(m, pc) && nonnegative(m, a) && nonnegative(m, b)
            ==> covers_entries(m, r, canonical_list(g, a)) && covers_entries(
            m,
            r,
            canonical_list(g, b),
        )
}

proof fn lemma_nonnegative_canonical(g: Graph, m: Model, es: Seq<(Id, Chunk)>)
    requires
        nonnegative(m, es),
    ensures
        nonnegative(m, canonical_list(g, es)),
{
    let cs = canonical_list(g, es);
    assert forall|i: int| 0 <= i < cs.len() implies amount(m.at((#[trigger] cs[i]).1.perm))
        >= 0 as real by {
        assert(amount(m.at(es[i].1.perm)) >= 0 as real);
    }
}

proof fn lemma_covers_trans(
    m: Model,
    r: Map<Id, Chunk>,
    x: Map<Id, Chunk>,
    es: Seq<(Id, Chunk)>,
)
    requires
        covers_chunks(m, r, x),
        covers_entries(m, x, es),
    ensures
        covers_entries(m, r, es),
{
    assert forall|i: int| 0 <= i < es.len() implies r.dom().contains((#[trigger] es[i]).0)
        && covers(m, r[es[i].0], es[i].1) by {
        assert(x.dom().contains(es[i].0));
    }
}

/// Chunks that cover the list of a heap cover its map.
proof fn lemma_covers_list(m: Model, r: Map<Id, Chunk>, es: Seq<(Id, Chunk)>)
    requires
        addrs_differ(es),
        covers_entries(m, r, es),
    ensures
        covers_chunks(m, r, chunk_map(es)),
{
    lemma_chunk_map(es);
    let h = chunk_map(es);
    assert forall|k: Id| #[trigger] h.dom().contains(k) implies r.dom().contains(k) && covers(
        m,
        r[k],
        h[k],
    ) by {
        let i = choose|i: int| 0 <= i < es.len() && (#[trigger] es[i]).0 == k;
        assert(h[es[i].0] == es[i].1);
    }
}

proof fn lemma_nonnegative_list(m: Model, es: Seq<(Id, Chunk)>)
    requires
        addrs_differ(es),
        map_nonnegative(m, chunk_map(es)),
    ensures
        nonnegative(m, es),
{
    lemma_chunk_map(es);
    assert forall|i: int| 0 <= i < es.len() implies amount(m.at((#[trigger] es[i]).1.perm))
        >= 0 as real by {
        assert(chunk_map(es).dom().contains(es[i].0));
    }
}

proof fn lemma_united_values(
    g: Graph,
    g1: Graph,
    g2: Graph,
    k: Graph,
    pc: Seq<(Id, Polarity)>,
    a: Seq<(Id, Chunk)>,
    b: Seq<(Id, Chunk)>,
    x: Map<Id, Chunk>,
    y: Seq<(Id, Chunk)>,
    r: Map<Id, Chunk>,
)
    requires
        g1.grows_to(k),
        g2.grows_to(k),
        addrs_differ(y),
        one_value(g1, pc, x, Map::empty(), canonical_list(g, a)),
        one_value(g2, pc, chunk_map(y), Map::empty(), canonical_list(g, b)),
        one_value(k, pc, r, x, y),
    ensures
        united_values(g, k, pc, r, a, b),
{
    broadcast use group_grows;

    if !k.full() {
        assert forall|m: Model| #[trigger]
            k.models(m) && cube_holds(m, pc) && nonnegative(m, a) && nonnegative(
                m,
                b,
            ) implies covers_entries(m, r, canonical_list(g, a)) && covers_entries(
            m,
            r,
            canonical_list(g, b),
        ) by {
            lemma_nonnegative_canonical(g, m, a);
            lemma_nonnegative_canonical(g, m, b);
            assert(map_nonnegative(m, Map::<Id, Chunk>::empty()));
            assert(g1.models(m) && g2.models(m));
            lemma_nonnegative_list(m, y);
            assert(covers_chunks(m, r, x) && covers_entries(m, r, y));
            lemma_covers_trans(m, r, x, canonical_list(g, a));
            lemma_covers_list(m, r, y);
            lemma_covers_trans(m, r, chunk_map(y), canonical_list(g, b));
        }
    }
}

pub proof fn lemma_gathered_none(m: Model, es: Seq<(Id, Chunk)>, k: Id)
    requires
        !has_addr(es, k),
    ensures
        gathered(m, es, k) is None,
{
    lemma_absorbed_gathered(m, es, k);
    lemma_absorbed_none(m, Map::empty(), es, k);
}

/// The entries of two lists are entries of both together.
pub proof fn lemma_pool(g: Graph, a: Seq<(Id, Chunk)>, b: Seq<(Id, Chunk)>)
    ensures
        forall|i: int|
            0 <= i < a.len() ==> made_at(g, a + b, (#[trigger] a[i]).0, a[i].1, 0),
        forall|i: int|
            0 <= i < b.len() ==> made_at(g, a + b, (#[trigger] b[i]).0, b[i].1, 0),
{
    assert forall|i: int| 0 <= i < a.len() implies made_at(
        g,
        a + b,
        (#[trigger] a[i]).0,
        a[i].1,
        0,
    ) by {
        assert((a + b)[i] == a[i]);
    }
    assert forall|i: int| 0 <= i < b.len() implies made_at(
        g,
        a + b,
        (#[trigger] b[i]).0,
        b[i].1,
        0,
    ) by {
        assert((a + b)[a.len() + i] == b[i]);
    }
}

proof fn lemma_pool_made(
    c1: Context,
    c2: Context,
    a: Seq<(Id, Chunk)>,
    b: Seq<(Id, Chunk)>,
    x: Seq<(Id, Chunk)>,
    y: Seq<(Id, Chunk)>,
)
    requires
        c1.leads_to(c2),
        forall|i: int|
            0 <= i < x.len() ==> made_at(c1.graph, a, (#[trigger] x[i]).0, x[i].1, a.len()),
        forall|i: int|
            0 <= i < y.len() ==> made_at(c2.graph, b, (#[trigger] y[i]).0, y[i].1, b.len()),
    ensures
        forall|i: int|
            0 <= i < (x + y).len() ==> made_at(
                c2.graph,
                a + b,
                (#[trigger] (x + y)[i]).0,
                (x + y)[i].1,
                a.len() + b.len(),
            ),
{
    let g = c2.graph;
    let n = a.len() + b.len();
    lemma_pool(g, a, b);
    assert forall|i: int| 0 <= i < (x + y).len() implies made_at(
        g,
        a + b,
        (#[trigger] (x + y)[i]).0,
        (x + y)[i].1,
        n,
    ) by {
        if i < x.len() {
            let e = x[i];
            assert(made_at(c1.graph, a, x[i].0, x[i].1, a.len()));
            lemma_made_grows(c1.graph, g, a, e.0, e.1, a.len());
            lemma_made_through(g, a, a + b, e.0, e.1, a.len(), 0);
            lemma_made_more(g, a + b, e.0, e.1, a.len(), n);
            assert((x + y)[i] == e);
        } else {
            let e = y[i - x.len()];
            assert(made_at(g, b, e.0, e.1, b.len()));
            lemma_made_through(g, b, a + b, e.0, e.1, b.len(), 0);
            lemma_made_more(g, a + b, e.0, e.1, b.len(), n);
            assert((x + y)[i] == e);
        }
    }
}

/// Adds two heaps: the chunks of one class are joined.
pub fn heap_union(ctx: &mut Context, h1: &Heap, h2: &Heap, pc: &Vec<(Id, Polarity)>) -> (r: Heap)
    requires
        old(ctx).wf(),
        entries_in(old(ctx).graph, h1.list()),
        entries_in(old(ctx).graph, h2.list()),
        cube_in(old(ctx).graph, pc@),
    ensures
        learns_agreements(
            *old(ctx),
            *final(ctx),
            pc@,
            canonical_list(old(ctx).graph, h1.list()) + canonical_list(
                old(ctx).graph,
                h2.list(),
            ),
        ),
        united(old(ctx).graph, final(ctx).graph, *h1, *h2, r),
        adds_up(final(ctx).graph, r.list(), h1.list(), h2.list()),
        united_values(old(ctx).graph, final(ctx).graph, pc@, r@, h1.list(), h2.list()),
{
    let ghost c0 = *ctx;
    let ghost g0 = ctx.graph;
    let e1 = canonical_entries(&ctx.graph, h1);
    let e2 = canonical_entries(&ctx.graph, h2);
    let none = Heap::empty();
    let x = absorb(ctx, &none, &e1, pc);
    let ghost c1 = *ctx;
    proof {
        lemma_canonicalized(g0, c1.graph, *h1, x);
        lemma_same_permissions(g0, c1.graph, x.list(), none.list(), h1.list());
        lemma_entries_grow(g0, c1.graph, e2@);
        lemma_cube_grows(g0, c1.graph, pc@);
    }
    let y = absorb(ctx, &none, &e2, pc);
    let ghost c2 = *ctx;
    proof {
        assert(none.list() + e1@ =~= e1@);
        assert(none.list() + e2@ =~= e2@);
        lemma_pool(c0.graph, e1@, e2@);
        lemma_pool(c1.graph, e1@, e2@);
        lemma_agree_through(c0, c1, pc@, e1@, e1@ + e2@, 0);
        lemma_agree_through(c1, c2, pc@, e2@, e1@ + e2@, 0);
        lemma_reaches_trans(c0, c1, c2);
        lemma_canonicalized(g0, c2.graph, *h2, y);
        lemma_same_permissions(g0, c2.graph, y.list(), none.list(), h2.list());
        lemma_entries_grow(c1.graph, c2.graph, x.list());
        lemma_cube_grows(c1.graph, c2.graph, pc@);
    }
    let r = absorb(ctx, &x, y.entries(), pc);
    proof {
        broadcast use group_grows;

        lemma_pool_made(c1, c2, e1@, e2@, x.list(), y.list());
        lemma_agree_through(
            c2,
            *ctx,
            pc@,
            x.list() + y.list(),
            e1@ + e2@,
            e1@.len() + e2@.len(),
        );
        lemma_reaches_trans(c0, c2, *ctx);
        lemma_united(g0, c1.graph, c2.graph, ctx.graph, *h1, *h2, x, y, r);
        lemma_united_values(
            g0,
            c1.graph,
            c2.graph,
            ctx.graph,
            pc@,
            h1.list(),
            h2.list(),
            x@,
            y.list(),
            r@,
        );
        if !ctx.graph.full() {
            assert forall|m: Model, loc: Value|
                #![trigger held(m, r.list(), loc), ctx.graph.models(m)]
                ctx.graph.models(m) implies held(m, r.list(), loc) == held(m, h1.list(), loc)
                + held(m, h2.list(), loc) by {
                assert(c1.graph.models(m) && c2.graph.models(m));
                assert(held(m, x.list(), loc) == held(m, h1.list(), loc));
                assert(held(m, y.list(), loc) == held(m, h2.list(), loc));
            }
        }
    }
    r
}

} // verus!
