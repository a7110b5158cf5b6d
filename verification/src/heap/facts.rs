//! What heap operations may assume.

use crate::context::{
    builds, cube_holds, learns, lemma_leads_refl, lemma_leads_trans, lemma_learns_asserted,
    lemma_learns_refl, reduced, refolded, saturated, t_fresh, Context,
};
use crate::graph::Graph;
use crate::heap::chunk::Chunk;
use crate::heap::enough::{answered, Ask};
use crate::heap::gate::{cube_on, gate_tm};
use crate::heap::join::{merged_chunks, part};
use crate::heap::perm::{perm_amt, ChunkPerm};
use crate::heap::sum::united_with;
use crate::heap::summary::guards_sorted;
use crate::lang::Id;
use crate::method::merge::{agreement, amount};
use crate::method::plain;
use crate::method::subtract::same_fact;
use crate::model::{equation_holds, t_bin, t_bool, t_eq, t_ite, t_ltr, t_not, t_real, Model, Tm};
use crate::prove::{probed, shown_tm, tried, unshown};
use crate::rewrite::guards::{class_guards, guard_tm};
use crate::rewrite::pins::asserted;
use crate::rewrite::rules::stepped;
use crate::vmir::{BinOp, Polarity};
use vstd::prelude::*;

verus! {

/// Where the guards hold and an amount is positive, two values are equal.
pub open spec fn agree_fact(gs: Seq<(Id, Polarity)>, p: Id, v: Id, w: Id) -> (Tm, Tm) {
    (
        guard_tm(
            class_guards(gs),
            t_ite(
                t_ltr(t_real(0 as real), Tm::Class(p)),
                t_eq(Tm::Class(v), Tm::Class(w)),
                t_bool(true),
            ),
        ),
        t_bool(true),
    )
}

/// Where the guards hold, two values are equal.
pub open spec fn equal_fact(gs: Seq<(Id, Polarity)>, v: Id, w: Id) -> (Tm, Tm) {
    (guard_tm(class_guards(gs), t_eq(Tm::Class(v), Tm::Class(w))), t_bool(true))
}

/// Where the guards hold, an amount is at most a bound.
pub open spec fn bound_fact(gs: Seq<(Id, Polarity)>, b: real, leaf: Id) -> (Tm, Tm) {
    (
        guard_tm(class_guards(gs), t_not(t_ltr(t_real(b), Tm::Class(leaf)))),
        t_bool(true),
    )
}

/// Where the guards hold and two amounts are more than a bound together.
pub open spec fn over_tm(gs: Seq<(Id, Polarity)>, b: real, p: Id, q: Id) -> Tm {
    gate_tm(
        gs,
        t_ltr(t_real(b), t_bin(BinOp::AddR, Tm::Class(p), Tm::Class(q))),
        t_bool(false),
    )
}

/// Where the guards hold and two amounts are more than a bound together, they are not
/// at one address.
pub open spec fn apart_fact(
    gs: Seq<(Id, Polarity)>,
    b: real,
    p: Id,
    q: Id,
    x: Id,
    y: Id,
) -> (Tm, Tm) {
    let eq = t_eq(Tm::Class(x), Tm::Class(y));
    (eq, t_ite(over_tm(gs, b, p, q), t_bool(false), eq))
}

/// A share is positive.
pub open spec fn share_fact(s: Id) -> (Tm, Tm) {
    (t_ltr(t_real(0 as real), Tm::Class(s)), t_bool(true))
}

/// Where the guards hold, one amount is less than another.
pub open spec fn less_fact(gs: Seq<(Id, Polarity)>, x: Id, y: Id) -> (Tm, Tm) {
    (guard_tm(class_guards(gs), t_ltr(Tm::Class(x), Tm::Class(y))), t_bool(true))
}

/// Equations that may be assumed, each with the graphs on which it may be.
pub open spec fn only(f: (Tm, Tm)) -> Set<(Graph, (Tm, Tm))> {
    Set::new(|e: (Graph, (Tm, Tm))| e.1 == f)
}

/// What holds already.
pub open spec fn sure_facts() -> Set<(Graph, (Tm, Tm))> {
    Set::new(
        |e: (Graph, (Tm, Tm))|
            e.0.full() || forall|m: Model| #[trigger] e.0.models(m) ==> equation_holds(m, e.1),
    )
}

/// That a share is positive, or is less or more than an amount.
pub open spec fn is_share_fact(s: Id, f: (Tm, Tm)) -> bool {
    ||| f == share_fact(s)
    ||| exists|gs: Seq<(Id, Polarity)>, x: Id| f == #[trigger] less_fact(gs, x, s)
    ||| exists|gs: Seq<(Id, Polarity)>, x: Id| f == #[trigger] less_fact(gs, s, x)
}

/// What may be assumed of a share whose symbol was made from a number on.
pub open spec fn is_fresh_fact(g: Graph, k: u32, f: (Tm, Tm)) -> bool {
    exists|s: Id, n: u32| k <= n && #[trigger] g.denotes(s, t_fresh(n)) && is_share_fact(s, f)
}

/// What may be assumed of shares whose symbols were made from a number on.
pub open spec fn fresh_facts(k: u32) -> Set<(Graph, (Tm, Tm))> {
    Set::new(|e: (Graph, (Tm, Tm))| is_fresh_fact(e.0, k, e.1))
}

/// In every model a class is what a chunk adds to a merge.
pub open spec fn weighs_as(g: Graph, p: Id, one: bool, c: Chunk) -> bool {
    g.full() || forall|m: Model| #[trigger] g.models(m) ==> amount(m.at(p)) == part(m, one, c)
}

/// A class is the amount that a chunk adds to a merge.
pub open spec fn weighs(g: Graph, p: Id, c: Chunk) -> bool {
    exists|one: bool| #[trigger] weighs_as(g, p, one, c)
}

/// What a chunk adds to a merge is an amount that is positive on the path.
pub open spec fn held_as(
    g: Graph,
    pc: Seq<(Id, Polarity)>,
    one: bool,
    c: Chunk,
    p: ChunkPerm,
) -> bool {
    g.full() || (answered(g, pc, p, Ask::Positive) && forall|m: Model| #[trigger]
        g.models(m) ==> perm_amt(m, p) == part(m, one, c))
}

/// On the path a chunk adds something to a merge.
pub open spec fn held_on(g: Graph, pc: Seq<(Id, Polarity)>, c: Chunk) -> bool {
    exists|one: bool, p: ChunkPerm| #[trigger] held_as(g, pc, one, c, p)
}

/// What may be assumed of the values of two chunks at one address: that they agree where
/// both chunks are held on the path.
pub open spec fn value_fact(
    g: Graph,
    pc: Seq<(Id, Polarity)>,
    a: Chunk,
    b: Chunk,
    f: (Tm, Tm),
) -> bool {
    ||| f == same_fact(a.value, b.value) && held_on(g, pc, a) && held_on(g, pc, b)
    ||| held_on(g, pc, a) && exists|q: Id| #[trigger]
        weighs(g, q, b) && f == agree_fact(pc, q, a.value, b.value)
    ||| held_on(g, pc, b) && exists|p: Id| #[trigger]
        weighs(g, p, a) && f == agree_fact(pc, p, b.value, a.value)
    ||| exists|p: Id, q: Id| #[trigger]
        weighs(g, p, a) && #[trigger] weighs(g, q, b) && f == (
            agreement(
                pc,
                plain::Chunk { perm: p, value: a.value },
                plain::Chunk { perm: q, value: b.value },
            ),
            t_bool(true),
        )
}

/// What may be assumed of the values of two chunks.
pub open spec fn pair_facts(pc: Seq<(Id, Polarity)>, a: Chunk, b: Chunk) -> Set<
    (Graph, (Tm, Tm)),
> {
    Set::new(|e: (Graph, (Tm, Tm))| value_fact(e.0, pc, a, b, e.1))
}

/// Two chunks at one address became one.
pub open spec fn joins(g: Graph, pc: Seq<(Id, Polarity)>, a: Chunk, b: Chunk, c: Chunk) -> bool {
    exists|one: bool|
        #![trigger united_with(g, one, pc, a, b, c)]
        #![trigger merged_chunks(g, one, pc, a, b, c)]
        united_with(g, one, pc, a, b, c) || (c.addr == a.addr && merged_chunks(
            g,
            one,
            pc,
            a,
            b,
            c,
        ))
}

/// A chunk of a list, or one that chunks of the list at its address became in turn.
pub open spec fn made_of(
    g: Graph,
    pc: Seq<(Id, Polarity)>,
    cs: Seq<Chunk>,
    c: Chunk,
    n: nat,
) -> bool
    decreases n,
{
    cs.contains(c) || (n > 0 && exists|a: Chunk, b: Chunk|
        {
            &&& made_of(g, pc, cs, a, (n - 1) as nat)
            &&& cs.contains(b)
            &&& g.canon(a.addr) == g.canon(b.addr)
            &&& #[trigger] joins(g, pc, a, b, c)
        })
}

/// What may be assumed of the values of the chunks of a list: of those at one address,
/// that they agree where they are held on the path.
pub open spec fn group_fact(
    g: Graph,
    pc: Seq<(Id, Polarity)>,
    cs: Seq<Chunk>,
    f: (Tm, Tm),
) -> bool {
    exists|a: Chunk, b: Chunk, n: nat|
        {
            &&& #[trigger] made_of(g, pc, cs, a, n)
            &&& cs.contains(b)
            &&& g.canon(a.addr) == g.canon(b.addr)
            &&& #[trigger] value_fact(g, pc, a, b, f)
        }
}

/// What may be assumed where the chunks of a list are made one at each address.
pub open spec fn group_facts(pc: Seq<(Id, Polarity)>, cs: Seq<Chunk>, k: u32) -> Set<
    (Graph, (Tm, Tm)),
> {
    Set::new(|e: (Graph, (Tm, Tm))| group_fact(e.0, pc, cs, e.1)) + fresh_facts(k)
}

/// A probe of the path in which a chunk is at the address of another.
pub open spec fn meets_on(
    g: Graph,
    pc: Seq<(Id, Polarity)>,
    a: Chunk,
    c: Chunk,
) -> bool {
    exists|mid: Context, p: Graph| #[trigger]
        probed(mid, pc, p) && stepped(mid.graph, g) && p.canon(a.addr) == p.canon(c.addr)
}

/// On the path, where a chunk is there and the literals of a cube hold, the chunk is at the address of another.
pub open spec fn cube_meets(
    g: Graph,
    pc: Seq<(Id, Polarity)>,
    cs: Seq<Chunk>,
    cube: Seq<(Id, Polarity)>,
    a: Chunk,
    c: Chunk,
) -> bool {
    g.full() || forall|m: Model| #[trigger]
        g.models(m) && cube_holds(m, pc) && guards_sorted(m, cs) && cube_on(m, a.guard@)
            && cube_holds(m, cube) ==> m.at(a.addr) == m.at(c.addr)
}

/// What may be assumed where a chunk is taken out of a list: that its value is that of
/// the chunk at its address, where that is, and what may be where the chunks are made
/// one first.
pub open spec fn taken_fact(
    g: Graph,
    pc: Seq<(Id, Polarity)>,
    cs: Seq<Chunk>,
    c: Chunk,
    f: (Tm, Tm),
) -> bool {
    exists|a: Chunk, n: nat| #[trigger]
        made_of(g, pc, cs, a, n) && {
            ||| f == same_fact(a.value, c.value) && g.canon(a.addr) == g.canon(c.addr)
            ||| f == equal_fact(pc, a.value, c.value) && meets_on(g, pc, a, c)
            ||| exists|cube: Seq<(Id, Polarity)>| #[trigger]
                cube_meets(g, pc, cs, cube, a, c) && f == equal_fact(cube, a.value, c.value)
        }
}

/// What may be assumed where a chunk is taken out of a list.
pub open spec fn take_facts(pc: Seq<(Id, Polarity)>, cs: Seq<Chunk>, c: Chunk, k: u32) -> Set<
    (Graph, (Tm, Tm)),
> {
    Set::new(|e: (Graph, (Tm, Tm))| taken_fact(e.0, pc, cs, c, e.1)) + group_facts(pc, cs, k)
}

/// Equations that may be assumed of a graph were.
pub open spec fn assumed(a: Context, b: Context, fs: Set<(Graph, (Tm, Tm))>) -> bool {
    exists|facts: Seq<(Tm, Tm)>| #[trigger]
        asserted(a.graph, b.graph, facts) && forall|i: int|
            0 <= i < facts.len() ==> fs.contains((a.graph, #[trigger] facts[i]))
}

/// One step of a heap operation: terms are added, consequences are drawn, a goal is
/// tried, or what may be assumed is assumed.
pub open spec fn heap_step(a: Context, b: Context, fs: Set<(Graph, (Tm, Tm))>) -> bool {
    &&& a.leads_to(b)
    &&& {
        ||| builds(a, b)
        ||| saturated(a, b)
        ||| reduced(a, b)
        ||| refolded(a, b)
        ||| exists|pc: Seq<(Id, Polarity)>, goal: Id, r: bool| #[trigger] tried(a, b, pc, goal, r)
        ||| assumed(a, b, fs)
    }
}

/// Contexts one step after the other.
pub open spec fn is_trail(t: Seq<Context>, fs: Set<(Graph, (Tm, Tm))>) -> bool {
    &&& t.len() > 0
    &&& forall|i: int| 0 <= i < t.len() - 1 ==> #[trigger] heap_step(t[i], t[i + 1], fs)
}

/// A later context, reached by steps of heap operations alone.
pub open spec fn reaches(a: Context, b: Context, fs: Set<(Graph, (Tm, Tm))>) -> bool {
    &&& a.leads_to(b)
    &&& exists|t: Seq<Context>| #[trigger] is_trail(t, fs) && t.first() == a && t.last() == b
}

/// A later context, reached with nothing assumed but what was shown.
pub open spec fn deduces(a: Context, b: Context) -> bool {
    &&& a.leads_to(b)
    &&& forall|fs: Set<(Graph, (Tm, Tm))>| #[trigger] reaches(a, b, fs)
}

pub proof fn lemma_reaches_refl(a: Context)
    requires
        a.wf(),
    ensures
        deduces(a, a),
{
    lemma_leads_refl(a);
    assert forall|fs: Set<(Graph, (Tm, Tm))>| #[trigger] reaches(a, a, fs) by {
        let t = seq![a];
        assert(is_trail(t, fs));
    }
}

pub proof fn lemma_reaches_step(a: Context, b: Context, fs: Set<(Graph, (Tm, Tm))>)
    requires
        heap_step(a, b, fs),
    ensures
        reaches(a, b, fs),
{
    let t = seq![a, b];
    assert forall|i: int| 0 <= i < t.len() - 1 implies #[trigger] heap_step(
        t[i],
        t[i + 1],
        fs,
    ) by {
        assert(t[0] == a && t[1] == b);
    }
    assert(is_trail(t, fs));
}

pub proof fn lemma_reaches_trans(a: Context, b: Context, c: Context)
    ensures
        a.leads_to(b) && b.leads_to(c) ==> a.leads_to(c),
        forall|fs: Set<(Graph, (Tm, Tm))>|
            #![trigger reaches(a, c, fs)]
            #![trigger reaches(a, b, fs), reaches(b, c, fs)]
            reaches(a, b, fs) && reaches(b, c, fs) ==> reaches(a, c, fs),
{
    if a.leads_to(b) && b.leads_to(c) {
        lemma_leads_trans(a, b, c);
    }
    assert forall|fs: Set<(Graph, (Tm, Tm))>|
        #![trigger reaches(a, c, fs)]
        #![trigger reaches(a, b, fs), reaches(b, c, fs)]
        reaches(a, b, fs) && reaches(b, c, fs) implies reaches(a, c, fs) by {
        lemma_trail(a, b, c, fs);
    }
}

proof fn lemma_trail(a: Context, b: Context, c: Context, fs: Set<(Graph, (Tm, Tm))>)
    requires
        reaches(a, b, fs),
        reaches(b, c, fs),
    ensures
        reaches(a, c, fs),
{
    lemma_leads_trans(a, b, c);
    let t = choose|t: Seq<Context>| #[trigger] is_trail(t, fs) && t.first() == a && t.last() == b;
    let u = choose|t: Seq<Context>| #[trigger] is_trail(t, fs) && t.first() == b && t.last() == c;
    let w = t + u.drop_first();
    let n = t.len() as int;
    assert forall|i: int| 0 <= i < w.len() - 1 implies #[trigger] heap_step(
        w[i],
        w[i + 1],
        fs,
    ) by {
        if i < n - 1 {
            assert(heap_step(t[i], t[i + 1], fs));
        } else {
            let k = i - (n - 1);
            assert(w[i] == u[k]);
            assert(w[i + 1] == u[k + 1]);
            assert(heap_step(u[k], u[k + 1], fs));
        }
    }
    assert(is_trail(w, fs));
    assert(w.last() == c);
}

/// More may be assumed.
pub proof fn lemma_reaches_more(
    a: Context,
    b: Context,
    fs: Set<(Graph, (Tm, Tm))>,
    gs: Set<(Graph, (Tm, Tm))>,
)
    requires
        reaches(a, b, fs),
        fs.subset_of(gs),
    ensures
        reaches(a, b, gs),
{
    let t = choose|t: Seq<Context>| #[trigger] is_trail(t, fs) && t.first() == a && t.last() == b;
    assert forall|i: int| 0 <= i < t.len() - 1 implies #[trigger] heap_step(
        t[i],
        t[i + 1],
        gs,
    ) by {
        assert(heap_step(t[i], t[i + 1], fs));
        if assumed(t[i], t[i + 1], fs) {
            let facts = choose|facts: Seq<(Tm, Tm)>| #[trigger]
                asserted(t[i].graph, t[i + 1].graph, facts) && forall|k: int|
                    0 <= k < facts.len() ==> fs.contains((t[i].graph, #[trigger] facts[k]));
            assert(asserted(t[i].graph, t[i + 1].graph, facts));
            assert(assumed(t[i], t[i + 1], gs));
        }
    }
    assert(is_trail(t, gs));
}

/// Of what may be assumed, that of graphs that a context grew to.
pub open spec fn since(a: Context, fs: Set<(Graph, (Tm, Tm))>) -> Set<(Graph, (Tm, Tm))> {
    Set::new(|e: (Graph, (Tm, Tm))| stepped(a.graph, e.0) && fs.contains(e))
}

/// What is assumed on the way is assumed of later graphs.
pub proof fn lemma_reaches_since(a: Context, b: Context, fs: Set<(Graph, (Tm, Tm))>)
    requires
        a.wf(),
        reaches(a, b, fs),
    ensures
        reaches(a, b, since(a, fs)),
{
    let t = choose|t: Seq<Context>| #[trigger] is_trail(t, fs) && t.first() == a && t.last() == b;
    let gs = since(a, fs);
    assert forall|i: int| 0 <= i < t.len() - 1 implies #[trigger] heap_step(
        t[i],
        t[i + 1],
        gs,
    ) by {
        assert(heap_step(t[i], t[i + 1], fs));
        lemma_trail_leads(t, fs, i);
        if assumed(t[i], t[i + 1], fs) {
            let facts = choose|facts: Seq<(Tm, Tm)>| #[trigger]
                asserted(t[i].graph, t[i + 1].graph, facts) && forall|k: int|
                    0 <= k < facts.len() ==> fs.contains((t[i].graph, #[trigger] facts[k]));
            assert(asserted(t[i].graph, t[i + 1].graph, facts));
            assert(assumed(t[i], t[i + 1], gs));
        }
    }
    assert(is_trail(t, gs));
}

proof fn lemma_trail_leads(t: Seq<Context>, fs: Set<(Graph, (Tm, Tm))>, i: int)
    requires
        t.len() > 0,
        t[0].wf(),
        is_trail(t, fs),
        0 <= i < t.len(),
    ensures
        t[0].leads_to(t[i]),
    decreases i,
{
    if i == 0 {
        lemma_leads_refl(t[0]);
    } else {
        lemma_trail_leads(t, fs, i - 1);
        assert(heap_step(t[i - 1], t[i - 1 + 1], fs));
        lemma_leads_trans(t[0], t[i - 1], t[i]);
    }
}

/// Terms were added, or consequences were drawn.
pub proof fn lemma_reaches_follows(a: Context, b: Context)
    requires
        builds(a, b) || saturated(a, b) || reduced(a, b) || refolded(a, b),
    ensures
        deduces(a, b),
{
    assert forall|fs: Set<(Graph, (Tm, Tm))>| #[trigger] reaches(a, b, fs) by {
        assert(heap_step(a, b, fs));
        lemma_reaches_step(a, b, fs);
    }
}

/// Terms were added.
pub proof fn lemma_reaches_extended(a: Context, b: Context)
    requires
        builds(a, b),
    ensures
        deduces(a, b),
{
    lemma_reaches_follows(a, b);
}

/// One fact that may be assumed was assumed.
pub proof fn lemma_reaches_asserted(
    a: Context,
    b: Context,
    f: (Tm, Tm),
    fs: Set<(Graph, (Tm, Tm))>,
)
    requires
        a.wf(),
        a.leads_to(b),
        asserted(a.graph, b.graph, seq![f]),
        fs.contains((a.graph, f)),
    ensures
        learns(a, b, seq![f]),
        reaches(a, b, fs),
{
    let facts = seq![f];
    lemma_learns_refl(a);
    lemma_learns_asserted(a, a, b, Seq::empty(), facts);
    assert(Seq::<(Tm, Tm)>::empty() + facts =~= facts);
    assert forall|i: int| 0 <= i < facts.len() implies fs.contains(
        (a.graph, #[trigger] facts[i]),
    ) by {}
    assert(assumed(a, b, fs));
    lemma_reaches_step(a, b, fs);
}

/// A goal was tried on a path.
pub proof fn lemma_reaches_proof(
    a: Context,
    b: Context,
    pc: Seq<(Id, Polarity)>,
    goal: Id,
    r: bool,
)
    requires
        tried(a, b, pc, goal, r),
    ensures
        deduces(a, b),
{
    assert forall|fs: Set<(Graph, (Tm, Tm))>| #[trigger] reaches(a, b, fs) by {
        assert(heap_step(a, b, fs));
        lemma_reaches_step(a, b, fs);
    }
}

/// A goal that means a term was shown after steps that assume certain facts alone.
pub open spec fn shown_after(
    c: Context,
    pc: Seq<(Id, Polarity)>,
    t: Tm,
    fs: Set<(Graph, (Tm, Tm))>,
) -> bool {
    exists|mid: Context| #[trigger] reaches(c, mid, fs) && shown_tm(mid, pc, t)
}

/// A goal that means a term was not shown after steps that assume certain facts alone.
pub open spec fn unshown_after(
    c: Context,
    d: Context,
    pc: Seq<(Id, Polarity)>,
    t: Tm,
    fs: Set<(Graph, (Tm, Tm))>,
) -> bool {
    exists|mid: Context| #[trigger] reaches(c, mid, fs) && unshown(mid, d, pc, t)
}

pub proof fn lemma_shown_before(
    a: Context,
    b: Context,
    pc: Seq<(Id, Polarity)>,
    t: Tm,
    fs: Set<(Graph, (Tm, Tm))>,
)
    requires
        reaches(a, b, fs),
        shown_after(b, pc, t, fs),
    ensures
        shown_after(a, pc, t, fs),
{
    let mid = choose|mid: Context| #[trigger] reaches(b, mid, fs) && shown_tm(mid, pc, t);
    lemma_reaches_trans(a, b, mid);
    assert(reaches(a, mid, fs));
}

pub proof fn lemma_unshown_before(
    a: Context,
    b: Context,
    d: Context,
    pc: Seq<(Id, Polarity)>,
    t: Tm,
    fs: Set<(Graph, (Tm, Tm))>,
)
    requires
        reaches(a, b, fs),
        unshown_after(b, d, pc, t, fs),
    ensures
        unshown_after(a, d, pc, t, fs),
{
    let mid = choose|mid: Context| #[trigger] reaches(b, mid, fs) && unshown(mid, d, pc, t);
    lemma_reaches_trans(a, b, mid);
    assert(reaches(a, mid, fs));
}

/// A chunk that chunks became stays so as the graph grows.
pub proof fn lemma_made_grows(
    g: Graph,
    h: Graph,
    pc: Seq<(Id, Polarity)>,
    cs: Seq<Chunk>,
    c: Chunk,
    n: nat,
)
    requires
        stepped(g, h),
        g.wf(),
        crate::heap::groups::chunks_in(g, cs),
        made_of(g, pc, cs, c, n),
    ensures
        g.has(c.addr),
        made_of(h, pc, cs, c, n),
    decreases n,
{
    if cs.contains(c) {
        let i = choose|i: int| 0 <= i < cs.len() && cs[i] == c;
        assert(crate::heap::chunk::chunk_in(g, cs[i]));
    } else {
        let (a, b) = choose|a: Chunk, b: Chunk|
            {
                &&& made_of(g, pc, cs, a, (n - 1) as nat)
                &&& cs.contains(b)
                &&& g.canon(a.addr) == g.canon(b.addr)
                &&& #[trigger] joins(g, pc, a, b, c)
            };
        lemma_made_grows(g, h, pc, cs, a, (n - 1) as nat);
        let i = choose|i: int| 0 <= i < cs.len() && cs[i] == b;
        assert(crate::heap::chunk::chunk_in(g, cs[i]));
        let one = choose|one: bool|
            #![trigger united_with(g, one, pc, a, b, c)]
            #![trigger merged_chunks(g, one, pc, a, b, c)]
            united_with(g, one, pc, a, b, c) || (c.addr == a.addr && merged_chunks(
                g,
                one,
                pc,
                a,
                b,
                c,
            ));
        if !h.full() {
            assert forall|m: Model| #[trigger] h.models(m) implies g.models(m) by {
                crate::terms::lemma_grows_models(g, h, m);
            }
        }
        if united_with(g, one, pc, a, b, c) {
            assert(united_with(h, one, pc, a, b, c));
        } else {
            assert(merged_chunks(h, one, pc, a, b, c));
        }
        assert(h.canon(a.addr) == h.canon(b.addr));
        assert(joins(h, pc, a, b, c));
    }
}

/// Taking a chunk off one that chunks became, at its address, may assume that their values
/// are one.
pub proof fn lemma_take_reaches(
    c0: Context,
    c1: Context,
    c2: Context,
    c3: Context,
    pc: Seq<(Id, Polarity)>,
    cs: Seq<Chunk>,
    x: Chunk,
    n: nat,
    c: Chunk,
)
    requires
        c0.leads_to(c1),
        c1.leads_to(c2),
        crate::heap::groups::chunks_in(c1.graph, cs),
        made_of(c1.graph, pc, cs, x, n),
        c1.graph.has(c.addr),
        c1.graph.canon(x.addr) == c1.graph.canon(c.addr),
        reaches(c2, c3, only(same_fact(x.value, c.value)) + fresh_facts(c2.next_fresh)),
    ensures
        reaches(c2, c3, take_facts(pc, cs, c, c0.next_fresh)),
{
    let small = only(same_fact(x.value, c.value)) + fresh_facts(c2.next_fresh);
    let big = take_facts(pc, cs, c, c0.next_fresh);
    lemma_reaches_since(c2, c3, small);
    let mid = since(c2, small);
    lemma_leads_trans(c0, c1, c2);
    lemma_fresh_more(c0.next_fresh, c2.next_fresh);
    assert forall|e: (Graph, (Tm, Tm))| mid.contains(e) implies big.contains(e) by {
        if e.1 == same_fact(x.value, c.value) {
            crate::rewrite::rules::lemma_stepped_trans(c1.graph, c2.graph, e.0);
            lemma_made_grows(c1.graph, e.0, pc, cs, x, n);
            assert(e.0.canon(x.addr) == e.0.canon(c.addr));
            assert(taken_fact(e.0, pc, cs, c, e.1));
        }
    }
    lemma_reaches_more(c2, c3, mid, big);
}

/// What was made one first may be assumed.
pub proof fn lemma_group_take(pc: Seq<(Id, Polarity)>, cs: Seq<Chunk>, c: Chunk, k: u32, n: u32)
    requires
        k <= n,
    ensures
        group_facts(pc, cs, n).subset_of(take_facts(pc, cs, c, k)),
        take_facts(pc, cs, c, n).subset_of(take_facts(pc, cs, c, k)),
{
    lemma_fresh_more(k, n);
}

/// Shares made later are among those made since.
pub proof fn lemma_fresh_more(k: u32, n: u32)
    requires
        k <= n,
    ensures
        fresh_facts(n).subset_of(fresh_facts(k)),
{
    assert forall|e: (Graph, (Tm, Tm))| fresh_facts(n).contains(e) implies fresh_facts(
        k,
    ).contains(e) by {
        assert(is_fresh_fact(e.0, n, e.1));
        let (s, i) = choose|s: Id, i: u32|
            n <= i && #[trigger] e.0.denotes(s, t_fresh(i)) && is_share_fact(s, e.1);
        assert(e.0.denotes(s, t_fresh(i)));
        assert(is_fresh_fact(e.0, k, e.1));
    }
}

impl Context {
    /// Proves a goal under a path condition, as a step of a heap operation.
    pub fn prove_on_path(&mut self, goal: Id, pc: &Vec<(Id, Polarity)>) -> (r: bool)
        requires
            old(self).wf(),
            old(self).graph.has(goal),
            crate::context::cube_in(old(self).graph, pc@),
        ensures
            deduces(*old(self), *final(self)),
            tried(*old(self), *final(self), pc@, goal, r),
            r ==> crate::method::resource::true_on(final(self).graph, pc@, goal),
            crate::prove::settled(old(self).graph, pc@, goal) && !final(self).graph.full() ==> r,
    {
        let ghost c0 = *self;
        let r = self.prove_under_pc(goal, pc);
        proof {
            lemma_reaches_proof(c0, *self, pc@, goal, r);
        }
        r
    }
}

} // verus!
