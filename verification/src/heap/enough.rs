//! Proving that there is enough permission.

use crate::context::{cube_holds, cube_in, lemma_cube_grows, lit_holds, Context};
use crate::graph::{lemma_term_value, Graph};
use crate::heap::facts::{
    lemma_reaches_extended, lemma_reaches_refl, lemma_reaches_trans, deduces,
};
use crate::heap::gate::copy_cube;
use crate::heap::perm::{
    collapsed, law_collapsed, lemma_collapsed_in, lemma_collapsed_sorted, lemma_perm_grows, met, perm_amt,
    perm_in, perm_sorted, ChunkPerm,
};
use crate::lang::{Id, OpV, Symbolic};
use crate::method::merge::amount;
use crate::model::{lemma_tm_bin, lemma_tm_lit, lemma_tm_not, t_ltr, t_not, t_real, Model, Tm};
use crate::nums::{Int, Rat};
use crate::prove::{left_open, shown, shown_tm, unshown};
use crate::terms::{lemma_grows_denotes, lemma_grows_models, lemma_known, Expr};
use crate::vmir::{BinOp, Bound, Literal, Polarity, Value};
use vstd::prelude::*;

verus! {

/// What is asked of an amount.
pub enum Ask {
    /// As much as a class.
    AtLeast(Id),
    /// More than nothing.
    Positive,
    /// As much as a bound.
    Full(Rat),
}

/// An amount is what is asked for.
pub open spec fn is_enough(m: Model, ask: Ask, x: real) -> bool {
    match ask {
        Ask::AtLeast(n) => x >= amount(m.at(n)),
        Ask::Positive => x > 0 as real,
        Ask::Full(b) => x >= b@,
    }
}

pub open spec fn ask_in(g: Graph, ask: Ask) -> bool {
    ask matches Ask::AtLeast(n) ==> g.has(n)
}

/// On the path an amount is what is asked for, in every model.
pub open spec fn answered(g: Graph, pc: Seq<(Id, Polarity)>, p: ChunkPerm, ask: Ask) -> bool {
    forall|m: Model| #[trigger]
        g.models(m) && cube_holds(m, pc) && perm_sorted(m, p) ==> is_enough(
            m,
            ask,
            perm_amt(m, p),
        )
}

/// A class and what is asked for are known, and the class is enough.
pub open spec fn known_enough(g: Graph, id: Id, ask: Ask) -> bool {
    match (g.known_value(id), ask) {
        (Some(Value::Real(h)), Ask::AtLeast(n)) => g.known_value(n) matches Some(Value::Real(q))
            && h >= q,
        (Some(Value::Real(h)), Ask::Positive) => h > 0 as real,
        (Some(Value::Real(h)), Ask::Full(b)) => h >= b@,
        _ => false,
    }
}

/// Whether a class and what is asked for are known, and the class is enough.
pub fn is_known_enough(g: &Graph, id: Id, ask: &Ask) -> (r: bool)
    requires
        g.wf(),
        g.has(id),
        ask_in(*g, *ask),
    ensures
        r == known_enough(*g, id, *ask),
{
    match g.known_real(id) {
        Some(h) => match ask {
            Ask::AtLeast(n) => match g.known_real(*n) {
                Some(q) => !h.less(&q),
                None => false,
            },
            Ask::Positive => Rat::from_int(&Int::from_i64(0)).less(&h),
            Ask::Full(b) => !h.less(b),
        },
        None => false,
    }
}

pub proof fn lemma_known_enough(g: Graph, m: Model, id: Id, ask: Ask)
    requires
        g.wf(),
        g.models(m),
        g.has(id),
        ask_in(g, ask),
        known_enough(g, id, ask),
    ensures
        is_enough(m, ask, amount(m.at(id))),
{
    lemma_known(g, m, id);
    if let Ask::AtLeast(n) = ask {
        lemma_known(g, m, n);
    }
}

/// That a class is what is asked for, as a term.
pub open spec fn ask_tm(id: Id, ask: Ask) -> Tm {
    match ask {
        Ask::AtLeast(n) => t_not(t_ltr(Tm::Class(id), Tm::Class(n))),
        Ask::Positive => t_ltr(t_real(0 as real), Tm::Class(id)),
        Ask::Full(b) => t_not(t_ltr(Tm::Class(id), t_real(b@))),
    }
}

fn ask_expr(id: Id, ask: &Ask) -> (r: Expr)
    ensures
        crate::terms::expr_tm(r) == ask_tm(id, *ask),
        forall|g: Graph| g.has(id) && ask_in(g, *ask) ==> #[trigger] crate::terms::expr_in(r, g),
{
    match ask {
        Ask::AtLeast(n) => Expr::negation(
            Expr::bin(BinOp::LtR, Expr::Class(id), Expr::Class(*n)),
        ),
        Ask::Positive => Expr::bin(BinOp::LtR, Expr::zero(), Expr::Class(id)),
        Ask::Full(b) => Expr::negation(
            Expr::bin(BinOp::LtR, Expr::Class(id), Expr::Lit(Literal::Real(b.clone()))),
        ),
    }
}

proof fn lemma_ask(g: Graph, m: Model, goal: Id, id: Id, ask: Ask)
    requires
        !g.full(),
        g.models(m),
        g.denotes(goal, ask_tm(id, ask)),
        m.is(goal, true),
    ensures
        is_enough(m, ask, amount(m.at(id))),
{
    lemma_tm_lit(m, Value::Real(0 as real));
    match ask {
        Ask::AtLeast(n) => {
            lemma_tm_bin(m, BinOp::LtR, Tm::Class(id), Tm::Class(n));
            lemma_tm_not(m, t_ltr(Tm::Class(id), Tm::Class(n)));
        },
        Ask::Positive => {
            lemma_tm_bin(m, BinOp::LtR, t_real(0 as real), Tm::Class(id));
        },
        Ask::Full(b) => {
            lemma_tm_lit(m, Value::Real(b@));
            lemma_tm_bin(m, BinOp::LtR, Tm::Class(id), t_real(b@));
            lemma_tm_not(m, t_ltr(Tm::Class(id), t_real(b@)));
        },
    }
}

/// What was asked of a class was not known, and was tried in vain; at most more was tried
/// since.
pub open spec fn unmet(
    a: Context,
    b: Context,
    pc: Seq<(Id, Polarity)>,
    id: Id,
    ask: Ask,
) -> bool {
    &&& !known_enough(a.graph, id, ask)
    &&& exists|d: Context| #[trigger] unshown(a, d, pc, ask_tm(id, ask)) && deduces(d, b)
}

/// What was asked of an amount was tried in vain for one of its leaves.
pub open spec fn unmet_perm(
    a: Context,
    b: Context,
    pc: Seq<(Id, Polarity)>,
    perm: ChunkPerm,
    ask: Ask,
) -> bool
    decreases perm,
{
    match perm {
        ChunkPerm::Leaf { id, .. } => unmet(a, b, pc, id, ask),
        ChunkPerm::Select { cond, on, off } => {
            ||| unmet_perm(a, b, pc.push((cond, Polarity::Positive)), *on, ask)
            ||| exists|mid: Context| #[trigger]
                deduces(a, mid) && unmet_perm(
                    mid,
                    b,
                    pc.push((cond, Polarity::Negative)),
                    *off,
                    ask,
                )
        },
    }
}

/// That one amount is at least another was tried in vain for one of the leaves of the
/// second, which is not known to ask for nothing.
pub open spec fn unmet_need(
    a: Context,
    b: Context,
    pc: Seq<(Id, Polarity)>,
    held: ChunkPerm,
    needed: ChunkPerm,
) -> bool
    decreases needed,
{
    match needed {
        ChunkPerm::Leaf { id: n, .. } => {
            &&& !(a.graph.known_value(n) matches Some(Value::Real(q)) && q <= 0 as real)
            &&& unmet_perm(a, b, pc, held, Ask::AtLeast(n))
        },
        ChunkPerm::Select { cond, on, off } => {
            ||| unmet_need(
                a,
                b,
                pc.push((cond, Polarity::Positive)),
                collapsed(a.graph, cond, held, true),
                *on,
            )
            ||| exists|mid: Context| #[trigger]
                deduces(a, mid) && unmet_need(
                    mid,
                    b,
                    pc.push((cond, Polarity::Negative)),
                    collapsed(a.graph, cond, held, false),
                    *off,
                )
        },
    }
}

/// Proves that a class is what is asked for.
pub fn prove_ask(ctx: &mut Context, id: Id, ask: &Ask, pc: &Vec<(Id, Polarity)>) -> (r: bool)
    requires
        old(ctx).wf(),
        old(ctx).graph.has(id),
        ask_in(old(ctx).graph, *ask),
        cube_in(old(ctx).graph, pc@),
    ensures
        deduces(*old(ctx), *final(ctx)),
        known_enough(old(ctx).graph, id, *ask) ==> r,
        r ==> known_enough(old(ctx).graph, id, *ask) || shown_tm(*old(ctx), pc@, ask_tm(id, *ask)),
        !r ==> unmet(*old(ctx), *final(ctx), pc@, id, *ask),
        r ==> answered(final(ctx).graph, pc@, ChunkPerm::Leaf { id, wild: false }, *ask),
{
    let ghost c0 = *ctx;
    if is_known_enough(&ctx.graph, id, ask) {
        proof {
            lemma_reaches_refl(c0);
            let leaf = ChunkPerm::Leaf { id, wild: false };
            assert forall|m: Model| #[trigger]
                c0.graph.models(m) && cube_holds(m, pc@) && perm_sorted(
                    m,
                    leaf,
                ) implies is_enough(m, *ask, perm_amt(m, leaf)) by {
                lemma_known_enough(c0.graph, m, id, *ask);
            }
        }
        return true;
    }
    let goal = ctx.build(&ask_expr(id, ask));
    let ghost c1 = *ctx;
    proof {
        lemma_cube_grows(c0.graph, c1.graph, pc@);
        lemma_reaches_extended(c0, c1);
    }
    let r = ctx.prove_on_path(goal, pc);
    proof {
        lemma_reaches_trans(c0, c1, *ctx);
        if !r {
            lemma_reaches_refl(*ctx);
            assert(left_open(c1, *ctx, pc@, goal));
            assert(unshown(c0, *ctx, pc@, ask_tm(id, *ask)));
        } else {
            assert(shown(c1, pc@, goal));
        }
        if r {
            let leaf = ChunkPerm::Leaf { id, wild: false };
            lemma_grows_denotes(c1.graph, ctx.graph, goal, ask_tm(id, *ask));
            assert forall|m: Model| #[trigger]
                ctx.graph.models(m) && cube_holds(m, pc@) && perm_sorted(
                    m,
                    leaf,
                ) implies is_enough(m, *ask, perm_amt(m, leaf)) by {
                assert(m.is(goal, true));
                lemma_ask(ctx.graph, m, goal, id, *ask);
            }
        }
    }
    r
}

/// The choices between known amounts that a class lists.
fn gates_of(g: &Graph, id: Id) -> (r: Vec<(Id, Id, Id)>)
    requires
        g.wf(),
        g.has(id),
    ensures
        r@ == gates(*g, g.terms(id)),
        forall|i: int|
            0 <= i < r@.len() ==> is_gate(*g, id, #[trigger] r@[i]),
{
    let ts = g.terms_of(id);
    let mut out: Vec<(Id, Id, Id)> = Vec::new();
    let mut i: usize = 0;
    let ghost all = g.terms(id);
    proof {
        assert(all.take(0) =~= Seq::empty());
    }
    while i < ts.len()
        invariant
            i <= ts@.len(),
            g.wf(),
            g.has(id),
            all == g.terms(id),
            ts@.len() == g.terms(id).len(),
            out@ == gates(*g, all.take(i as int)),
            forall|k: int| 0 <= k < ts@.len() ==> (#[trigger] ts@[k])@ == g.terms(id)[k],
            forall|k: int| 0 <= k < ts@.len() ==> g.has_all((#[trigger] ts@[k])@.args),
            forall|k: int| 0 <= k < out@.len() ==> is_gate(*g, id, #[trigger] out@[k]),
        decreases ts.len() - i,
    {
        proof {
            assert(all.take(i + 1).drop_last() =~= all.take(i as int));
            assert(ts@[i as int]@ == all[i as int]);
        }
        if let Symbolic::Ite(arms) = &ts[i] {
            let c = arms[0];
            let t = arms[1];
            let e = arms[2];
            proof {
                let n = g.terms(id)[i as int];
                assert(ts@[i as int]@ == n);
                assert(n.args =~= seq![c, t, e]);
                assert(g.has(n.args[0]) && g.has(n.args[1]) && g.has(n.args[2]));
            }
            if g.known_real(t).is_some() && g.known_real(e).is_some() {
                proof {
                    let n = g.terms(id)[i as int];
                    assert(g.terms(id).contains(n));
                    assert(is_gate(*g, id, (c, t, e)));
                }
                out.push((c, t, e));
            }
        }
        i += 1;
    }
    proof {
        assert(all.take(all.len() as int) =~= all);
    }
    out
}

/// A class is known to be a rational.
pub open spec fn is_known_real(g: Graph, id: Id) -> bool {
    g.known_value(id) matches Some(Value::Real(_))
}

/// The choices among terms whose arms are both known amounts, in order.
pub open spec fn gates(g: Graph, ts: Seq<crate::lang::Node>) -> Seq<(Id, Id, Id)>
    decreases ts.len(),
{
    if ts.len() == 0 {
        Seq::empty()
    } else {
        let front = gates(g, ts.drop_last());
        let n = ts.last();
        if n.op == OpV::Ite && is_known_real(g, n.args[1]) && is_known_real(g, n.args[2]) {
            front.push((n.args[0], n.args[1], n.args[2]))
        } else {
            front
        }
    }
}

/// A class lists a choice.
pub open spec fn is_gate(g: Graph, id: Id, arms: (Id, Id, Id)) -> bool {
    &&& g.has(arms.0)
    &&& g.has(arms.1)
    &&& g.has(arms.2)
    &&& g.terms(id).contains(
        crate::lang::Node { op: OpV::Ite, args: seq![arms.0, arms.1, arms.2] },
    )
}

proof fn lemma_gate(g: Graph, m: Model, id: Id, arms: (Id, Id, Id))
    requires
        g.wf(),
        g.models(m),
        g.has(id),
        is_gate(g, id, arms),
    ensures
        m.at(arms.0) is Bool,
        m.at(id) == (if met(m, arms.0) {
            m.at(arms.1)
        } else {
            m.at(arms.2)
        }),
{
    let n = crate::lang::Node { op: OpV::Ite, args: seq![arms.0, arms.1, arms.2] };
    let k = choose|k: int| 0 <= k < g.terms(id).len() && g.terms(id)[k] == n;
    lemma_term_value(g, m, id, k);
    assert(m.all(n.args) =~= seq![m.at(arms.0), m.at(arms.1), m.at(arms.2)]);
}

pub proof fn lemma_cube_holds_push(m: Model, cube: Seq<(Id, Polarity)>, lit: (Id, Polarity))
    requires
        cube_holds(m, cube),
        lit_holds(m, lit),
    ensures
        cube_holds(m, cube.push(lit)),
{
    let all = cube.push(lit);
    assert forall|i: int| 0 <= i < all.len() implies lit_holds(m, #[trigger] all[i]) by {
        if i < cube.len() {
            assert(lit_holds(m, cube[i]));
        }
    }
}

fn listed(seen: &Vec<Id>, id: Id) -> (r: bool)
    ensures
        r == seen@.contains(id),
{
    let mut i: usize = 0;
    while i < seen.len()
        invariant
            i <= seen@.len(),
            forall|k: int| 0 <= k < i ==> #[trigger] seen@[k] != id,
        decreases seen.len() - i,
    {
        if seen[i] == id {
            proof {
                assert(seen@[i as int] == id);
            }
            return true;
        }
        i += 1;
    }
    false
}

pub fn with_lit(pc: &Vec<(Id, Polarity)>, lit: (Id, Polarity)) -> (r: Vec<(Id, Polarity)>)
    ensures
        r@ == pc@.push(lit),
        forall|g: Graph| cube_in(g, pc@) && g.has(lit.0) ==> #[trigger] cube_in(g, r@),
{
    let mut out = copy_cube(pc);
    out.push(lit);
    proof {
        assert forall|g: Graph| cube_in(g, pc@) && g.has(lit.0) implies #[trigger] cube_in(
            g,
            out@,
        ) by {
            assert forall|i: int| 0 <= i < out@.len() implies g.has((#[trigger] out@[i]).0) by {
                if i < pc@.len() {
                    assert(g.has(pc@[i].0));
                }
            }
        }
    }
    out
}

proof fn lemma_unmet_later(
    a: Context,
    b: Context,
    c: Context,
    pc: Seq<(Id, Polarity)>,
    id: Id,
    ask: Ask,
)
    requires
        unmet(a, b, pc, id, ask),
        deduces(b, c),
    ensures
        unmet(a, c, pc, id, ask),
{
    let d = choose|d: Context| #[trigger] unshown(a, d, pc, ask_tm(id, ask)) && deduces(d, b);
    lemma_reaches_trans(d, b, c);
    assert(deduces(d, c));
}

/// Whether a class is at least another on a path. A class that is a choice between
/// known amounts is split into its arms, where no class is split twice.
pub fn sufficient_leaf(
    ctx: &mut Context,
    h: Id,
    needed: Id,
    pc: &Vec<(Id, Polarity)>,
    seen: &mut Vec<Id>,
    fuel: u64,
) -> (r: bool)
    requires
        old(ctx).wf(),
        old(ctx).graph.has(h),
        old(ctx).graph.has(needed),
        cube_in(old(ctx).graph, pc@),
    ensures
        deduces(*old(ctx), *final(ctx)),
        final(seen)@ == old(seen)@,
        known_enough(old(ctx).graph, h, Ask::AtLeast(needed)) ==> r,
        !r ==> unmet(*old(ctx), *final(ctx), pc@, h, Ask::AtLeast(needed)),
        r ==> answered(
            final(ctx).graph,
            pc@,
            ChunkPerm::Leaf { id: h, wild: false },
            Ask::AtLeast(needed),
        ),
    decreases fuel,
{
    let ghost c0 = *ctx;
    let ask = Ask::AtLeast(needed);
    let ghost leaf = ChunkPerm::Leaf { id: h, wild: false };
    if prove_ask(ctx, h, &ask, pc) {
        return true;
    }
    let cls = ctx.graph.find(h);
    if fuel == 0 || listed(seen, cls) {
        return false;
    }
    let ghost c1 = *ctx;
    let gates = gates_of(&ctx.graph, h);
    let ghost before = seen@;
    seen.push(cls);
    let mut proved = false;
    let mut i: usize = 0;
    proof {
        lemma_reaches_refl(c1);
    }
    while i < gates.len() && !proved
        invariant
            i <= gates@.len(),
            fuel > 0,
            ask == Ask::AtLeast(needed),
            leaf == (ChunkPerm::Leaf { id: h, wild: false }),
            c1.wf(),
            ctx.wf(),
            deduces(c1, *ctx),
            c1.graph.has(h),
            c1.graph.has(needed),
            cube_in(c1.graph, pc@),
            forall|k: int| 0 <= k < gates@.len() ==> is_gate(c1.graph, h, #[trigger] gates@[k]),
            seen@ == before.push(cls),
            proved ==> answered(ctx.graph, pc@, leaf, ask),
        decreases gates.len() - i,
    {
        let ghost c2 = *ctx;
        let (c, t, e) = gates[i];
        proof {
            assert(is_gate(c1.graph, h, gates@[i as int]));
            lemma_cube_grows(c1.graph, c2.graph, pc@);
        }
        let yes = with_lit(pc, (c, Polarity::Positive));
        let no = with_lit(pc, (c, Polarity::Negative));
        proof {
            assert(cube_in(c2.graph, yes@));
        }
        let first = sufficient_leaf(ctx, t, needed, &yes, seen, fuel - 1);
        let ghost c3 = *ctx;
        proof {
            lemma_reaches_trans(c1, c2, c3);
        }
        if first {
            proof {
                lemma_cube_grows(c1.graph, c3.graph, pc@);
                assert(cube_in(c3.graph, no@));
            }
            proved = sufficient_leaf(ctx, e, needed, &no, seen, fuel - 1);
            proof {
                lemma_reaches_trans(c1, c3, *ctx);
                let g = ctx.graph;
                if proved {
                    let on = ChunkPerm::Leaf { id: t, wild: false };
                    let off = ChunkPerm::Leaf { id: e, wild: false };
                    assert forall|m: Model| #[trigger]
                        g.models(m) && cube_holds(m, pc@) && perm_sorted(
                            m,
                            leaf,
                        ) implies is_enough(m, ask, perm_amt(m, leaf)) by {
                        lemma_grows_models(c1.graph, g, m);
                        lemma_grows_models(c3.graph, g, m);
                        lemma_gate(c1.graph, m, h, (c, t, e));
                        if met(m, c) {
                            lemma_cube_holds_push(m, pc@, (c, Polarity::Positive));
                            assert(perm_sorted(m, on));
                            assert(is_enough(m, ask, perm_amt(m, on)));
                        } else {
                            lemma_cube_holds_push(m, pc@, (c, Polarity::Negative));
                            assert(perm_sorted(m, off));
                            assert(is_enough(m, ask, perm_amt(m, off)));
                        }
                    }
                }
            }
        }
        i += 1;
    }
    let _ = seen.pop();
    proof {
        assert(seen@ =~= before);
        lemma_reaches_trans(c0, c1, *ctx);
        lemma_unmet_later(c0, c1, *ctx, pc@, h, ask);
    }
    proved
}

/// The fuel for splitting a class: more than there are classes.
fn split_fuel(g: &Graph) -> (r: u64)
    requires
        g.wf(),
    ensures
        r == g.len() + 1,
{
    proof {
        crate::graph::lemma_len_bound(*g);
    }
    let n: u64 = g.size() as u64;
    n + 1
}

/// Proves, leaf by leaf, that an amount is what is asked for. The condition of a
/// choice is put onto the path of its arms.
pub fn prove_perm_leaves(ctx: &mut Context, perm: &ChunkPerm, pc: &Vec<(Id, Polarity)>, ask: &Ask) -> (r:
    bool)
    requires
        old(ctx).wf(),
        perm_in(old(ctx).graph, *perm),
        ask_in(old(ctx).graph, *ask),
        cube_in(old(ctx).graph, pc@),
    ensures
        deduces(*old(ctx), *final(ctx)),
        *perm matches ChunkPerm::Leaf { id, .. } ==> (known_enough(old(ctx).graph, id, *ask) ==> r),
        !r ==> unmet_perm(*old(ctx), *final(ctx), pc@, *perm, *ask),
        r ==> answered(final(ctx).graph, pc@, *perm, *ask),
    decreases perm,
{
    let ghost c0 = *ctx;
    match perm {
        ChunkPerm::Leaf { id, .. } => {
            let r = match ask {
                Ask::AtLeast(n) => {
                    let mut seen: Vec<Id> = Vec::new();
                    let fuel = split_fuel(&ctx.graph);
                    sufficient_leaf(ctx, *id, *n, pc, &mut seen, fuel)
                },
                _ => prove_ask(ctx, *id, ask, pc),
            };
            proof {
                if r {
                    let leaf = ChunkPerm::Leaf { id: *id, wild: false };
                    assert forall|m: Model| #[trigger]
                        ctx.graph.models(m) && cube_holds(m, pc@) && perm_sorted(
                            m,
                            *perm,
                        ) implies is_enough(m, *ask, perm_amt(m, *perm)) by {
                        assert(perm_sorted(m, leaf));
                        assert(is_enough(m, *ask, perm_amt(m, leaf)));
                    }
                }
            }
            r
        },
        ChunkPerm::Select { cond, on, off } => {
            let yes = with_lit(pc, (*cond, Polarity::Positive));
            proof {
                assert(cube_in(c0.graph, yes@));
            }
            let first = prove_perm_leaves(ctx, &**on, &yes, ask);
            let ghost c1 = *ctx;
            if !first {
                return false;
            }
            let no = with_lit(pc, (*cond, Polarity::Negative));
            proof {
                lemma_cube_grows(c0.graph, c1.graph, pc@);
                assert(cube_in(c1.graph, no@));
                lemma_perm_grows(c0.graph, c1.graph, **off);
            }
            let r = prove_perm_leaves(ctx, &**off, &no, ask);
            proof {
                lemma_reaches_trans(c0, c1, *ctx);
                assert(deduces(c0, c1));
                let g = ctx.graph;
                if r {
                    assert forall|m: Model| #[trigger]
                        g.models(m) && cube_holds(m, pc@) && perm_sorted(
                            m,
                            *perm,
                        ) implies is_enough(m, *ask, perm_amt(m, *perm)) by {
                        lemma_grows_models(c1.graph, g, m);
                        if met(m, *cond) {
                            lemma_cube_holds_push(m, pc@, (*cond, Polarity::Positive));
                        } else {
                            lemma_cube_holds_push(m, pc@, (*cond, Polarity::Negative));
                        }
                    }
                }
            }
            r
        },
    }
}

/// Proves that an amount is at least a class, leaf by leaf.
pub fn prove_sufficient(ctx: &mut Context, held: &ChunkPerm, needed: Id, pc: &Vec<(Id, Polarity)>) -> (r:
    bool)
    requires
        old(ctx).wf(),
        perm_in(old(ctx).graph, *held),
        old(ctx).graph.has(needed),
        cube_in(old(ctx).graph, pc@),
    ensures
        deduces(*old(ctx), *final(ctx)),
        *held matches ChunkPerm::Leaf { id, .. } ==> (known_enough(
            old(ctx).graph,
            id,
            Ask::AtLeast(needed),
        ) ==> r),
        !r ==> unmet_perm(*old(ctx), *final(ctx), pc@, *held, Ask::AtLeast(needed)),
        r ==> answered(final(ctx).graph, pc@, *held, Ask::AtLeast(needed)),
{
    prove_perm_leaves(ctx, held, pc, &Ask::AtLeast(needed))
}

/// Proves that an amount is positive, leaf by leaf.
pub fn prove_perm_positive(ctx: &mut Context, held: &ChunkPerm, pc: &Vec<(Id, Polarity)>) -> (r: bool)
    requires
        old(ctx).wf(),
        perm_in(old(ctx).graph, *held),
        cube_in(old(ctx).graph, pc@),
    ensures
        deduces(*old(ctx), *final(ctx)),
        *held matches ChunkPerm::Leaf { id, .. } ==> (known_enough(
            old(ctx).graph,
            id,
            Ask::Positive,
        ) ==> r),
        !r ==> unmet_perm(*old(ctx), *final(ctx), pc@, *held, Ask::Positive),
        r ==> answered(final(ctx).graph, pc@, *held, Ask::Positive),
{
    prove_perm_leaves(ctx, held, pc, &Ask::Positive)
}

/// Proves that an amount is all that a location can carry. A location without a bound
/// has no such amount.
pub fn prove_perm_write(
    ctx: &mut Context,
    held: &ChunkPerm,
    bound: &Bound,
    pc: &Vec<(Id, Polarity)>,
) -> (r: bool)
    requires
        old(ctx).wf(),
        perm_in(old(ctx).graph, *held),
        cube_in(old(ctx).graph, pc@),
    ensures
        deduces(*old(ctx), *final(ctx)),
        *bound is Unbounded ==> !r,
        *bound matches Bound::Bounded(b) ==> {
            &&& !r ==> exists|q: Rat|
                q@ == b@ && #[trigger] unmet_perm(
                    *old(ctx),
                    *final(ctx),
                    pc@,
                    *held,
                    Ask::Full(q),
                )
            &&& r ==> answered(final(ctx).graph, pc@, *held, Ask::Full(b))
            &&& *held matches ChunkPerm::Leaf { id, .. } ==> (known_enough(
                old(ctx).graph,
                id,
                Ask::Full(b),
            ) ==> r)
        },
{
    match bound {
        Bound::Unbounded => {
            proof {
                lemma_reaches_refl(*ctx);
            }
            false
        },
        Bound::Bounded(b) => {
            let ask = Ask::Full(b.clone());
            let ghost c0 = *ctx;
            let r = prove_perm_leaves(ctx, held, pc, &ask);
            proof {
                if !r {
                    if let Ask::Full(q) = ask {
                        assert(unmet_perm(c0, *ctx, pc@, *held, Ask::Full(q)));
                    }
                }
                if r {
                    assert forall|m: Model| #[trigger]
                        ctx.graph.models(m) && cube_holds(m, pc@) && perm_sorted(
                            m,
                            *held,
                        ) implies is_enough(m, Ask::Full(*b), perm_amt(m, *held)) by {
                        assert(is_enough(m, ask, perm_amt(m, *held)));
                    }
                }
            }
            r
        },
    }
}

/// On the path one amount is at least another, or nothing is asked for, in every
/// model.
pub open spec fn covers_need(
    g: Graph,
    pc: Seq<(Id, Polarity)>,
    held: ChunkPerm,
    needed: ChunkPerm,
) -> bool {
    forall|m: Model| #[trigger]
        g.models(m) && cube_holds(m, pc) && perm_sorted(m, held) && perm_sorted(m, needed)
            ==> perm_amt(m, held) >= perm_amt(m, needed) || perm_amt(m, needed) <= 0 as real
}

/// Proves that one amount is at least another, leaf by leaf of both. A leaf of the
/// second that is known to ask for nothing is not looked at further.
pub fn prove_sufficient_aligned(
    ctx: &mut Context,
    held: &ChunkPerm,
    needed: &ChunkPerm,
    pc: &Vec<(Id, Polarity)>,
) -> (r: bool)
    requires
        old(ctx).wf(),
        perm_in(old(ctx).graph, *held),
        perm_in(old(ctx).graph, *needed),
        cube_in(old(ctx).graph, pc@),
    ensures
        deduces(*old(ctx), *final(ctx)),
        *held matches ChunkPerm::Leaf { id, .. } ==> (*needed matches ChunkPerm::Leaf { id: n, .. }
            ==> (known_enough(old(ctx).graph, id, Ask::AtLeast(n)) ==> r)),
        !r ==> unmet_need(*old(ctx), *final(ctx), pc@, *held, *needed),
        r ==> covers_need(final(ctx).graph, pc@, *held, *needed),
    decreases needed,
{
    let ghost c0 = *ctx;
    match needed {
        ChunkPerm::Leaf { id: n, .. } => {
            if let Some(q) = ctx.graph.known_real(*n) {
                let zero = Rat::from_int(&Int::from_i64(0));
                if !zero.less(&q) {
                    proof {
                        lemma_reaches_refl(c0);
                        assert forall|m: Model| #[trigger]
                            c0.graph.models(m) && cube_holds(m, pc@) && perm_sorted(m, *held)
                                && perm_sorted(m, *needed) implies perm_amt(m, *held) >= perm_amt(
                            m,
                            *needed,
                        ) || perm_amt(m, *needed) <= 0 as real by {
                            lemma_known(c0.graph, m, *n);
                        }
                    }
                    return true;
                }
            }
            let r = prove_sufficient(ctx, held, *n, pc);
            proof {
                if r {
                    assert forall|m: Model| #[trigger]
                        ctx.graph.models(m) && cube_holds(m, pc@) && perm_sorted(m, *held)
                            && perm_sorted(m, *needed) implies perm_amt(m, *held) >= perm_amt(
                        m,
                        *needed,
                    ) || perm_amt(m, *needed) <= 0 as real by {
                        assert(is_enough(m, Ask::AtLeast(*n), perm_amt(m, *held)));
                    }
                }
            }
            r
        },
        ChunkPerm::Select { cond, on, off } => {
            proof {
                lemma_collapsed_in(c0.graph, *cond, *held, true);
                lemma_collapsed_in(c0.graph, *cond, *held, false);
            }
            let ht = ChunkPerm::restrict(&ctx.graph, *cond, held, true);
            let he = ChunkPerm::restrict(&ctx.graph, *cond, held, false);
            let yes = with_lit(pc, (*cond, Polarity::Positive));
            proof {
                assert(cube_in(c0.graph, yes@));
            }
            let first = prove_sufficient_aligned(ctx, &ht, &**on, &yes);
            let ghost c1 = *ctx;
            if !first {
                return false;
            }
            let no = with_lit(pc, (*cond, Polarity::Negative));
            proof {
                lemma_cube_grows(c0.graph, c1.graph, pc@);
                assert(cube_in(c1.graph, no@));
                lemma_perm_grows(c0.graph, c1.graph, **off);
                lemma_perm_grows(c0.graph, c1.graph, he);
            }
            let r = prove_sufficient_aligned(ctx, &he, &**off, &no);
            proof {
                lemma_reaches_trans(c0, c1, *ctx);
                assert(deduces(c0, c1));
                let g = ctx.graph;
                if r {
                    assert forall|m: Model| #[trigger]
                        g.models(m) && cube_holds(m, pc@) && perm_sorted(m, *held) && perm_sorted(
                            m,
                            *needed,
                        ) implies perm_amt(m, *held) >= perm_amt(m, *needed) || perm_amt(
                        m,
                        *needed,
                    ) <= 0 as real by {
                        lemma_grows_models(c0.graph, g, m);
                        lemma_grows_models(c1.graph, g, m);
                        if met(m, *cond) {
                            lemma_cube_holds_push(m, pc@, (*cond, Polarity::Positive));
                            law_collapsed(c0.graph, m, *cond, *held, true);
                            lemma_collapsed_sorted(c0.graph, m, *cond, *held, true);
                        } else {
                            lemma_cube_holds_push(m, pc@, (*cond, Polarity::Negative));
                            law_collapsed(c0.graph, m, *cond, *held, false);
                            lemma_collapsed_sorted(c0.graph, m, *cond, *held, false);
                        }
                    }
                }
            }
            r
        },
    }
}

} // verus!
