//! Amounts and facts that hold under conditions alone.

use crate::context::{builds, cube_holds, cube_in, lemma_leads_refl, lemma_leads_trans, lit_holds, Context};
use crate::graph::Graph;
use crate::heap::perm::{
    law_selected, leaves_of, lemma_perm_grows, lemma_selected_in, met, perm_amt, perm_in, wild_in,
    ChunkPerm,
};
use crate::lang::Id;
use crate::method::merge::amount;
use crate::model::{lemma_tm_ite, lemma_tm_lit, t_bool, t_ite, t_real, tm_value, Model, Tm};
use crate::terms::{
    expr_in, expr_tm, lemma_grows_models, Expr,
};
use crate::vmir::{Polarity, Value};
use vstd::prelude::*;

verus! {

broadcast use crate::context::lemma_builds_trans;

/// A literal of a guard is met: its condition is, or is not.
pub open spec fn lit_on(m: Model, lit: (Id, Polarity)) -> bool {
    met(m, lit.0) == (lit.1 == Polarity::Positive)
}

/// Every literal of a guard is met.
pub open spec fn cube_on(m: Model, cube: Seq<(Id, Polarity)>) -> bool {
    forall|i: int| 0 <= i < cube.len() ==> lit_on(m, #[trigger] cube[i])
}

pub proof fn lemma_cube_on_push(m: Model, cube: Seq<(Id, Polarity)>, lit: (Id, Polarity))
    ensures
        cube_on(m, cube.push(lit)) == (cube_on(m, cube) && lit_on(m, lit)),
{
    let all = cube.push(lit);
    if cube_on(m, all) {
        assert forall|i: int| 0 <= i < cube.len() implies lit_on(m, #[trigger] cube[i]) by {
            assert(lit_on(m, all[i]));
        }
        assert(lit_on(m, all[cube.len() as int]));
    }
    if cube_on(m, cube) && lit_on(m, lit) {
        assert forall|i: int| 0 <= i < all.len() implies lit_on(m, #[trigger] all[i]) by {
            if i < cube.len() {
                assert(lit_on(m, cube[i]));
            }
        }
    }
}

/// In every model, an amount is another where a guard is met, and zero elsewhere.
pub open spec fn gated(g: Graph, r: ChunkPerm, p: ChunkPerm, guard: Seq<(Id, Polarity)>) -> bool {
    g.full() || forall|m: Model| #[trigger]
        g.models(m) ==> perm_amt(m, r) == (if cube_on(m, guard) {
            perm_amt(m, p)
        } else {
            0 as real
        })
}

/// The class of the permission zero.
pub fn zero_real(ctx: &mut Context) -> (r: Id)
    requires
        old(ctx).wf(),
    ensures
        old(ctx).leads_to(*final(ctx)),
        builds(*old(ctx), *final(ctx)),
        final(ctx).graph.has(r),
        final(ctx).graph.denotes(r, t_real(0 as real)),
{
    ctx.build(&Expr::zero())
}

proof fn lemma_zero(g: Graph, m: Model, z: Id)
    requires
        !g.full(),
        g.models(m),
        g.denotes(z, t_real(0 as real)),
    ensures
        amount(m.at(z)) == 0 as real,
{
    lemma_tm_lit(m, Value::Real(0 as real));
}

/// An amount that is there where a guard is met. Without a guard it is the amount
/// itself.
pub fn gate_perm_by_guard(ctx: &mut Context, perm: &ChunkPerm, guard: &Vec<(Id, Polarity)>) -> (r:
    ChunkPerm)
    requires
        old(ctx).wf(),
        perm_in(old(ctx).graph, *perm),
        cube_in(old(ctx).graph, guard@),
    ensures
        old(ctx).leads_to(*final(ctx)),
        builds(*old(ctx), *final(ctx)),
        perm_in(final(ctx).graph, r),
        gated(final(ctx).graph, r, *perm, guard@),
        guard@.len() == 0 ==> r == *perm && *final(ctx) == *old(ctx),
        wild_in(r) ==> wild_in(*perm),
{
    let ghost c0 = *ctx;
    let mut acc = perm.copy();
    let mut i: usize = 0;
    proof {
        lemma_leads_refl(c0);
    }
    while i < guard.len()
        invariant
            i <= guard@.len(),
            ctx.wf(),
            c0.leads_to(*ctx),
            builds(c0, *ctx),
            cube_in(c0.graph, guard@),
            perm_in(c0.graph, *perm),
            perm_in(ctx.graph, acc),
            gated(ctx.graph, acc, *perm, guard@.take(i as int)),
            i == 0 ==> acc == *perm && *ctx == c0,
            wild_in(acc) ==> wild_in(*perm),
        decreases guard.len() - i,
    {
        let ghost c1 = *ctx;
        let ghost had = acc;
        let (id, pol) = guard[i];
        proof {
            assert(c0.graph.has(guard@[i as int].0));
        }
        let zero = zero_real(ctx);
        let ghost c2 = *ctx;
        let none = ChunkPerm::leaf(zero);
        proof {
            lemma_leads_trans(c0, c1, c2);
            lemma_perm_grows(c1.graph, c2.graph, acc);
            lemma_selected_in(c2.graph, id, acc, none);
            lemma_selected_in(c2.graph, id, none, acc);
        }
        acc =
        match pol {
            Polarity::Positive => ChunkPerm::select(ctx, id, &acc, &none),
            Polarity::Negative => ChunkPerm::select(ctx, id, &none, &acc),
        };
        proof {
            lemma_leads_trans(c0, c2, *ctx);
            let g = ctx.graph;
            let front = guard@.take(i as int);
            assert(guard@.take(i + 1) =~= front.push(guard@[i as int]));
            if !g.full() {
                assert forall|m: Model| #[trigger] g.models(m) implies perm_amt(m, acc) == (
                if cube_on(m, guard@.take(i + 1)) {
                    perm_amt(m, *perm)
                } else {
                    0 as real
                }) by {
                    lemma_grows_models(c1.graph, g, m);
                    lemma_cube_on_push(m, front, guard@[i as int]);
                    lemma_zero(g, m, zero);
                    match pol {
                        Polarity::Positive => law_selected(g, m, id, had, none),
                        Polarity::Negative => law_selected(g, m, id, none, had),
                    }
                }
            }
        }
        i += 1;
    }
    proof {
        assert(guard@.take(guard@.len() as int) =~= guard@);
        if guard@.len() == 0 {
            let g = ctx.graph;
            assert forall|m: Model| #[trigger] g.models(m) implies perm_amt(m, acc) == (
            if cube_on(m, guard@) {
                perm_amt(m, *perm)
            } else {
                0 as real
            }) by {}
        }
    }
    acc
}

/// A term under literals, the last of them outermost, and another elsewhere.
pub open spec fn gate_tm(cube: Seq<(Id, Polarity)>, t: Tm, none: Tm) -> Tm
    decreases cube.len(),
{
    if cube.len() == 0 {
        t
    } else {
        let inner = gate_tm(cube.drop_last(), t, none);
        let c = Tm::Class(cube.last().0);
        match cube.last().1 {
            Polarity::Positive => t_ite(c, inner, none),
            Polarity::Negative => t_ite(c, none, inner),
        }
    }
}

/// Where the gated term has a value, it is the value of the term under the literals
/// and that of the other elsewhere.
pub proof fn lemma_gate_tm(m: Model, cube: Seq<(Id, Polarity)>, t: Tm, none: Tm)
    ensures
        tm_value(m, gate_tm(cube, t, none)) matches Some(v) ==> tm_value(m, t) is Some
            && if cube_holds(m, cube) {
            tm_value(m, t) == Some(v)
        } else {
            tm_value(m, none) == Some(v)
        },
    decreases cube.len(),
{
    if cube.len() > 0 {
        let front = cube.drop_last();
        let inner = gate_tm(front, t, none);
        let c = Tm::Class(cube.last().0);
        lemma_gate_tm(m, front, t, none);
        lemma_tm_ite(m, c, inner, none);
        lemma_tm_ite(m, c, none, inner);
        assert(front.push(cube.last()) =~= cube);
        if cube_holds(m, cube) {
            assert forall|i: int| 0 <= i < front.len() implies lit_holds(m, #[trigger] front[i]) by {
                assert(lit_holds(m, cube[i]));
            }
            assert(lit_holds(m, cube[cube.len() - 1]));
        } else if cube_holds(m, front) {
            if lit_holds(m, cube.last()) {
                assert forall|i: int| 0 <= i < cube.len() implies lit_holds(
                    m,
                    #[trigger] cube[i],
                ) by {
                    if i < front.len() {
                        assert(lit_holds(m, front[i]));
                    }
                }
            }
        }
    }
}

/// What stands where the literals fail: zero, or false.
pub open spec fn none_tm(amount: bool) -> Tm {
    if amount {
        t_real(0 as real)
    } else {
        t_bool(false)
    }
}

/// The expression of a term under literals, the last of them outermost.
pub fn gate_expr(cube: &Vec<(Id, Polarity)>, inner: Expr, amount: bool) -> (r: Expr)
    ensures
        expr_tm(r) == gate_tm(cube@, expr_tm(inner), none_tm(amount)),
        forall|g: Graph| expr_in(inner, g) && cube_in(g, cube@) ==> #[trigger] expr_in(r, g),
{
    let ghost e0 = inner;
    let ghost t = expr_tm(inner);
    let mut r = inner;
    let mut i: usize = 0;
    proof {
        assert(cube@.take(0) =~= Seq::empty());
    }
    while i < cube.len()
        invariant
            i <= cube@.len(),
            expr_tm(r) == gate_tm(cube@.take(i as int), t, none_tm(amount)),
            forall|g: Graph| expr_in(e0, g) && cube_in(g, cube@) ==> #[trigger] expr_in(r, g),
        decreases cube.len() - i,
    {
        let ghost before = r;
        let (id, pol) = cube[i];
        let none = if amount {
            Expr::zero()
        } else {
            Expr::boolean(false)
        };
        proof {
            assert(cube@.take(i + 1).drop_last() =~= cube@.take(i as int));
        }
        r =
        match pol {
            Polarity::Positive => Expr::ite(Expr::Class(id), r, none),
            Polarity::Negative => Expr::ite(Expr::Class(id), none, r),
        };
        proof {
            assert forall|g: Graph| expr_in(e0, g) && cube_in(g, cube@) implies #[trigger] expr_in(
                r,
                g,
            ) by {
                assert(g.has(cube@[i as int].0));
                assert(expr_in(before, g));
            }
        }
        i += 1;
    }
    proof {
        assert(cube@.take(cube@.len() as int) =~= cube@);
    }
    r
}

/// An amount under the literals of a path, and zero elsewhere.
pub fn gate_amount_by_pc(ctx: &mut Context, id: Id, pc: &Vec<(Id, Polarity)>) -> (r: Id)
    requires
        old(ctx).wf(),
        old(ctx).graph.has(id),
        cube_in(old(ctx).graph, pc@),
    ensures
        old(ctx).leads_to(*final(ctx)),
        builds(*old(ctx), *final(ctx)),
        final(ctx).graph.has(r),
        final(ctx).graph.denotes(r, gate_tm(pc@, Tm::Class(id), t_real(0 as real))),
{
    ctx.build(&gate_expr(pc, Expr::Class(id), true))
}

/// A fact under the literals of a cube, and false elsewhere.
pub fn gate_bool_by_cube(ctx: &mut Context, fact: Id, cube: &Vec<(Id, Polarity)>) -> (r: Id)
    requires
        old(ctx).wf(),
        old(ctx).graph.has(fact),
        cube_in(old(ctx).graph, cube@),
    ensures
        old(ctx).leads_to(*final(ctx)),
        builds(*old(ctx), *final(ctx)),
        final(ctx).graph.has(r),
        final(ctx).graph.denotes(r, gate_tm(cube@, Tm::Class(fact), t_bool(false))),
{
    ctx.build(&gate_expr(cube, Expr::Class(fact), false))
}

/// A gated amount is the amount on the path, and zero elsewhere.
pub proof fn law_gated_amount(g: Graph, m: Model, r: Id, id: Id, pc: Seq<(Id, Polarity)>)
    requires
        !g.full(),
        g.models(m),
        g.denotes(r, gate_tm(pc, Tm::Class(id), t_real(0 as real))),
    ensures
        amount(m.at(r)) == (if cube_holds(m, pc) {
            amount(m.at(id))
        } else {
            0 as real
        }),
{
    lemma_gate_tm(m, pc, Tm::Class(id), t_real(0 as real));
    lemma_tm_lit(m, Value::Real(0 as real));
}

/// A gated fact is true where its cube holds and it is true.
pub proof fn law_gated_fact(g: Graph, m: Model, r: Id, fact: Id, cube: Seq<(Id, Polarity)>)
    requires
        !g.full(),
        g.models(m),
        g.denotes(r, gate_tm(cube, Tm::Class(fact), t_bool(false))),
    ensures
        m.is(r, true) == (cube_holds(m, cube) && m.is(fact, true)),
{
    lemma_gate_tm(m, cube, Tm::Class(fact), t_bool(false));
    lemma_tm_lit(m, Value::Bool(false));
}

/// The leaves of an amount with the literals of the arms that lead to them.
pub fn leaves_under(p: &ChunkPerm, path: &Vec<(Id, Polarity)>) -> (r: Vec<
    (Id, Vec<(Id, Polarity)>),
>)
    ensures
        r@.len() == leaves_of(*p, path@).len(),
        forall|i: int|
            0 <= i < r@.len() ==> (#[trigger] r@[i]).0 == leaves_of(*p, path@)[i].0 && r@[i].1@
                == leaves_of(*p, path@)[i].1,
    decreases p,
{
    match p {
        ChunkPerm::Leaf { id, .. } => {
            let mut out: Vec<(Id, Vec<(Id, Polarity)>)> = Vec::new();
            out.push((*id, copy_cube(path)));
            out
        },
        ChunkPerm::Select { cond, on, off } => {
            let mut yes = copy_cube(path);
            yes.push((*cond, Polarity::Positive));
            let mut no = copy_cube(path);
            no.push((*cond, Polarity::Negative));
            let mut out = leaves_under(&**on, &yes);
            let mut more = leaves_under(&**off, &no);
            out.append(&mut more);
            out
        },
    }
}

/// A copy of a cube.
pub fn copy_cube(c: &Vec<(Id, Polarity)>) -> (r: Vec<(Id, Polarity)>)
    ensures
        r@ == c@,
{
    let mut out: Vec<(Id, Polarity)> = Vec::new();
    let mut i: usize = 0;
    while i < c.len()
        invariant
            i <= c@.len(),
            out@ == c@.take(i as int),
        decreases c.len() - i,
    {
        out.push(c[i]);
        i += 1;
        proof {
            assert(c@.take(i as int) =~= c@.take(i - 1).push(c@[i - 1]));
        }
    }
    proof {
        assert(c@.take(c@.len() as int) =~= c@);
    }
    out
}

/// Some leaf gives the amount, and the arms that lead to it are taken.
pub proof fn law_leaves(m: Model, p: ChunkPerm, path: Seq<(Id, Polarity)>) -> (i: int)
    requires
        cube_on(m, path),
    ensures
        0 <= i < leaves_of(p, path).len(),
        amount(m.at(leaves_of(p, path)[i].0)) == perm_amt(m, p),
        cube_on(m, leaves_of(p, path)[i].1),
    decreases p,
{
    match p {
        ChunkPerm::Leaf { .. } => 0,
        ChunkPerm::Select { cond, on, off } => {
            let yes = path.push((cond, Polarity::Positive));
            let no = path.push((cond, Polarity::Negative));
            lemma_cube_on_push(m, path, (cond, Polarity::Positive));
            lemma_cube_on_push(m, path, (cond, Polarity::Negative));
            let a = leaves_of(*on, yes);
            let b = leaves_of(*off, no);
            if met(m, cond) {
                let i = law_leaves(m, *on, yes);
                assert((a + b)[i] == a[i]);
                i
            } else {
                let i = law_leaves(m, *off, no);
                assert((a + b)[a.len() + i] == b[i]);
                a.len() + i
            }
        },
    }
}

} // verus!
