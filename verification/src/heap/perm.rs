//! Permission amounts as trees of choices.

use crate::context::{builds, lemma_leads_refl, lemma_leads_trans, Context};
use crate::graph::{lemma_same_class, Graph};
use crate::lang::{Id, Node, OpV};
use crate::method::merge::amount;
use crate::model::{lemma_tm_ite, t_classes, t_ite, tm_value, Model, Tm};
use crate::terms::{lemma_denotes_self, lemma_grows_denotes, lemma_known, Expr};
use crate::vmir::{Polarity, Value};
use vstd::prelude::*;

verus! {

broadcast use crate::context::lemma_builds_trans;

/// A permission amount: a class, or a choice between two amounts. Choices are built
/// where control flow joins and stay out of the graph.
#[derive(Debug)]
pub enum ChunkPerm {
    /// The class of an amount, and whether a wildcard is part of it.
    Leaf { id: Id, wild: bool },
    Select { cond: Id, on: Box<ChunkPerm>, off: Box<ChunkPerm> },
}

/// Every class of an amount is in the graph.
pub open spec fn perm_in(g: Graph, p: ChunkPerm) -> bool
    decreases p,
{
    match p {
        ChunkPerm::Leaf { id, .. } => g.has(id),
        ChunkPerm::Select { cond, on, off } => g.has(cond) && perm_in(g, *on) && perm_in(g, *off),
    }
}

/// Whether a condition is met in a model.
pub open spec fn met(m: Model, cond: Id) -> bool {
    m.at(cond) == Value::Bool(true)
}

/// The amount in a model.
pub open spec fn perm_amt(m: Model, p: ChunkPerm) -> real
    decreases p,
{
    match p {
        ChunkPerm::Leaf { id, .. } => amount(m.at(id)),
        ChunkPerm::Select { cond, on, off } => if met(m, cond) {
            perm_amt(m, *on)
        } else {
            perm_amt(m, *off)
        },
    }
}

/// Every condition of an amount is a boolean.
pub open spec fn perm_sorted(m: Model, p: ChunkPerm) -> bool
    decreases p,
{
    match p {
        ChunkPerm::Leaf { .. } => true,
        ChunkPerm::Select { cond, on, off } => m.at(cond) is Bool && perm_sorted(m, *on)
            && perm_sorted(m, *off),
    }
}

/// The amount as a term.
pub open spec fn perm_tm(p: ChunkPerm) -> Tm
    decreases p,
{
    match p {
        ChunkPerm::Leaf { id, .. } => Tm::Class(id),
        ChunkPerm::Select { cond, on, off } => t_ite(
            Tm::Class(cond),
            perm_tm(*on),
            perm_tm(*off),
        ),
    }
}

/// A wildcard is part of some leaf.
pub open spec fn wild_in(p: ChunkPerm) -> bool
    decreases p,
{
    match p {
        ChunkPerm::Leaf { wild, .. } => wild,
        ChunkPerm::Select { on, off, .. } => wild_in(*on) || wild_in(*off),
    }
}

/// The same choices over the same classes.
pub open spec fn same_perm(g: Graph, a: ChunkPerm, b: ChunkPerm) -> bool
    decreases a,
{
    match (a, b) {
        (ChunkPerm::Leaf { id: x, .. }, ChunkPerm::Leaf { id: y, .. }) => g.canon(x) == g.canon(y),
        (
            ChunkPerm::Select { cond: c, on: t, off: e },
            ChunkPerm::Select { cond: d, on: u, off: f },
        ) => g.canon(c) == g.canon(d) && same_perm(g, *t, *u) && same_perm(g, *e, *f),
        _ => false,
    }
}

/// An amount as seen from inside one arm of a condition: choices on the same
/// condition are decided.
pub open spec fn collapsed(g: Graph, cond: Id, p: ChunkPerm, side: bool) -> ChunkPerm
    decreases p,
{
    match p {
        ChunkPerm::Select { cond: c, on, off } => if g.canon(c) == g.canon(cond) {
            collapsed(
                g,
                cond,
                if side {
                    *on
                } else {
                    *off
                },
                side,
            )
        } else {
            p
        },
        _ => p,
    }
}

/// A choice between two amounts. Equal arms need no choice, and neither does a
/// condition that is known.
pub open spec fn selected(g: Graph, cond: Id, on: ChunkPerm, off: ChunkPerm) -> ChunkPerm {
    let t = collapsed(g, cond, on, true);
    let e = collapsed(g, cond, off, false);
    if same_perm(g, t, e) {
        t
    } else {
        match g.known_truth(cond) {
            Some(true) => t,
            Some(false) => e,
            None => ChunkPerm::Select { cond, on: Box::new(t), off: Box::new(e) },
        }
    }
}

pub proof fn lemma_perm_grows(g: Graph, h: Graph, p: ChunkPerm)
    requires
        g.grows_to(h),
        perm_in(g, p),
    ensures
        perm_in(h, p),
    decreases p,
{
    if let ChunkPerm::Select { on, off, .. } = p {
        lemma_perm_grows(g, h, *on);
        lemma_perm_grows(g, h, *off);
    }
}

/// What is the same has the same amount.
pub proof fn law_same_perm(g: Graph, m: Model, a: ChunkPerm, b: ChunkPerm)
    requires
        g.wf(),
        g.models(m),
        perm_in(g, a),
        perm_in(g, b),
        same_perm(g, a, b),
    ensures
        perm_amt(m, a) == perm_amt(m, b),
    decreases a,
{
    match (a, b) {
        (ChunkPerm::Leaf { id: x, .. }, ChunkPerm::Leaf { id: y, .. }) => {
            lemma_same_class(g, m, x, y);
        },
        (
            ChunkPerm::Select { cond: c, on: t, off: e },
            ChunkPerm::Select { cond: d, on: u, off: f },
        ) => {
            lemma_same_class(g, m, c, d);
            law_same_perm(g, m, *t, *u);
            law_same_perm(g, m, *e, *f);
        },
        _ => {},
    }
}

/// Inside an arm, an amount is what is seen of it there.
pub proof fn law_collapsed(g: Graph, m: Model, cond: Id, p: ChunkPerm, side: bool)
    requires
        g.wf(),
        g.models(m),
        g.has(cond),
        perm_in(g, p),
        met(m, cond) == side,
    ensures
        perm_amt(m, collapsed(g, cond, p, side)) == perm_amt(m, p),
    decreases p,
{
    if let ChunkPerm::Select { cond: c, on, off } = p {
        if g.canon(c) == g.canon(cond) {
            lemma_same_class(g, m, c, cond);
            if side {
                law_collapsed(g, m, cond, *on, side);
            } else {
                law_collapsed(g, m, cond, *off, side);
            }
        }
    }
}

pub proof fn lemma_collapsed_in(g: Graph, cond: Id, p: ChunkPerm, side: bool)
    requires
        perm_in(g, p),
    ensures
        perm_in(g, collapsed(g, cond, p, side)),
        wild_in(collapsed(g, cond, p, side)) ==> wild_in(p),
    decreases p,
{
    if let ChunkPerm::Select { cond: c, on, off } = p {
        if g.canon(c) == g.canon(cond) {
            if side {
                lemma_collapsed_in(g, cond, *on, side);
            } else {
                lemma_collapsed_in(g, cond, *off, side);
            }
        }
    }
}

/// A choice has the amount of the arm that is taken.
pub proof fn law_selected(g: Graph, m: Model, cond: Id, on: ChunkPerm, off: ChunkPerm)
    requires
        g.wf(),
        g.models(m),
        g.has(cond),
        perm_in(g, on),
        perm_in(g, off),
    ensures
        perm_amt(m, selected(g, cond, on, off)) == (if met(m, cond) {
            perm_amt(m, on)
        } else {
            perm_amt(m, off)
        }),
{
    let t = collapsed(g, cond, on, true);
    let e = collapsed(g, cond, off, false);
    lemma_collapsed_in(g, cond, on, true);
    lemma_collapsed_in(g, cond, off, false);
    if met(m, cond) {
        law_collapsed(g, m, cond, on, true);
    } else {
        law_collapsed(g, m, cond, off, false);
    }
    lemma_known(g, m, cond);
    if same_perm(g, t, e) {
        law_same_perm(g, m, t, e);
    }
}

pub proof fn lemma_selected_in(g: Graph, cond: Id, on: ChunkPerm, off: ChunkPerm)
    requires
        g.has(cond),
        perm_in(g, on),
        perm_in(g, off),
    ensures
        perm_in(g, selected(g, cond, on, off)),
        wild_in(selected(g, cond, on, off)) ==> wild_in(on) || wild_in(off),
{
    lemma_collapsed_in(g, cond, on, true);
    lemma_collapsed_in(g, cond, off, false);
}

pub proof fn lemma_collapsed_sorted(g: Graph, m: Model, cond: Id, p: ChunkPerm, side: bool)
    requires
        perm_sorted(m, p),
    ensures
        perm_sorted(m, collapsed(g, cond, p, side)),
    decreases p,
{
    if let ChunkPerm::Select { cond: c, on, off } = p {
        if g.canon(c) == g.canon(cond) {
            if side {
                lemma_collapsed_sorted(g, m, cond, *on, side);
            } else {
                lemma_collapsed_sorted(g, m, cond, *off, side);
            }
        }
    }
}

pub proof fn lemma_selected_sorted(g: Graph, m: Model, cond: Id, on: ChunkPerm, off: ChunkPerm)
    requires
        m.at(cond) is Bool,
        perm_sorted(m, on),
        perm_sorted(m, off),
    ensures
        perm_sorted(m, selected(g, cond, on, off)),
{
    lemma_collapsed_sorted(g, m, cond, on, true);
    lemma_collapsed_sorted(g, m, cond, off, false);
}

/// Where the term of an amount has a value, it is the amount.
pub proof fn lemma_perm_tm(m: Model, p: ChunkPerm)
    ensures
        tm_value(m, perm_tm(p)) matches Some(v) ==> amount(v) == perm_amt(m, p),
    decreases p,
{
    if let ChunkPerm::Select { cond, on, off } = p {
        lemma_perm_tm(m, *on);
        lemma_perm_tm(m, *off);
        lemma_tm_ite(m, Tm::Class(cond), perm_tm(*on), perm_tm(*off));
    }
}

/// The depth of the choices, at most `u32::MAX`.
pub open spec fn depth_of(p: ChunkPerm) -> u32
    decreases p,
{
    match p {
        ChunkPerm::Leaf { .. } => 0,
        ChunkPerm::Select { on, off, .. } => {
            let d = crate::heap::trace::deeper(depth_of(*on), depth_of(*off));
            if d < u32::MAX {
                (d + 1) as u32
            } else {
                d
            }
        },
    }
}

/// The leaves with the literals of the arms that lead to them.
pub open spec fn leaves_of(p: ChunkPerm, path: Seq<(Id, Polarity)>) -> Seq<
    (Id, Seq<(Id, Polarity)>),
>
    decreases p,
{
    match p {
        ChunkPerm::Leaf { id, .. } => seq![(id, path)],
        ChunkPerm::Select { cond, on, off } => leaves_of(
            *on,
            path.push((cond, Polarity::Positive)),
        ) + leaves_of(*off, path.push((cond, Polarity::Negative))),
    }
}

impl ChunkPerm {
    /// The amount of a class.
    pub fn leaf(id: Id) -> (r: ChunkPerm)
        ensures
            r == (ChunkPerm::Leaf { id, wild: false }),
    {
        ChunkPerm::Leaf { id, wild: false }
    }

    /// The amount of a class that a wildcard is part of.
    pub fn wild_leaf(id: Id) -> (r: ChunkPerm)
        ensures
            r == (ChunkPerm::Leaf { id, wild: true }),
    {
        ChunkPerm::Leaf { id, wild: true }
    }

    pub fn copy(&self) -> (r: ChunkPerm)
        ensures
            r == *self,
        decreases self,
    {
        match self {
            ChunkPerm::Leaf { id, wild } => ChunkPerm::Leaf { id: *id, wild: *wild },
            ChunkPerm::Select { cond, on, off } => {
                let t = (&**on).copy();
                let e = (&**off).copy();
                ChunkPerm::Select { cond: *cond, on: Box::new(t), off: Box::new(e) }
            },
        }
    }

    /// Whether a wildcard is part of some leaf.
    pub fn has_wild(&self) -> (r: bool)
        ensures
            r == wild_in(*self),
        decreases self,
    {
        match self {
            ChunkPerm::Leaf { wild, .. } => *wild,
            ChunkPerm::Select { on, off, .. } => {
                let t = (&**on).has_wild();
                let e = (&**off).has_wild();
                t || e
            },
        }
    }

    /// The depth of the choices.
    pub fn depth(&self) -> (r: u32)
        ensures
            r == depth_of(*self),
        decreases self,
    {
        match self {
            ChunkPerm::Leaf { .. } => 0,
            ChunkPerm::Select { on, off, .. } => {
                let t: u32 = (&**on).depth();
                let e: u32 = (&**off).depth();
                let d: u32 = if t < e {
                    e
                } else {
                    t
                };
                if d < u32::MAX {
                    d + 1
                } else {
                    d
                }
            },
        }
    }

    /// Whether two amounts are the same choices over the same classes.
    pub fn same(g: &Graph, a: &ChunkPerm, b: &ChunkPerm) -> (r: bool)
        requires
            g.wf(),
            perm_in(*g, *a),
            perm_in(*g, *b),
        ensures
            r == same_perm(*g, *a, *b),
        decreases a,
    {
        match (a, b) {
            (ChunkPerm::Leaf { id: x, .. }, ChunkPerm::Leaf { id: y, .. }) => g.find(*x)
                == g.find(*y),
            (
                ChunkPerm::Select { cond: c, on: t, off: e },
                ChunkPerm::Select { cond: d, on: u, off: f },
            ) => {
                let x = &**t;
                let y = &**u;
                let z = &**e;
                let w = &**f;
                g.find(*c) == g.find(*d) && Self::same(g, x, y) && Self::same(g, z, w)
            },
            _ => false,
        }
    }

    /// This amount as seen from inside one arm of a condition.
    pub fn restrict(g: &Graph, cond: Id, p: &ChunkPerm, side: bool) -> (r: ChunkPerm)
        requires
            g.wf(),
            g.has(cond),
            perm_in(*g, *p),
        ensures
            r == collapsed(*g, cond, *p, side),
            perm_in(*g, r),
        decreases p,
    {
        proof {
            lemma_collapsed_in(*g, cond, *p, side);
        }
        match p {
            ChunkPerm::Select { cond: c, on, off } => {
                if g.find(*c) == g.find(cond) {
                    if side {
                        Self::restrict(g, cond, &**on, side)
                    } else {
                        Self::restrict(g, cond, &**off, side)
                    }
                } else {
                    p.copy()
                }
            },
            ChunkPerm::Leaf { id, wild } => ChunkPerm::Leaf { id: *id, wild: *wild },
        }
    }

    /// A choice between two amounts.
    pub fn select(ctx: &mut Context, cond: Id, on: &ChunkPerm, off: &ChunkPerm) -> (r: ChunkPerm)
        requires
            old(ctx).wf(),
            old(ctx).graph.has(cond),
            perm_in(old(ctx).graph, *on),
            perm_in(old(ctx).graph, *off),
        ensures
            r == selected(old(ctx).graph, cond, *on, *off),
            perm_in(old(ctx).graph, r),
            old(ctx).leads_to(*final(ctx)),
            final(ctx).graph == old(ctx).graph,
    {
        let ghost c0 = *ctx;
        proof {
            lemma_selected_in(ctx.graph, cond, *on, *off);
            lemma_leads_refl(c0);
        }
        let t = Self::restrict(&ctx.graph, cond, on, true);
        let e = Self::restrict(&ctx.graph, cond, off, false);
        if Self::same(&ctx.graph, &t, &e) {
            return t;
        }
        match ctx.graph.known_bool(cond) {
            Some(true) => {
                return t;
            },
            Some(false) => {
                return e;
            },
            None => {},
        }
        let r = ChunkPerm::Select { cond, on: Box::new(t), off: Box::new(e) };
        ctx.trace.bump_select(r.depth());
        r
    }

    /// The class of the amount.
    pub fn to_id(&self, ctx: &mut Context) -> (r: Id)
        requires
            old(ctx).wf(),
            perm_in(old(ctx).graph, *self),
        ensures
            old(ctx).leads_to(*final(ctx)),
            builds(*old(ctx), *final(ctx)),
            final(ctx).graph.has(r),
            final(ctx).graph.denotes(r, perm_tm(*self)),
            *self matches ChunkPerm::Leaf { id, .. } ==> r == id && *final(ctx) == *old(ctx),
        decreases self,
    {
        let ghost c0 = *ctx;
        match self {
            ChunkPerm::Leaf { id, .. } => {
                proof {
                    lemma_leads_refl(c0);
                    lemma_denotes_self(c0.graph, *id);
                }
                *id
            },
            ChunkPerm::Select { cond, on, off } => {
                let t = (&**on).to_id(ctx);
                let ghost c1 = *ctx;
                proof {
                    lemma_perm_grows(c0.graph, c1.graph, **off);
                }
                let e = (&**off).to_id(ctx);
                let ghost c2 = *ctx;
                let r = ctx.build(
                    &Expr::ite(Expr::Class(*cond), Expr::Class(t), Expr::Class(e)),
                );
                proof {
                    lemma_leads_trans(c0, c1, c2);
                    lemma_leads_trans(c1, c2, *ctx);
                    lemma_leads_trans(c0, c2, *ctx);
                    lemma_grows_denotes(c1.graph, ctx.graph, t, perm_tm(**on));
                    lemma_grows_denotes(c2.graph, ctx.graph, e, perm_tm(**off));
                    let n = Node { op: OpV::Ite, args: seq![*cond, t, e] };
                    assert(t_classes(n.args) =~= seq![
                        Tm::Class(*cond),
                        Tm::Class(t),
                        Tm::Class(e),
                    ]);
                    lemma_denotes_self(ctx.graph, *cond);
                    crate::terms::lemma_denotes_ite(
                        ctx.graph,
                        r,
                        *cond,
                        t,
                        e,
                        Tm::Class(*cond),
                        perm_tm(**on),
                        perm_tm(**off),
                    );
                }
                r
            },
        }
    }

    /// The class of an amount without a choice.
    pub fn as_leaf(&self) -> (r: Option<Id>)
        ensures
            r == (match *self {
                ChunkPerm::Leaf { id, .. } => Some(id),
                _ => None,
            }),
    {
        match self {
            ChunkPerm::Leaf { id, .. } => Some(*id),
            _ => None,
        }
    }

    /// A class that stands for the amount in displays.
    pub fn repr_id(&self) -> (r: Id)
        ensures
            r == (match *self {
                ChunkPerm::Leaf { id, .. } => id,
                ChunkPerm::Select { cond, .. } => cond,
            }),
    {
        match self {
            ChunkPerm::Leaf { id, .. } => *id,
            ChunkPerm::Select { cond, .. } => *cond,
        }
    }
}

} // verus!
