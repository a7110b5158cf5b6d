//! Guarded terms: `guards ==> t` as nested choices.

use crate::graph::{keeps_classes, Graph};
use crate::lang::Id;
use crate::model::{t_bool, t_ite, Tm};
use crate::terms::{
    built, expr_in, expr_tm, group_grows, lemma_denotes_self, lemma_grows_denotes, lemma_grows_refl,
    lemma_keeps_trans, tied, Expr,
};
use crate::vmir::Polarity;
use vstd::prelude::*;

verus! {

/// `guards ==> inner`, with `true` where a guard fails. The first guard is the
/// outermost.
pub open spec fn guard_tm(guards: Seq<(Tm, Polarity)>, inner: Tm) -> Tm
    decreases guards.len(),
{
    if guards.len() == 0 {
        inner
    } else {
        let rest = guard_tm(guards.drop_first(), inner);
        match guards[0].1 {
            Polarity::Positive => t_ite(guards[0].0, rest, t_bool(true)),
            Polarity::Negative => t_ite(guards[0].0, t_bool(true), rest),
        }
    }
}

/// The conjunction of guards. The first guard is the outermost.
pub open spec fn cube_tm(guards: Seq<(Tm, Polarity)>) -> Tm
    decreases guards.len(),
{
    if guards.len() == 0 {
        t_bool(true)
    } else {
        let rest = cube_tm(guards.drop_first());
        match guards[0].1 {
            Polarity::Positive => t_ite(guards[0].0, rest, t_bool(false)),
            Polarity::Negative => t_ite(guards[0].0, t_bool(false), rest),
        }
    }
}

/// Guards over classes, as terms.
pub open spec fn class_guards(guards: Seq<(Id, Polarity)>) -> Seq<(Tm, Polarity)> {
    Seq::new(guards.len(), |i: int| (Tm::Class(guards[i].0), guards[i].1))
}

/// Guards whose classes denote terms.
pub open spec fn guards_denote(
    g: Graph,
    guards: Seq<(Id, Polarity)>,
    ts: Seq<(Tm, Polarity)>,
) -> bool {
    &&& guards.len() == ts.len()
    &&& forall|i: int|
        0 <= i < guards.len() ==> g.has((#[trigger] guards[i]).0) && g.denotes(
            guards[i].0,
            ts[i].0,
        ) && guards[i].1 == ts[i].1
}

proof fn lemma_guards_grow(g: Graph, h: Graph, guards: Seq<(Id, Polarity)>, ts: Seq<(Tm, Polarity)>)
    requires
        g.grows_to(h),
        guards_denote(g, guards, ts),
    ensures
        guards_denote(h, guards, ts),
{
    broadcast use group_grows;

    assert forall|i: int| 0 <= i < guards.len() implies h.has((#[trigger] guards[i]).0)
        && h.denotes(guards[i].0, ts[i].0) && guards[i].1 == ts[i].1 by {
        assert(g.denotes(guards[i].0, ts[i].0));
    }
}

pub proof fn lemma_class_guards(g: Graph, guards: Seq<(Id, Polarity)>)
    requires
        forall|i: int| 0 <= i < guards.len() ==> g.has((#[trigger] guards[i]).0),
    ensures
        guards_denote(g, guards, class_guards(guards)),
{
    broadcast use lemma_denotes_self;

}

/// The class of `guards ==> inner`.
pub(crate) fn fold_guards_of(
    g: &mut Graph,
    guards: &Vec<(Id, Polarity)>,
    inner: Id,
    Ghost(ts): Ghost<Seq<(Tm, Polarity)>>,
    Ghost(t): Ghost<Tm>,
) -> (r: Id)
    requires
        old(g).wf(),
        old(g).has(inner),
        old(g).denotes(inner, t),
        guards_denote(*old(g), guards@, ts),
    ensures
        built(*old(g), *final(g), r, guard_tm(ts, t)),
        tied(inner, t) ==> tied(r, guard_tm(ts, t)),
{
    broadcast use group_grows;

    let ghost g0 = *g;
    proof {
        lemma_grows_refl(g0);
    }
    if guards.len() == 0 {
        return inner;
    }
    let yes = g.boolean(true);
    let mut imp: Id = inner;
    let mut i: usize = guards.len();
    proof {
        assert(ts.skip(i as int) =~= Seq::empty());
    }
    while i > 0
        invariant
            i <= guards@.len(),
            g.wf(),
            g0.grows_to(*g),
            keeps_classes(g0, *g),
            g.facts() == g0.facts(),
            guards_denote(g0, guards@, ts),
            g.has(yes),
            g.denotes(yes, t_bool(true)),
            g.has(imp),
            g.denotes(imp, guard_tm(ts.skip(i as int), t)),
            tied(inner, t) ==> tied(imp, guard_tm(ts.skip(i as int), t)),
        decreases i,
    {
        i -= 1;
        let ghost before = *g;
        let ghost rest = guard_tm(ts.skip(i + 1), t);
        let (c, pol) = guards[i];
        proof {
            lemma_guards_grow(g0, *g, guards@, ts);
            assert(g.has(guards@[i as int].0));
            assert(ts.skip(i as int)[0] == ts[i as int]);
            assert(ts.skip(i as int).drop_first() =~= ts.skip(i + 1));
        }
        imp = match pol {
            Polarity::Positive => g.ite_of(
                c,
                imp,
                yes,
                Ghost(ts[i as int].0),
                Ghost(rest),
                Ghost(t_bool(true)),
            ),
            Polarity::Negative => g.ite_of(
                c,
                yes,
                imp,
                Ghost(ts[i as int].0),
                Ghost(t_bool(true)),
                Ghost(rest),
            ),
        };
        proof {
            lemma_keeps_trans(g0, before, *g);
            lemma_grows_denotes(before, *g, yes, t_bool(true));
        }
    }
    proof {
        assert(ts.skip(0) =~= ts);
    }
    imp
}

/// The class of `guards ==> inner`, over classes.
pub fn fold_guard_ids(g: &mut Graph, guards: &Vec<(Id, Polarity)>, inner: Id) -> (r: Id)
    requires
        old(g).wf(),
        old(g).has(inner),
        forall|i: int| 0 <= i < guards@.len() ==> old(g).has((#[trigger] guards@[i]).0),
    ensures
        built(*old(g), *final(g), r, guard_tm(class_guards(guards@), Tm::Class(inner))),
        tied(r, guard_tm(class_guards(guards@), Tm::Class(inner))),
{
    proof {
        lemma_class_guards(*g, guards@);
        lemma_denotes_self(*g, inner);
    }
    fold_guards_of(g, guards, inner, Ghost(class_guards(guards@)), Ghost(Tm::Class(inner)))
}

/// The class of the conjunction of guards; `None` where there are none.
pub fn cube_id(g: &mut Graph, guards: &Vec<(Id, Polarity)>) -> (r: Option<Id>)
    requires
        old(g).wf(),
        forall|i: int| 0 <= i < guards@.len() ==> old(g).has((#[trigger] guards@[i]).0),
    ensures
        r is None <==> guards@.len() == 0,
        r is None ==> *final(g) == *old(g),
        r matches Some(id) ==> built(*old(g), *final(g), id, cube_tm(class_guards(guards@))),
{
    broadcast use {group_grows, lemma_denotes_self};

    let ghost g0 = *g;
    let ghost ts = class_guards(guards@);
    if guards.len() == 0 {
        return None;
    }
    proof {
        lemma_grows_refl(g0);
        lemma_class_guards(g0, guards@);
    }
    let yes = g.boolean(true);
    let ghost g1 = *g;
    let no = g.boolean(false);
    proof {
        lemma_keeps_trans(g0, g1, *g);
    }
    let mut acc: Id = yes;
    let mut i: usize = guards.len();
    proof {
        assert(ts.skip(i as int) =~= Seq::empty());
    }
    while i > 0
        invariant
            i <= guards@.len(),
            ts == class_guards(guards@),
            g.wf(),
            g0.grows_to(*g),
            keeps_classes(g0, *g),
            g.facts() == g0.facts(),
            guards_denote(g0, guards@, ts),
            g.has(no),
            g.denotes(no, t_bool(false)),
            g.has(acc),
            g.denotes(acc, cube_tm(ts.skip(i as int))),
        decreases i,
    {
        i -= 1;
        let ghost before = *g;
        let ghost rest = cube_tm(ts.skip(i + 1));
        let (c, pol) = guards[i];
        proof {
            lemma_guards_grow(g0, *g, guards@, ts);
            assert(g.has(guards@[i as int].0));
            assert(ts.skip(i as int)[0] == ts[i as int]);
            assert(ts.skip(i as int).drop_first() =~= ts.skip(i + 1));
        }
        acc = match pol {
            Polarity::Positive => g.ite_of(
                c,
                acc,
                no,
                Ghost(ts[i as int].0),
                Ghost(rest),
                Ghost(t_bool(false)),
            ),
            Polarity::Negative => g.ite_of(
                c,
                no,
                acc,
                Ghost(ts[i as int].0),
                Ghost(t_bool(false)),
                Ghost(rest),
            ),
        };
        proof {
            lemma_keeps_trans(g0, before, *g);
            lemma_grows_denotes(before, *g, no, t_bool(false));
        }
    }
    proof {
        assert(ts.skip(0) =~= ts);
    }
    Some(acc)
}

/// The expression `guards ==> inner`, the first guard outermost.
pub fn guard_expr(guards: &Vec<(Id, Polarity)>, inner: Expr) -> (r: Expr)
    ensures
        expr_tm(r) == guard_tm(class_guards(guards@), expr_tm(inner)),
        forall|g: Graph|
            expr_in(inner, g) && crate::context::cube_in(g, guards@) ==> #[trigger] expr_in(r, g),
{
    let ghost all = class_guards(guards@);
    let ghost t = expr_tm(inner);
    let ghost e0 = inner;
    let mut r = inner;
    let mut i: usize = guards.len();
    proof {
        assert(all.skip(all.len() as int) =~= Seq::empty());
    }
    while i > 0
        invariant
            i <= guards@.len(),
            all == class_guards(guards@),
            expr_tm(r) == guard_tm(all.skip(i as int), t),
            forall|g: Graph|
                expr_in(e0, g) && crate::context::cube_in(g, guards@) ==> #[trigger] expr_in(r, g),
        decreases i,
    {
        i -= 1;
        let ghost before = r;
        let (id, pol) = guards[i];
        proof {
            assert(all.skip(i as int)[0] == all[i as int]);
            assert(all.skip(i as int).drop_first() =~= all.skip(i + 1));
        }
        r = match pol {
            Polarity::Positive => Expr::ite(Expr::Class(id), r, Expr::boolean(true)),
            Polarity::Negative => Expr::ite(Expr::Class(id), Expr::boolean(true), r),
        };
        proof {
            assert forall|g: Graph|
                expr_in(e0, g) && crate::context::cube_in(g, guards@) implies #[trigger] expr_in(
                r,
                g,
            ) by {
                assert(g.has(guards@[i as int].0));
                assert(expr_in(before, g));
            }
        }
    }
    proof {
        assert(all.skip(0) =~= all);
    }
    r
}

} // verus!
