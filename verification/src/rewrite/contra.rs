//! Contrapositive reasoning from a refuted equality: about the arguments of one
//! function on both sides, and about a conditional on one side.

use crate::graph::{keeps_classes, lemma_canon_value, lemma_term_value, Graph};
use crate::lang::{FuncId, Id, Node, OpV, Symbolic};
use crate::model::{lemma_tm_bin, lemma_tm_lit, Model, Tm};
use crate::rewrite::diseq::{lemma_eq_term, unequal, unequal_pin};
use crate::rewrite::gather::{
    all_hold, cands_in, cands_view, derivations_hold, lemma_derivations_concat, lemma_picks_hold,
    pick_new, picks, Cand,
};
use crate::rewrite::memo::{Memo, MemoKey, Scopes};
use crate::rewrite::pins::{assert_pins, asserted, empty_pins, merges, pin_facts, pins_in, push_if};
use crate::terms::lemma_known;
use crate::vmir::{same_types, BinOp, Value};
use vstd::prelude::*;

verus! {

/// The positions at which two argument lists are in different classes.
pub open spec fn differences(g: Graph, a: Seq<Id>, b: Seq<Id>) -> Seq<(Id, Id)>
    recommends
        a.len() == b.len(),
    decreases a.len(),
{
    if a.len() == 0 {
        Seq::empty()
    } else {
        let front = differences(g, a.drop_last(), b.drop_last());
        if g.canon(a.last()) != g.canon(b.last()) {
            front.push((g.canon(a.last()), g.canon(b.last())))
        } else {
            front
        }
    }
}

/// The derivations of the rule for one function on both sides: the function and the
/// pair of arguments, with what follows.
pub type ContraV = Seq<((FuncId, Id, Id), Seq<(Tm, Tm)>)>;

/// Two applications of one function in different classes, equal in all arguments but
/// one, differ in that one.
pub open spec fn contra_pair(g: Graph, n: Node, p: Node) -> ContraV {
    match n.op {
        OpV::FuncApp(f, _) => if n.op == p.op && n.args.len() == p.args.len() && differences(
            g,
            n.args,
            p.args,
        ).len() == 1 {
            let (a, b) = differences(g, n.args, p.args)[0];
            seq![((f, a, b), seq![unequal(a, b)])]
        } else {
            Seq::empty()
        },
        _ => Seq::empty(),
    }
}

pub open spec fn contra_row(g: Graph, n: Node, ps: Seq<Node>) -> ContraV
    decreases ps.len(),
{
    if ps.len() == 0 {
        Seq::empty()
    } else {
        contra_row(g, n, ps.drop_last()) + contra_pair(g, n, ps.last())
    }
}

pub open spec fn contra_table(g: Graph, ns: Seq<Node>, ps: Seq<Node>) -> ContraV
    decreases ns.len(),
{
    if ns.len() == 0 {
        Seq::empty()
    } else {
        contra_table(g, ns.drop_last(), ps) + contra_row(g, ns.last(), ps)
    }
}

/// The derivations from one term of a refuted class.
pub open spec fn contra_term(g: Graph, n: Node) -> ContraV {
    if n.op == OpV::Binary(BinOp::Eq) && n.args.len() == 2 {
        contra_table(g, g.terms(n.args[0]), g.terms(n.args[1]))
    } else {
        Seq::empty()
    }
}

pub open spec fn contra_terms(g: Graph, ts: Seq<Node>) -> ContraV
    decreases ts.len(),
{
    if ts.len() == 0 {
        Seq::empty()
    } else {
        contra_terms(g, ts.drop_last()) + contra_term(g, ts.last())
    }
}

/// The derivations from a class: none unless it is refuted.
pub open spec fn contra_class(g: Graph, class: Id) -> ContraV {
    if g.known_truth(class) == Some(false) {
        contra_terms(g, g.terms(class))
    } else {
        Seq::empty()
    }
}

/// A function and the pair of arguments that it tells apart.
#[derive(Debug, Clone, Copy, PartialEq, Eq, Hash, Structural)]
pub struct ContraKey {
    pub func: FuncId,
    pub a: Id,
    pub b: Id,
}

impl MemoKey for ContraKey {
    type Ident = (FuncId, Id, Id);

    open spec fn ident(&self) -> (FuncId, Id, Id) {
        (self.func, self.a, self.b)
    }

    fn same(&self, other: &Self) -> (r: bool) {
        self.func == other.func && self.a == other.a && self.b == other.b
    }
}

/// The one position at which two argument lists are in different classes, if there is
/// exactly one.
fn lone_difference(g: &Graph, a: &Vec<Id>, b: &Vec<Id>) -> (r: Option<(Id, Id)>)
    requires
        g.wf(),
        g.has_all(a@),
        g.has_all(b@),
        a@.len() == b@.len(),
    ensures
        r is Some == (differences(*g, a@, b@).len() == 1),
        r matches Some(p) ==> differences(*g, a@, b@)[0] == p && g.has(p.0) && g.has(p.1),
{
    let mut found: Option<(Id, Id)> = None;
    let mut many: bool = false;
    let mut i: usize = 0;
    proof {
        assert(a@.take(0) =~= Seq::<Id>::empty());
    }
    while i < a.len()
        invariant
            g.wf(),
            g.has_all(a@),
            g.has_all(b@),
            a@.len() == b@.len(),
            i <= a@.len(),
            many == (differences(*g, a@.take(i as int), b@.take(i as int)).len() > 1),
            found is None == (differences(*g, a@.take(i as int), b@.take(i as int)).len() == 0),
            found matches Some(p) ==> differences(*g, a@.take(i as int), b@.take(i as int))[0] == p
                && g.has(p.0) && g.has(p.1),
        decreases a.len() - i,
    {
        proof {
            assert(a@.take(i + 1).drop_last() =~= a@.take(i as int));
            assert(b@.take(i + 1).drop_last() =~= b@.take(i as int));
            assert(g.has(a@[i as int]));
            assert(g.has(b@[i as int]));
        }
        let x = g.find(a[i]);
        let y = g.find(b[i]);
        if x != y {
            if found.is_some() {
                many = true;
            } else {
                found = Some((x, y));
            }
        }
        i += 1;
    }
    proof {
        assert(a@.take(a@.len() as int) =~= a@);
        assert(b@.take(b@.len() as int) =~= b@);
    }
    if many {
        None
    } else {
        found
    }
}

/// Appends the derivation of a pair of applications, if there is one.
fn contra_step(g: &Graph, n: &Symbolic, p: &Symbolic, out: &mut Vec<Cand<ContraKey>>)
    requires
        g.wf(),
        g.has_all(n@.args),
        g.has_all(p@.args),
        cands_in(old(out)@, *g),
    ensures
        cands_in(final(out)@, *g),
        cands_view(final(out)@) == cands_view(old(out)@) + contra_pair(*g, n@, p@),
{
    let ghost before = out@;
    if let (Symbolic::FuncApp(f, s, a), Symbolic::FuncApp(h, t, b)) = (n, p) {
        if *f == *h && same_types(s, t) && a.len() == b.len() {
            if let Some((x, y)) = lone_difference(g, a, b) {
                let mut pins = empty_pins();
                push_if(&mut pins, true, unequal_pin(x, y));
                proof {
                    assert(pin_facts(pins@) =~= seq![unequal(x, y)]);
                }
                out.push(Cand { key: ContraKey { func: *f, a: x, b: y }, pins });
                proof {
                    assert(cands_view(out@) =~= cands_view(before) + contra_pair(*g, n@, p@));
                    assert forall|i: int| 0 <= i < out@.len() implies pins_in(
                        (#[trigger] out@[i]).pins@,
                        *g,
                    ) by {
                        if i < before.len() {
                            assert(out@[i] == before[i]);
                        }
                    }
                }
                return ;
            }
        }
    }
    proof {
        assert(cands_view(out@) =~= cands_view(before) + contra_pair(*g, n@, p@));
    }
}

/// Appends the derivations of the terms of the two sides of an equality.
fn contra_sides(g: &Graph, l: Id, r: Id, out: &mut Vec<Cand<ContraKey>>)
    requires
        g.wf(),
        g.has(l),
        g.has(r),
        cands_in(old(out)@, *g),
    ensures
        cands_in(final(out)@, *g),
        cands_view(final(out)@) == cands_view(old(out)@) + contra_table(
            *g,
            g.terms(l),
            g.terms(r),
        ),
{
    let ns = g.terms_of(l);
    let ps = g.terms_of(r);
    let ghost (left, right) = (g.terms(l), g.terms(r));
    let ghost v0 = cands_view(out@);
    let mut i: usize = 0;
    proof {
        assert(left.take(0) =~= Seq::<Node>::empty());
        assert(v0 =~= v0 + contra_table(*g, left.take(0), right));
    }
    while i < ns.len()
        invariant
            g.wf(),
            i <= ns@.len(),
            ns@.len() == left.len(),
            ps@.len() == right.len(),
            forall|k: int| 0 <= k < ns@.len() ==> (#[trigger] ns@[k])@ == left[k],
            forall|k: int| 0 <= k < ns@.len() ==> g.has_all((#[trigger] ns@[k])@.args),
            forall|k: int| 0 <= k < ps@.len() ==> (#[trigger] ps@[k])@ == right[k],
            forall|k: int| 0 <= k < ps@.len() ==> g.has_all((#[trigger] ps@[k])@.args),
            cands_in(out@, *g),
            cands_view(out@) == v0 + contra_table(*g, left.take(i as int), right),
        decreases ns.len() - i,
    {
        let ghost v1 = cands_view(out@);
        let mut j: usize = 0;
        proof {
            assert(right.take(0) =~= Seq::<Node>::empty());
            assert(v1 =~= v1 + contra_row(*g, left[i as int], right.take(0)));
        }
        while j < ps.len()
            invariant
                g.wf(),
                i < ns@.len(),
                ns@.len() == left.len(),
                j <= ps@.len(),
                ps@.len() == right.len(),
                forall|k: int| 0 <= k < ns@.len() ==> (#[trigger] ns@[k])@ == left[k],
                forall|k: int| 0 <= k < ns@.len() ==> g.has_all((#[trigger] ns@[k])@.args),
                forall|k: int| 0 <= k < ps@.len() ==> (#[trigger] ps@[k])@ == right[k],
                forall|k: int| 0 <= k < ps@.len() ==> g.has_all((#[trigger] ps@[k])@.args),
                cands_in(out@, *g),
                cands_view(out@) == v1 + contra_row(*g, left[i as int], right.take(j as int)),
            decreases ps.len() - j,
        {
            contra_step(g, &ns[i], &ps[j], out);
            proof {
                assert(right.take(j + 1).drop_last() =~= right.take(j as int));
                assert(cands_view(out@) =~= v1 + contra_row(
                    *g,
                    left[i as int],
                    right.take(j + 1),
                ));
            }
            j += 1;
        }
        proof {
            assert(right.take(right.len() as int) =~= right);
            assert(left.take(i + 1).drop_last() =~= left.take(i as int));
            assert(cands_view(out@) =~= v0 + contra_table(*g, left.take(i + 1), right));
        }
        i += 1;
    }
    proof {
        assert(left.take(left.len() as int) =~= left);
    }
}

/// Narrowing contrapositive congruence. Where `f(a..) == f(b..)` is refuted and all
/// pairs of arguments but one are equal, that one pair is not.
pub struct ContraCongruenceApplier {
    pub memo: Memo<ContraKey>,
}

impl ContraCongruenceApplier {
    /// All derivations from a class.
    pub fn derive(&self, g: &Graph, class: Id) -> (out: Vec<Cand<ContraKey>>)
        requires
            g.wf(),
            g.has(class),
        ensures
            cands_in(out@, *g),
            cands_view(out@) == contra_class(*g, class),
    {
        let mut out: Vec<Cand<ContraKey>> = Vec::new();
        proof {
            assert(cands_view(out@) =~= Seq::empty());
        }
        if g.known_bool(class) != Some(false) {
            return out;
        }
        let ts = g.terms_of(class);
        let ghost all = g.terms(class);
        let mut i: usize = 0;
        proof {
            assert(all.take(0) =~= Seq::<Node>::empty());
        }
        while i < ts.len()
            invariant
                g.wf(),
                i <= ts@.len(),
                ts@.len() == all.len(),
                forall|k: int| 0 <= k < ts@.len() ==> (#[trigger] ts@[k])@ == all[k],
                forall|k: int| 0 <= k < ts@.len() ==> g.has_all((#[trigger] ts@[k])@.args),
                cands_in(out@, *g),
                cands_view(out@) == contra_terms(*g, all.take(i as int)),
            decreases ts.len() - i,
        {
            let ghost before = cands_view(out@);
            proof {
                assert(all.take(i + 1).drop_last() =~= all.take(i as int));
                assert(all.take(i + 1).last() == all[i as int]);
                assert(g.has_all(ts@[i as int]@.args));
            }
            match &ts[i] {
                Symbolic::Binary(BinOp::Eq, ids) => {
                    proof {
                        assert(g.has(all[i as int].args[0]));
                        assert(g.has(all[i as int].args[1]));
                    }
                    contra_sides(g, ids[0], ids[1], &mut out);
                },
                _ => {
                    proof {
                        assert(cands_view(out@) =~= before + contra_term(*g, all[i as int]));
                    }
                },
            }
            i += 1;
        }
        proof {
            assert(all.take(all.len() as int) =~= all);
        }
        out
    }

    /// Asserts the derivations from a class that are new here, and gives the classes
    /// that changed.
    pub fn apply_one(&mut self, s: &Scopes, g: &mut Graph, class: Id) -> (changed: Vec<Id>)
        requires
            old(g).wf(),
            old(g).has(class),
        ensures
            asserted(
                *old(g),
                *final(g),
                picks(
                    contra_class(*old(g), class),
                    |v: (FuncId, Id, Id)| old(self).memo.seen(*s, v),
                ),
            ),
            changed@.len() == 0 ==> keeps_classes(*old(g), *final(g)),
            changed@.len() > 0 ==> merges(*old(g), *final(g)),
    {
        let cands = self.derive(g, class);
        let pins = pick_new(&mut self.memo, s, cands);
        assert_pins(g, &pins)
    }
}

proof fn lemma_differences(g: Graph, m: Model, a: Seq<Id>, b: Seq<Id>)
    requires
        g.wf(),
        g.models(m),
        g.has_all(a),
        g.has_all(b),
        a.len() == b.len(),
        forall|i: int|
            0 <= i < differences(g, a, b).len() ==> m.at((#[trigger] differences(g, a, b)[i]).0)
                == m.at(differences(g, a, b)[i].1),
    ensures
        m.all(a) == m.all(b),
    decreases a.len(),
{
    if a.len() > 0 {
        let (x, y) = (a.drop_last(), b.drop_last());
        assert forall|j: int| 0 <= j < x.len() implies g.has(#[trigger] x[j]) by {
            assert(g.has(a[j]));
        }
        assert forall|j: int| 0 <= j < y.len() implies g.has(#[trigger] y[j]) by {
            assert(g.has(b[j]));
        }
        let all = differences(g, a, b);
        let front = differences(g, x, y);
        assert forall|i: int| 0 <= i < front.len() implies m.at((#[trigger] front[i]).0) == m.at(
            front[i].1,
        ) by {
            assert(all[i] == front[i]);
        }
        lemma_differences(g, m, x, y);
        let k = a.len() - 1;
        assert(g.has(a[k]) && g.has(b[k]));
        lemma_canon_value(g, m, a[k]);
        lemma_canon_value(g, m, b[k]);
        if g.canon(a[k]) != g.canon(b[k]) {
            assert(all[front.len() as int] == (g.canon(a[k]), g.canon(b[k])));
        }
        assert forall|i: int| 0 <= i < a.len() implies m.all(a)[i] == m.all(b)[i] by {
            if i < k {
                assert(m.all(x)[i] == m.all(y)[i]);
            }
        }
        assert(m.all(a) =~= m.all(b));
    } else {
        assert(m.all(a) =~= m.all(b));
    }
}

proof fn lemma_contra_pair(g: Graph, m: Model, l: Id, r: Id, i: int, j: int)
    requires
        g.wf(),
        g.models(m),
        g.has(l),
        g.has(r),
        m.at(l) != m.at(r),
        0 <= i < g.terms(l).len(),
        0 <= j < g.terms(r).len(),
    ensures
        derivations_hold(m, contra_pair(g, g.terms(l)[i], g.terms(r)[j])),
{
    let (n, p) = (g.terms(l)[i], g.terms(r)[j]);
    lemma_term_value(g, m, l, i);
    lemma_term_value(g, m, r, j);
    if contra_pair(g, n, p).len() > 0 {
        let (a, b) = differences(g, n.args, p.args)[0];
        if m.at(a) == m.at(b) {
            lemma_differences(g, m, n.args, p.args);
        }
        lemma_tm_bin(m, BinOp::Eq, Tm::Class(a), Tm::Class(b));
        lemma_tm_lit(m, Value::Bool(false));
    }
}

proof fn lemma_contra_row(g: Graph, m: Model, l: Id, r: Id, i: int, k: nat)
    requires
        g.wf(),
        g.models(m),
        g.has(l),
        g.has(r),
        m.at(l) != m.at(r),
        0 <= i < g.terms(l).len(),
        k <= g.terms(r).len(),
    ensures
        derivations_hold(m, contra_row(g, g.terms(l)[i], g.terms(r).take(k as int))),
    decreases k,
{
    if k > 0 {
        let ps = g.terms(r).take(k as int);
        lemma_contra_row(g, m, l, r, i, (k - 1) as nat);
        lemma_contra_pair(g, m, l, r, i, k - 1);
        assert(ps.drop_last() =~= g.terms(r).take(k - 1));
        lemma_derivations_concat(
            m,
            contra_row(g, g.terms(l)[i], ps.drop_last()),
            contra_pair(g, g.terms(l)[i], ps.last()),
        );
    }
}

proof fn lemma_contra_table(g: Graph, m: Model, l: Id, r: Id, k: nat)
    requires
        g.wf(),
        g.models(m),
        g.has(l),
        g.has(r),
        m.at(l) != m.at(r),
        k <= g.terms(l).len(),
    ensures
        derivations_hold(m, contra_table(g, g.terms(l).take(k as int), g.terms(r))),
    decreases k,
{
    if k > 0 {
        let ns = g.terms(l).take(k as int);
        lemma_contra_table(g, m, l, r, (k - 1) as nat);
        lemma_contra_row(g, m, l, r, k - 1, g.terms(r).len());
        assert(g.terms(r).take(g.terms(r).len() as int) =~= g.terms(r));
        assert(ns.drop_last() =~= g.terms(l).take(k - 1));
        lemma_derivations_concat(
            m,
            contra_table(g, ns.drop_last(), g.terms(r)),
            contra_row(g, ns.last(), g.terms(r)),
        );
    }
}

proof fn lemma_contra_terms(g: Graph, m: Model, class: Id, k: nat)
    requires
        g.wf(),
        g.models(m),
        g.has(class),
        m.is(class, false),
        k <= g.terms(class).len(),
    ensures
        derivations_hold(m, contra_terms(g, g.terms(class).take(k as int))),
    decreases k,
{
    if k > 0 {
        let ts = g.terms(class).take(k as int);
        lemma_contra_terms(g, m, class, (k - 1) as nat);
        assert(ts.drop_last() =~= g.terms(class).take(k - 1));
        let n = ts.last();
        if n.op == OpV::Binary(BinOp::Eq) && n.args.len() == 2 {
            lemma_eq_term(g, m, class, k - 1);
            let (l, r) = (n.args[0], n.args[1]);
            lemma_contra_table(g, m, l, r, g.terms(l).len());
            assert(g.terms(l).take(g.terms(l).len() as int) =~= g.terms(l));
        }
        lemma_derivations_concat(m, contra_terms(g, ts.drop_last()), contra_term(g, n));
    }
}

/// The rule for one function on both sides is sound, for any function and whatever
/// the memo leaves out.
pub proof fn law_contra_sound(
    g: Graph,
    m: Model,
    class: Id,
    seen: spec_fn((FuncId, Id, Id)) -> bool,
)
    requires
        g.wf(),
        g.models(m),
        g.has(class),
    ensures
        all_hold(m, picks(contra_class(g, class), seen)),
{
    if g.known_truth(class) == Some(false) {
        lemma_known(g, m, class);
        lemma_contra_terms(g, m, class, g.terms(class).len());
        assert(g.terms(class).take(g.terms(class).len() as int) =~= g.terms(class));
    }
    lemma_picks_hold(m, contra_class(g, class), seen);
}

} // verus!
