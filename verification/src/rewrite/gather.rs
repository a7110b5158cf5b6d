//! Gathering what follows from each term of a class, and leaving out what was
//! derived before.

use crate::graph::Graph;
use crate::lang::Node;
use crate::model::{equation_holds, Model, Tm};
use crate::rewrite::memo::{Memo, MemoKey, Scopes};
use crate::rewrite::pins::{append_pins, pin_facts, pins_in, Pin};
use vstd::prelude::*;

verus! {

/// What follows from terms, one after the other.
pub open spec fn gather(ts: Seq<Node>, f: spec_fn(Node) -> Seq<(Tm, Tm)>) -> Seq<(Tm, Tm)>
    decreases ts.len(),
{
    if ts.len() == 0 {
        Seq::empty()
    } else {
        gather(ts.drop_last(), f) + f(ts.last())
    }
}

pub proof fn lemma_gather_step(ts: Seq<Node>, f: spec_fn(Node) -> Seq<(Tm, Tm)>, i: int)
    requires
        0 <= i < ts.len(),
    ensures
        gather(ts.take(i + 1), f) == gather(ts.take(i), f) + f(ts[i]),
{
    assert(ts.take(i + 1).drop_last() =~= ts.take(i));
    assert(ts.take(i + 1).last() == ts[i]);
}

/// All equations of a list hold in a model.
pub open spec fn all_hold(m: Model, facts: Seq<(Tm, Tm)>) -> bool {
    forall|i: int| 0 <= i < facts.len() ==> equation_holds(m, #[trigger] facts[i])
}

pub proof fn lemma_all_hold_concat(m: Model, a: Seq<(Tm, Tm)>, b: Seq<(Tm, Tm)>)
    requires
        all_hold(m, a),
        all_hold(m, b),
    ensures
        all_hold(m, a + b),
{
    assert forall|i: int| 0 <= i < (a + b).len() implies equation_holds(m, #[trigger] (a + b)[i]) by {
        if i < a.len() {
            assert((a + b)[i] == a[i]);
        } else {
            assert((a + b)[i] == b[i - a.len()]);
        }
    }
}

/// What is gathered holds where what follows from each term does.
pub proof fn lemma_gather_holds(m: Model, ts: Seq<Node>, f: spec_fn(Node) -> Seq<(Tm, Tm)>)
    requires
        forall|k: int| 0 <= k < ts.len() ==> all_hold(m, f(#[trigger] ts[k])),
    ensures
        all_hold(m, gather(ts, f)),
    decreases ts.len(),
{
    if ts.len() > 0 {
        assert forall|k: int| 0 <= k < ts.drop_last().len() implies all_hold(
            m,
            f(#[trigger] ts.drop_last()[k]),
        ) by {
            assert(ts[k] == ts.drop_last()[k]);
        }
        lemma_gather_holds(m, ts.drop_last(), f);
        assert(all_hold(m, f(ts[ts.len() - 1])));
        lemma_all_hold_concat(m, gather(ts.drop_last(), f), f(ts.last()));
    }
}

/// A derivation: what identifies it, and the equations that it adds.
pub struct Cand<K> {
    pub key: K,
    pub pins: Vec<Pin>,
}

/// A derivation's identity and equations.
pub open spec fn cand_view<K: MemoKey>(c: Cand<K>) -> (K::Ident, Seq<(Tm, Tm)>) {
    (c.key.ident(), pin_facts(c.pins@))
}

pub open spec fn cands_view<K: MemoKey>(cs: Seq<Cand<K>>) -> Seq<(K::Ident, Seq<(Tm, Tm)>)> {
    Seq::new(cs.len(), |i: int| cand_view(cs[i]))
}

pub open spec fn cands_in<K>(cs: Seq<Cand<K>>, g: Graph) -> bool {
    forall|i: int| 0 <= i < cs.len() ==> pins_in((#[trigger] cs[i]).pins@, g)
}

/// The equations of the derivations that are neither seen nor repeated.
pub open spec fn picks<I>(cs: Seq<(I, Seq<(Tm, Tm)>)>, seen: spec_fn(I) -> bool) -> Seq<(Tm, Tm)>
    decreases cs.len(),
{
    if cs.len() == 0 {
        Seq::empty()
    } else {
        let front = picks(cs.drop_last(), seen);
        let last = cs.last();
        if seen(last.0) || exists|j: int|
            0 <= j < cs.len() - 1 && (#[trigger] cs[j]).0 == last.0 {
            front
        } else {
            front + last.1
        }
    }
}

/// What is picked holds where all derivations do.
pub proof fn lemma_picks_hold<I>(
    m: Model,
    cs: Seq<(I, Seq<(Tm, Tm)>)>,
    seen: spec_fn(I) -> bool,
)
    requires
        forall|k: int| 0 <= k < cs.len() ==> all_hold(m, (#[trigger] cs[k]).1),
    ensures
        all_hold(m, picks(cs, seen)),
    decreases cs.len(),
{
    if cs.len() > 0 {
        assert forall|k: int| 0 <= k < cs.drop_last().len() implies all_hold(
            m,
            (#[trigger] cs.drop_last()[k]).1,
        ) by {
            assert(cs[k] == cs.drop_last()[k]);
        }
        lemma_picks_hold(m, cs.drop_last(), seen);
        assert(all_hold(m, cs[cs.len() - 1].1));
        lemma_all_hold_concat(m, picks(cs.drop_last(), seen), cs.last().1);
    }
}

/// The equations of the derivations that the memo has not seen, which it has from now
/// on.
pub fn pick_new<K: MemoKey>(memo: &mut Memo<K>, s: &Scopes, cands: Vec<Cand<K>>) -> (out: Vec<Pin>)
    ensures
        pin_facts(out@) == picks(cands_view(cands@), |v: K::Ident| old(memo).seen(*s, v)),
        forall|g: Graph| cands_in(cands@, g) ==> #[trigger] pins_in(out@, g),
        forall|v: K::Ident| #[trigger]
            final(memo).seen(*s, v) == (old(memo).seen(*s, v) || exists|j: int|
                0 <= j < cands@.len() && (#[trigger] cands_view(cands@)[j]).0 == v),
{
    let ghost m0 = *memo;
    let ghost seen = |v: K::Ident| m0.seen(*s, v);
    let ghost all = cands@;
    let ghost views = cands_view(cands@);
    let mut out: Vec<Pin> = Vec::new();
    let mut rest = cands;
    let mut i: usize = 0;
    let n: usize = rest.len();
    proof {
        assert(pin_facts(out@) =~= Seq::<(Tm, Tm)>::empty());
        assert(views.take(0) =~= Seq::empty());
        assert(rest@ =~= all.skip(0));
    }
    while i < n
        invariant
            i <= n,
            n == all.len(),
            views == cands_view(all),
            rest@ == all.skip(i as int),
            pin_facts(out@) == picks(views.take(i as int), seen),
            forall|g: Graph| cands_in(all, g) ==> #[trigger] pins_in(out@, g),
            forall|v: K::Ident| #[trigger] seen(v) == m0.seen(*s, v),
            forall|v: K::Ident| #[trigger]
                memo.seen(*s, v) == (m0.seen(*s, v) || exists|j: int|
                    0 <= j < i && (#[trigger] views[j]).0 == v),
        decreases n - i,
    {
        let cand = rest.remove(0);
        let ghost m1 = *memo;
        proof {
            assert(cand == all[i as int]);
            assert(rest@ =~= all.skip(i + 1));
            assert(views.take(i + 1).drop_last() =~= views.take(i as int));
            assert(views.take(i + 1).last() == views[i as int]);
            assert(views[i as int] == cand_view(cand));
        }
        let Cand { key, pins } = cand;
        let ghost k = key.ident();
        let fresh = memo.insert(s, key);
        proof {
            let earlier = exists|j: int| 0 <= j < i && (#[trigger] views[j]).0 == k;
            let taken = views.take(i + 1);
            assert(earlier == exists|j: int|
                0 <= j < taken.len() - 1 && (#[trigger] taken[j]).0 == taken.last().0) by {
                if earlier {
                    let j = choose|j: int| 0 <= j < i && (#[trigger] views[j]).0 == k;
                    assert(taken[j].0 == taken.last().0);
                }
                if exists|j: int|
                    0 <= j < taken.len() - 1 && (#[trigger] taken[j]).0 == taken.last().0 {
                    let j = choose|j: int|
                        0 <= j < taken.len() - 1 && (#[trigger] taken[j]).0 == taken.last().0;
                    assert(views[j].0 == k);
                }
            }
            assert(fresh == !(seen(k) || earlier));
            assert forall|v: K::Ident| #[trigger] memo.seen(*s, v) == (m0.seen(*s, v) || exists|
                j: int,
            |
                0 <= j < i + 1 && (#[trigger] views[j]).0 == v) by {
                assert(memo.seen(*s, v) == (m1.seen(*s, v) || v == k));
                if v == k {
                    assert(views[i as int].0 == v);
                }
                if exists|j: int| 0 <= j < i && (#[trigger] views[j]).0 == v {
                    let j = choose|j: int| 0 <= j < i && (#[trigger] views[j]).0 == v;
                    assert(0 <= j < i + 1 && views[j].0 == v);
                }
                if exists|j: int| 0 <= j < i + 1 && (#[trigger] views[j]).0 == v {
                    let j = choose|j: int| 0 <= j < i + 1 && (#[trigger] views[j]).0 == v;
                    if j < i {
                        assert(0 <= j < i && views[j].0 == v);
                    }
                }
            }
            assert forall|g: Graph| cands_in(all, g) implies pins_in(pins@, g) by {
                assert(pins_in(all[i as int].pins@, g));
            }
        }
        if fresh {
            append_pins(&mut out, pins);
        }
        i += 1;
    }
    proof {
        assert(views.take(n as int) =~= views);
        assert(seen =~= |v: K::Ident| m0.seen(*s, v));
    }
    out
}

/// Every derivation of a list holds in a model.
pub open spec fn derivations_hold<I>(m: Model, cs: Seq<(I, Seq<(Tm, Tm)>)>) -> bool {
    forall|k: int| 0 <= k < cs.len() ==> all_hold(m, (#[trigger] cs[k]).1)
}

pub proof fn lemma_derivations_concat<I>(
    m: Model,
    a: Seq<(I, Seq<(Tm, Tm)>)>,
    b: Seq<(I, Seq<(Tm, Tm)>)>,
)
    requires
        derivations_hold(m, a),
        derivations_hold(m, b),
    ensures
        derivations_hold(m, a + b),
{
    assert forall|k: int| 0 <= k < (a + b).len() implies all_hold(m, (#[trigger] (a + b)[k]).1) by {
        if k < a.len() {
            assert((a + b)[k] == a[k]);
        } else {
            assert((a + b)[k] == b[k - a.len()]);
        }
    }
}

/// Derivations from terms, one after the other.
pub open spec fn derive_all<I>(
    ts: Seq<Node>,
    f: spec_fn(Node) -> Seq<(I, Seq<(Tm, Tm)>)>,
) -> Seq<(I, Seq<(Tm, Tm)>)>
    decreases ts.len(),
{
    if ts.len() == 0 {
        Seq::empty()
    } else {
        derive_all(ts.drop_last(), f) + f(ts.last())
    }
}

pub proof fn lemma_derive_step<I>(
    ts: Seq<Node>,
    f: spec_fn(Node) -> Seq<(I, Seq<(Tm, Tm)>)>,
    i: int,
)
    requires
        0 <= i < ts.len(),
    ensures
        derive_all(ts.take(i + 1), f) == derive_all(ts.take(i), f) + f(ts[i]),
{
    assert(ts.take(i + 1).drop_last() =~= ts.take(i));
    assert(ts.take(i + 1).last() == ts[i]);
}

/// All derivations hold where those from each term do.
pub proof fn lemma_derive_holds<I>(
    m: Model,
    ts: Seq<Node>,
    f: spec_fn(Node) -> Seq<(I, Seq<(Tm, Tm)>)>,
)
    requires
        forall|k: int| 0 <= k < ts.len() ==> derivations_hold(m, f(#[trigger] ts[k])),
    ensures
        derivations_hold(m, derive_all(ts, f)),
    decreases ts.len(),
{
    if ts.len() > 0 {
        assert forall|k: int| 0 <= k < ts.drop_last().len() implies derivations_hold(
            m,
            f(#[trigger] ts.drop_last()[k]),
        ) by {
            assert(ts[k] == ts.drop_last()[k]);
        }
        lemma_derive_holds(m, ts.drop_last(), f);
        assert(derivations_hold(m, f(ts[ts.len() - 1])));
        lemma_derivations_concat(m, derive_all(ts.drop_last(), f), f(ts.last()));
    }
}

} // verus!
