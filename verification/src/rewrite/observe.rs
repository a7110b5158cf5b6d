//! Distinguishing observations: an undecided equality is refuted where one function
//! of one argument, applied to both operands, gives values that fingerprints tell
//! apart.

use crate::graph::{keeps_classes, lemma_canon_value, lemma_term_value, Graph};
use crate::lang::{FuncId, Id, Node, OpV, Symbolic};
use crate::model::{t_bool, Model, Tm};
use crate::rewrite::diseq::lemma_eq_term;
use crate::rewrite::memo::{Memo, MemoKey, Scopes};
use crate::rewrite::pins::{
    assert_pins, asserted, empty_pins, fact_if, merges, pin_facts, push_if, Pin,
};
use crate::rewrite::prints::{apart, distinct_variants, lemma_told_apart, told_apart, Ctor};
use crate::vmir::{clone_types, same_types, types_view, BinOp, Type, TypeV};
use vstd::prelude::*;

verus! {

/// An application of a one-argument function: the function, its type arguments and
/// the class of the application.
pub struct Observation {
    pub func: FuncId,
    pub tys: Vec<Type>,
    pub class: Id,
}

/// The class `p` lists `f[tys](x)`.
pub open spec fn observes(g: Graph, f: FuncId, tys: Seq<TypeV>, x: Id, p: Id) -> bool {
    g.has(p) && exists|i: int|
        {
            &&& 0 <= i < g.terms(p).len()
            &&& (#[trigger] g.terms(p)[i]).op == OpV::FuncApp(f, tys)
            &&& g.terms(p)[i].args.len() == 1
            &&& g.canon(g.terms(p)[i].args[0]) == g.canon(x)
        }
}

/// Some function of one argument tells two classes apart.
pub open spec fn observed_apart(g: Graph, cs: Seq<Ctor>, l: Id, r: Id) -> bool {
    exists|f: FuncId, tys: Seq<TypeV>, p: Id, q: Id|
        #![trigger observes(g, f, tys, l, p), observes(g, f, tys, r, q)]
        {
            &&& observes(g, f, tys, l, p)
            &&& observes(g, f, tys, r, q)
            &&& g.canon(p) != g.canon(q)
            &&& told_apart(g, cs, p, q)
        }
}

/// A list of observations of a class is right and complete.
#[verifier::opaque]
pub open spec fn all_observations(g: Graph, x: Id, obs: Seq<Observation>) -> bool {
    &&& forall|k: int|
        0 <= k < obs.len() ==> observes(
            g,
            (#[trigger] obs[k]).func,
            types_view(obs[k].tys@),
            x,
            obs[k].class,
        )
    &&& forall|f: FuncId, tys: Seq<TypeV>, p: Id| #[trigger]
        observes(g, f, tys, x, p) ==> exists|k: int|
            0 <= k < obs.len() && (#[trigger] obs[k]).func == f && types_view(obs[k].tys@) == tys
                && g.canon(obs[k].class) == g.canon(p)
}

/// The applications of one-argument functions to a class.
pub fn unary_observations(g: &Graph, x: Id) -> (out: Vec<Observation>)
    requires
        g.wf(),
        g.has(x),
    ensures
        all_observations(*g, x, out@),
{
    let parents = g.parents_of(x);
    let cx = g.find(x);
    let mut out: Vec<Observation> = Vec::new();
    let mut i: usize = 0;
    while i < parents.len()
        invariant
            g.wf(),
            g.has(x),
            cx == g.canon(x),
            i <= parents@.len(),
            forall|k: int| 0 <= k < parents@.len() ==> g.has(#[trigger] parents@[k]),
            forall|k: int|
                0 <= k < out@.len() ==> observes(
                    *g,
                    (#[trigger] out@[k]).func,
                    types_view(out@[k].tys@),
                    x,
                    out@[k].class,
                ),
            forall|k: int, j: int|
                #![trigger g.terms(parents@[k])[j]]
                {
                    &&& 0 <= k < i
                    &&& 0 <= j < g.terms(parents@[k]).len()
                    &&& g.terms(parents@[k])[j].op is FuncApp
                    &&& g.terms(parents@[k])[j].args.len() == 1
                    &&& g.canon(g.terms(parents@[k])[j].args[0]) == g.canon(x)
                } ==> recorded(*g, out@, g.terms(parents@[k])[j], parents@[k]),
        decreases parents.len() - i,
    {
        let p = parents[i];
        let ts = g.terms_of(p);
        let mut j: usize = 0;
        while j < ts.len()
            invariant
                g.wf(),
                g.has(x),
                g.has(p),
                cx == g.canon(x),
                i < parents@.len(),
                p == parents@[i as int],
                j <= ts@.len(),
                ts@.len() == g.terms(p).len(),
                forall|k: int| 0 <= k < ts@.len() ==> (#[trigger] ts@[k])@ == g.terms(p)[k],
                forall|k: int| 0 <= k < ts@.len() ==> g.has_all((#[trigger] ts@[k])@.args),
                forall|k: int|
                    0 <= k < out@.len() ==> observes(
                        *g,
                        (#[trigger] out@[k]).func,
                        types_view(out@[k].tys@),
                        x,
                        out@[k].class,
                    ),
                forall|k: int, l: int|
                    #![trigger g.terms(parents@[k])[l]]
                    {
                        &&& 0 <= k < i || (k == i && l < j)
                        &&& 0 <= l < g.terms(parents@[k]).len()
                        &&& g.terms(parents@[k])[l].op is FuncApp
                        &&& g.terms(parents@[k])[l].args.len() == 1
                        &&& g.canon(g.terms(parents@[k])[l].args[0]) == g.canon(x)
                    } ==> recorded(*g, out@, g.terms(parents@[k])[l], parents@[k]),
            decreases ts.len() - j,
        {
            let ghost before = out@;
            let ghost n = g.terms(p)[j as int];
            proof {
                assert(g.has_all(ts@[j as int]@.args));
            }
            if let Symbolic::FuncApp(f, tys, args) = &ts[j] {
                if args.len() == 1 {
                    proof {
                        assert(g.has(n.args[0]));
                    }
                    if g.find(args[0]) == cx {
                        let o = Observation { func: *f, tys: clone_types(tys), class: p };
                        out.push(o);
                        proof {
                            assert(observes(*g, *f, types_view(tys@), x, p)) by {
                                assert(g.terms(p)[j as int].op == OpV::FuncApp(
                                    *f,
                                    types_view(tys@),
                                ));
                            }
                            assert(out@[before.len() as int] == o);
                            assert(recorded(*g, out@, n, p));
                        }
                    }
                }
            }
            proof {
                assert forall|k: int, l: int|
                    #![trigger g.terms(parents@[k])[l]]
                    {
                        &&& 0 <= k < i || (k == i && l < j + 1)
                        &&& 0 <= l < g.terms(parents@[k]).len()
                        &&& g.terms(parents@[k])[l].op is FuncApp
                        &&& g.terms(parents@[k])[l].args.len() == 1
                        &&& g.canon(g.terms(parents@[k])[l].args[0]) == g.canon(x)
                    } implies recorded(*g, out@, g.terms(parents@[k])[l], parents@[k]) by {
                    if k < i || l < j {
                        lemma_recorded_grows(*g, before, out@, g.terms(parents@[k])[l], parents@[k]);
                    }
                }
            }
            j += 1;
        }
        i += 1;
    }
    proof {
        reveal(all_observations);
        assert forall|f: FuncId, tys: Seq<TypeV>, p: Id| #[trigger]
            observes(*g, f, tys, x, p) implies exists|k: int|
            0 <= k < out@.len() && (#[trigger] out@[k]).func == f && types_view(out@[k].tys@) == tys
                && g.canon(out@[k].class) == g.canon(p) by {
            let l = choose|l: int|
                {
                    &&& 0 <= l < g.terms(p).len()
                    &&& (#[trigger] g.terms(p)[l]).op == OpV::FuncApp(f, tys)
                    &&& g.terms(p)[l].args.len() == 1
                    &&& g.canon(g.terms(p)[l].args[0]) == g.canon(x)
                };
            let k = choose|k: int|
                0 <= k < parents@.len() && g.canon(#[trigger] parents@[k]) == g.canon(p);
            assert(g.terms(parents@[k]) == g.terms(p)) by {
                lemma_terms_of_canon(*g, parents@[k], p);
            }
            assert(g.terms(parents@[k])[l].op is FuncApp);
            assert(recorded(*g, out@, g.terms(parents@[k])[l], parents@[k]));
        }
    }
    out
}

proof fn lemma_terms_of_canon(g: Graph, a: Id, b: Id)
    requires
        g.wf(),
        g.has(a),
        g.has(b),
        g.canon(a) == g.canon(b),
    ensures
        g.terms(a) == g.terms(b),
{
    crate::graph::lemma_class_terms(g, a, b);
}

/// The term `n` of the class `p` is among the observations.
spec fn recorded(g: Graph, obs: Seq<Observation>, n: Node, p: Id) -> bool {
    exists|k: int|
        0 <= k < obs.len() && OpV::FuncApp((#[trigger] obs[k]).func, types_view(obs[k].tys@))
            == n.op && g.canon(obs[k].class) == g.canon(p)
}

proof fn lemma_recorded_grows(
    g: Graph,
    a: Seq<Observation>,
    b: Seq<Observation>,
    n: Node,
    p: Id,
)
    requires
        recorded(g, a, n, p),
        a.len() <= b.len(),
        forall|k: int| 0 <= k < a.len() ==> b[k] == a[k],
    ensures
        recorded(g, b, n, p),
{
    let k = choose|k: int|
        0 <= k < a.len() && OpV::FuncApp((#[trigger] a[k]).func, types_view(a[k].tys@)) == n.op
            && g.canon(a[k].class) == g.canon(p);
    assert(b[k] == a[k]);
}

proof fn lemma_observation_right(g: Graph, x: Id, obs: Seq<Observation>, k: int)
    requires
        all_observations(g, x, obs),
        0 <= k < obs.len(),
    ensures
        observes(g, obs[k].func, types_view(obs[k].tys@), x, obs[k].class),
{
    reveal(all_observations);
}

proof fn lemma_observation_complete(
    g: Graph,
    x: Id,
    obs: Seq<Observation>,
    f: FuncId,
    tys: Seq<TypeV>,
    p: Id,
) -> (k: int)
    requires
        all_observations(g, x, obs),
        observes(g, f, tys, x, p),
    ensures
        0 <= k < obs.len(),
        obs[k].func == f,
        types_view(obs[k].tys@) == tys,
        g.canon(obs[k].class) == g.canon(p),
{
    reveal(all_observations);
    choose|k: int|
        0 <= k < obs.len() && (#[trigger] obs[k]).func == f && types_view(obs[k].tys@) == tys
            && g.canon(obs[k].class) == g.canon(p)
}

proof fn lemma_none_tells(
    g: Graph,
    cs: Seq<Ctor>,
    l: Id,
    r: Id,
    left: Seq<Observation>,
    right: Seq<Observation>,
)
    requires
        g.wf(),
        all_observations(g, l, left),
        all_observations(g, r, right),
        forall|a: int, b: int|
            0 <= a < left.len() && 0 <= b < right.len() ==> !tells(
                g,
                cs,
                #[trigger] left[a],
                #[trigger] right[b],
            ),
    ensures
        !observed_apart(g, cs, l, r),
{
    if observed_apart(g, cs, l, r) {
        let (f, tys, p, q) = choose|f: FuncId, tys: Seq<TypeV>, p: Id, q: Id|
            #![trigger observes(g, f, tys, l, p), observes(g, f, tys, r, q)]
            {
                &&& observes(g, f, tys, l, p)
                &&& observes(g, f, tys, r, q)
                &&& g.canon(p) != g.canon(q)
                &&& told_apart(g, cs, p, q)
            };
        let a = lemma_observation_complete(g, l, left, f, tys, p);
        let b = lemma_observation_complete(g, r, right, f, tys, q);
        lemma_observation_right(g, l, left, a);
        lemma_observation_right(g, r, right, b);
        lemma_terms_of_canon(g, left[a].class, p);
        lemma_terms_of_canon(g, right[b].class, q);
        assert(tells(g, cs, left[a], right[b]));
    }
}

/// Whether some function of one argument tells two classes apart.
fn observe_apart(g: &Graph, cs: &Vec<Ctor>, l: Id, r: Id) -> (found: bool)
    requires
        g.wf(),
        g.has(l),
        g.has(r),
    ensures
        found == observed_apart(*g, cs@, l, r),
{
    let left = unary_observations(g, l);
    let right = unary_observations(g, r);
    let mut i: usize = 0;
    while i < right.len()
        invariant
            g.wf(),
            all_observations(*g, l, left@),
            all_observations(*g, r, right@),
            i <= right@.len(),
            forall|a: int, b: int|
                0 <= a < left@.len() && 0 <= b < i ==> !tells(
                    *g,
                    cs@,
                    #[trigger] left@[a],
                    #[trigger] right@[b],
                ),
        decreases right.len() - i,
    {
        let mut j: usize = 0;
        while j < left.len()
            invariant
                g.wf(),
                all_observations(*g, l, left@),
                all_observations(*g, r, right@),
                i < right@.len(),
                j <= left@.len(),
                forall|a: int|
                    0 <= a < j ==> !tells(*g, cs@, #[trigger] left@[a], right@[i as int]),
            decreases left.len() - j,
        {
            let a = &left[j];
            let b = &right[i];
            proof {
                lemma_observation_right(*g, l, left@, j as int);
                lemma_observation_right(*g, r, right@, i as int);
            }
            if a.func == b.func && same_types(&a.tys, &b.tys) && g.find(a.class) != g.find(b.class)
                && apart(g, cs, a.class, b.class) {
                proof {
                    assert(observes(*g, a.func, types_view(a.tys@), l, a.class));
                    assert(observes(*g, a.func, types_view(a.tys@), r, b.class));
                }
                return true;
            }
            j += 1;
        }
        i += 1;
    }
    proof {
        lemma_none_tells(*g, cs@, l, r, left@, right@);
    }
    false
}

/// Two observations of one function that fingerprints tell apart.
spec fn tells(g: Graph, cs: Seq<Ctor>, a: Observation, b: Observation) -> bool {
    &&& a.func == b.func
    &&& types_view(a.tys@) == types_view(b.tys@)
    &&& g.canon(a.class) != g.canon(b.class)
    &&& told_apart(g, cs, a.class, b.class)
}

/// The canonical operand pairs of the equalities among terms, each once, without those
/// whose operands are in one class.
pub open spec fn operand_pairs(g: Graph, ts: Seq<Node>) -> Seq<(Id, Id)>
    decreases ts.len(),
{
    if ts.len() == 0 {
        Seq::empty()
    } else {
        let front = operand_pairs(g, ts.drop_last());
        let n = ts.last();
        if n.op == OpV::Binary(BinOp::Eq) && n.args.len() == 2 && g.canon(n.args[0]) != g.canon(
            n.args[1],
        ) && !front.contains((g.canon(n.args[0]), g.canon(n.args[1]))) {
            front.push((g.canon(n.args[0]), g.canon(n.args[1])))
        } else {
            front
        }
    }
}

/// A pair of classes, with how many terms have each among their children. The numbers
/// only grow, so equal ones mean that no new observation can have appeared.
pub type StampIdent = (Id, Id, nat, nat);

pub open spec fn stamp(g: Graph, p: (Id, Id)) -> StampIdent {
    (p.0, p.1, g.parents(p.0).len(), g.parents(p.1).len())
}

#[derive(Debug, Clone, Copy, PartialEq, Eq, Hash, Structural)]
pub struct StampKey {
    pub l: Id,
    pub r: Id,
    pub left: usize,
    pub right: usize,
}

impl MemoKey for StampKey {
    type Ident = StampIdent;

    open spec fn ident(&self) -> StampIdent {
        (self.l, self.r, self.left as nat, self.right as nat)
    }

    fn same(&self, other: &Self) -> (r: bool) {
        self.l == other.l && self.r == other.r && self.left == other.left && self.right
            == other.right
    }
}

/// An undecided equality with an operand pair, not scanned before, that some function
/// tells apart.
pub open spec fn refutable(
    g: Graph,
    cs: Seq<Ctor>,
    class: Id,
    seen: spec_fn(StampIdent) -> bool,
) -> bool {
    let pairs = operand_pairs(g, g.terms(class));
    g.known_truth(class) is None && exists|i: int|
        0 <= i < pairs.len() && !seen(stamp(g, #[trigger] pairs[i])) && observed_apart(
            g,
            cs,
            pairs[i].0,
            pairs[i].1,
        )
}

fn find_pairs(g: &Graph, class: Id) -> (out: Vec<(Id, Id)>)
    requires
        g.wf(),
        g.has(class),
    ensures
        out@ == operand_pairs(*g, g.terms(class)),
        forall|k: int| 0 <= k < out@.len() ==> g.has((#[trigger] out@[k]).0) && g.has(out@[k].1),
{
    let ts = g.terms_of(class);
    let ghost all = g.terms(class);
    let mut out: Vec<(Id, Id)> = Vec::new();
    let mut i: usize = 0;
    proof {
        assert(all.take(0) =~= Seq::<Node>::empty());
    }
    while i < ts.len()
        invariant
            g.wf(),
            i <= ts@.len(),
            ts@.len() == all.len(),
            forall|k: int| 0 <= k < ts@.len() ==> (#[trigger] ts@[k])@ == all[k],
            forall|k: int| 0 <= k < ts@.len() ==> g.has_all((#[trigger] ts@[k])@.args),
            out@ == operand_pairs(*g, all.take(i as int)),
            forall|k: int|
                0 <= k < out@.len() ==> g.has((#[trigger] out@[k]).0) && g.has(out@[k].1),
        decreases ts.len() - i,
    {
        proof {
            assert(all.take(i + 1).drop_last() =~= all.take(i as int));
            assert(all.take(i + 1).last() == all[i as int]);
            assert(g.has_all(ts@[i as int]@.args));
        }
        match &ts[i] {
            Symbolic::Binary(BinOp::Eq, ids) => {
                proof {
                    assert(g.has(all[i as int].args[0]));
                    assert(g.has(all[i as int].args[1]));
                }
                let l = g.find(ids[0]);
                let r = g.find(ids[1]);
                let mut known: bool = false;
                let mut k: usize = 0;
                while k < out.len()
                    invariant
                        k <= out@.len(),
                        known == exists|j: int| 0 <= j < k && #[trigger] out@[j] == (l, r),
                    decreases out.len() - k,
                {
                    if out[k].0 == l && out[k].1 == r {
                        known = true;
                        proof {
                            assert(out@[k as int] == (l, r));
                        }
                    }
                    k += 1;
                }
                proof {
                    assert(known == out@.contains((l, r)));
                }
                if l != r && !known {
                    out.push((l, r));
                }
            },
            _ => {},
        }
        i += 1;
    }
    proof {
        assert(all.take(all.len() as int) =~= all);
    }
    out
}

/// The rule. A scan that found nothing is remembered until an operand gains a parent.
pub struct DistinguishingObsApplier {
    pub memo: Memo<StampKey>,
}

impl DistinguishingObsApplier {
    /// Refutes the class where an observation does, and gives the classes that
    /// changed.
    pub fn apply_one(&mut self, s: &Scopes, g: &mut Graph, cs: &Vec<Ctor>, class: Id) -> (changed:
        Vec<Id>)
        requires
            old(g).wf(),
            old(g).has(class),
        ensures
            asserted(
                *old(g),
                *final(g),
                fact_if(
                    refutable(
                        *old(g),
                        cs@,
                        class,
                        |v: StampIdent| old(self).memo.seen(*s, v),
                    ),
                    (Tm::Class(class), t_bool(false)),
                ),
            ),
            changed@.len() == 0 ==> keeps_classes(*old(g), *final(g)),
            changed@.len() > 0 ==> merges(*old(g), *final(g)),
    {
        let ghost m0 = self.memo;
        let ghost seen = |v: StampIdent| m0.seen(*s, v);
        let mut refuted: bool = false;
        if g.known_bool(class).is_none() {
            let pairs = find_pairs(g, class);
            let mut i: usize = 0;
            while i < pairs.len() && !refuted
                invariant
                    g.wf(),
                    g.known_truth(class) is None,
                    *g == *old(g),
                    i <= pairs@.len(),
                    pairs@ == operand_pairs(*g, g.terms(class)),
                    forall|k: int|
                        0 <= k < pairs@.len() ==> g.has((#[trigger] pairs@[k]).0) && g.has(
                            pairs@[k].1,
                        ),
                    forall|v: StampIdent| #[trigger]
                        self.memo.seen(*s, v) == (m0.seen(*s, v) || exists|j: int|
                            0 <= j < i && stamp(*g, #[trigger] pairs@[j]) == v),
                    refuted == exists|j: int|
                        0 <= j < i && !m0.seen(*s, stamp(*g, #[trigger] pairs@[j]))
                            && observed_apart(*g, cs@, pairs@[j].0, pairs@[j].1),
                decreases pairs.len() - i,
            {
                let (l, r) = pairs[i];
                let nl: usize = g.parents_of(l).len();
                let nr: usize = g.parents_of(r).len();
                let ghost m1 = self.memo;
                let ghost v0 = stamp(*g, pairs@[i as int]);
                proof {
                    lemma_pairs_distinct(*g, g.terms(class));
                    assert(m1.seen(*s, v0) == m0.seen(*s, v0)) by {
                        if exists|j: int| 0 <= j < i && stamp(*g, #[trigger] pairs@[j]) == v0 {
                            let j = choose|j: int|
                                0 <= j < i && stamp(*g, #[trigger] pairs@[j]) == v0;
                            assert(pairs@[j] == pairs@[i as int]);
                        }
                    }
                }
                let fresh = self.memo.insert(s, StampKey { l, r, left: nl, right: nr });
                if fresh {
                    if observe_apart(g, cs, l, r) {
                        refuted = true;
                        proof {
                            assert(observed_apart(
                                *g,
                                cs@,
                                pairs@[i as int].0,
                                pairs@[i as int].1,
                            ));
                        }
                    }
                }
                proof {
                    assert forall|v: StampIdent| #[trigger]
                        self.memo.seen(*s, v) == (m0.seen(*s, v) || exists|j: int|
                            0 <= j < i + 1 && stamp(*g, #[trigger] pairs@[j]) == v) by {
                        assert(self.memo.seen(*s, v) == (m1.seen(*s, v) || v == v0));
                        if v == v0 {
                            assert(stamp(*g, pairs@[i as int]) == v);
                        }
                        if exists|j: int| 0 <= j < i && stamp(*g, #[trigger] pairs@[j]) == v {
                            let j = choose|j: int|
                                0 <= j < i && stamp(*g, #[trigger] pairs@[j]) == v;
                            assert(0 <= j < i + 1 && stamp(*g, pairs@[j]) == v);
                        }
                        if exists|j: int| 0 <= j < i + 1 && stamp(*g, #[trigger] pairs@[j]) == v {
                            let j = choose|j: int|
                                0 <= j < i + 1 && stamp(*g, #[trigger] pairs@[j]) == v;
                            if j < i {
                                assert(0 <= j < i && stamp(*g, pairs@[j]) == v);
                            }
                        }
                    }
                }
                i += 1;
            }
            proof {
                let ps = operand_pairs(*g, g.terms(class));
                assert(refuted == refutable(*g, cs@, class, seen)) by {
                    if refuted {
                        let j = choose|j: int|
                            0 <= j < i && !m0.seen(*s, stamp(*g, #[trigger] pairs@[j]))
                                && observed_apart(*g, cs@, pairs@[j].0, pairs@[j].1);
                        assert(!seen(stamp(*g, ps[j])));
                    }
                    if refutable(*g, cs@, class, seen) {
                        let j = choose|j: int|
                            0 <= j < ps.len() && !seen(stamp(*g, #[trigger] ps[j]))
                                && observed_apart(*g, cs@, ps[j].0, ps[j].1);
                        assert(!m0.seen(*s, stamp(*g, pairs@[j])));
                    }
                }
            }
        }
        let mut pins = empty_pins();
        push_if(&mut pins, refuted, Pin::truth(class, false));
        proof {
            assert(seen =~= |v: StampIdent| old(self).memo.seen(*s, v));
            assert(pin_facts(pins@) =~= fact_if(refuted, (Tm::Class(class), t_bool(false))));
        }
        assert_pins(g, &pins)
    }
}

proof fn lemma_pairs_distinct(g: Graph, ts: Seq<Node>)
    ensures
        forall|i: int, j: int|
            0 <= i < j < operand_pairs(g, ts).len() ==> (#[trigger] operand_pairs(g, ts)[i]) != (
            #[trigger] operand_pairs(g, ts)[j]),
    decreases ts.len(),
{
    if ts.len() > 0 {
        lemma_pairs_distinct(g, ts.drop_last());
        let front = operand_pairs(g, ts.drop_last());
        let all = operand_pairs(g, ts);
        assert forall|i: int, j: int| 0 <= i < j < all.len() implies (#[trigger] all[i]) != (
        #[trigger] all[j]) by {
            assert(all[i] == front[i]);
            if j < front.len() {
                assert(all[j] == front[j]);
            } else {
                assert(front.contains(front[i]));
            }
        }
    }
}

proof fn lemma_pair_origin(g: Graph, ts: Seq<Node>, i: int) -> (k: int)
    requires
        0 <= i < operand_pairs(g, ts).len(),
    ensures
        0 <= k < ts.len(),
        ts[k].op == OpV::Binary(BinOp::Eq),
        ts[k].args.len() == 2,
        operand_pairs(g, ts)[i] == (g.canon(ts[k].args[0]), g.canon(ts[k].args[1])),
    decreases ts.len(),
{
    let front = operand_pairs(g, ts.drop_last());
    if i < front.len() {
        assert(operand_pairs(g, ts)[i] == front[i]);
        lemma_pair_origin(g, ts.drop_last(), i)
    } else {
        ts.len() - 1
    }
}

/// Classes that an observation tells apart have different values in every model in
/// which variants are distinct.
pub proof fn lemma_observed_apart(g: Graph, cs: Seq<Ctor>, m: Model, l: Id, r: Id)
    requires
        g.wf(),
        g.models(m),
        distinct_variants(cs, m),
        g.has(l),
        g.has(r),
        observed_apart(g, cs, l, r),
    ensures
        m.at(l) != m.at(r),
{
    let (f, tys, p, q) = choose|f: FuncId, tys: Seq<TypeV>, p: Id, q: Id|
        #![trigger observes(g, f, tys, l, p), observes(g, f, tys, r, q)]
        {
            &&& observes(g, f, tys, l, p)
            &&& observes(g, f, tys, r, q)
            &&& g.canon(p) != g.canon(q)
            &&& told_apart(g, cs, p, q)
        };
    lemma_told_apart(g, cs, m, p, q);
    lemma_observed_value(g, m, f, tys, l, p);
    lemma_observed_value(g, m, f, tys, r, q);
}

proof fn lemma_observed_value(g: Graph, m: Model, f: FuncId, tys: Seq<TypeV>, x: Id, p: Id)
    requires
        g.wf(),
        g.models(m),
        g.has(x),
        observes(g, f, tys, x, p),
    ensures
        m.at(p) == (m.func)(f, tys, seq![m.at(x)]),
{
    let i = choose|i: int|
        {
            &&& 0 <= i < g.terms(p).len()
            &&& (#[trigger] g.terms(p)[i]).op == OpV::FuncApp(f, tys)
            &&& g.terms(p)[i].args.len() == 1
            &&& g.canon(g.terms(p)[i].args[0]) == g.canon(x)
        };
    lemma_term_value(g, m, p, i);
    let a = g.terms(p)[i].args[0];
    assert(g.has(a));
    crate::graph::lemma_same_class(g, m, a, x);
    assert(m.all(g.terms(p)[i].args) =~= seq![m.at(x)]);
}

/// Refutation by observation is sound: it is the contrapositive of congruence, so it
/// holds for any function.
pub proof fn law_observe_sound(
    g: Graph,
    cs: Seq<Ctor>,
    m: Model,
    class: Id,
    seen: spec_fn(StampIdent) -> bool,
)
    requires
        g.wf(),
        g.models(m),
        distinct_variants(cs, m),
        g.has(class),
        refutable(g, cs, class, seen),
    ensures
        m.is(class, false),
{
    let pairs = operand_pairs(g, g.terms(class));
    let i = choose|i: int|
        0 <= i < pairs.len() && !seen(stamp(g, #[trigger] pairs[i])) && observed_apart(
            g,
            cs,
            pairs[i].0,
            pairs[i].1,
        );
    let k = lemma_pair_origin(g, g.terms(class), i);
    lemma_eq_term(g, m, class, k);
    let n = g.terms(class)[k];
    lemma_canon_value(g, m, n.args[0]);
    lemma_canon_value(g, m, n.args[1]);
    lemma_observed_apart(g, cs, m, pairs[i].0, pairs[i].1);
}

} // verus!
