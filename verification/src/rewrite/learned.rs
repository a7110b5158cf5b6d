//! What a graph learns beyond what follows from it.

use crate::graph::Graph;
use crate::lang::Node;
use crate::model::{theory, Model, Tm};
use crate::rewrite::gather::{all_hold, lemma_all_hold_concat};
use crate::rewrite::pins::asserted;
use crate::rewrite::sound::{
    follows, lemma_sorted_prefix, lemma_theory_grows, lemma_theory_prefix, well_sorted,
};
use crate::terms::group_grows;
use vstd::prelude::*;

verus! {

/// `h` holds what `g` holds, the equations `facts`, what follows from them and the
/// background, and nothing else. A full graph claims nothing.
pub open spec fn learned(
    g: Graph,
    h: Graph,
    b: spec_fn(Model) -> bool,
    facts: Seq<(Tm, Tm)>,
) -> bool {
    h.full() || {
        &&& forall|m: Model|
            #![trigger theory(h.defs(), g.facts(), m)]
            theory(h.defs(), g.facts(), m) && well_sorted(h.defs(), m) && b(m) && all_hold(m, facts)
                ==> h.models(m)
        &&& forall|m: Model| #[trigger] h.models(m) ==> all_hold(m, facts)
    }
}

pub proof fn lemma_learned_asserted(
    g: Graph,
    h: Graph,
    b: spec_fn(Model) -> bool,
    facts: Seq<(Tm, Tm)>,
)
    requires
        asserted(g, h, facts),
    ensures
        learned(g, h, b, facts),
{
    if !h.full() {
        assert forall|m: Model|
            #![trigger theory(h.defs(), g.facts(), m)]
            theory(h.defs(), g.facts(), m) && well_sorted(h.defs(), m) && b(m) && all_hold(
                m,
                facts,
            ) implies h.models(m) by {
            lemma_theory_grows(h.defs(), g.facts(), facts, m);
        }
        assert forall|m: Model| #[trigger] h.models(m) implies all_hold(m, facts) by {
            let all = g.facts() + facts;
            assert forall|i: int| 0 <= i < facts.len() implies crate::model::equation_holds(
                m,
                #[trigger] facts[i],
            ) by {
                assert(all[g.facts().len() + i] == facts[i]);
            }
        }
    }
}

pub proof fn lemma_learned_follows(g: Graph, h: Graph, b: spec_fn(Model) -> bool)
    requires
        follows(g, h, b),
    ensures
        learned(g, h, b, Seq::empty()),
{
}

pub proof fn lemma_learned_trans(
    g: Graph,
    h: Graph,
    k: Graph,
    b: spec_fn(Model) -> bool,
    p: Seq<(Tm, Tm)>,
    q: Seq<(Tm, Tm)>,
)
    requires
        learned(g, h, b, p),
        learned(h, k, b, q),
        g.grows_to(h),
        h.grows_to(k),
    ensures
        learned(g, k, b, p + q),
{
    broadcast use group_grows;

    if !k.full() {
        assert forall|m: Model|
            #![trigger theory(k.defs(), g.facts(), m)]
            theory(k.defs(), g.facts(), m) && well_sorted(k.defs(), m) && b(m) && all_hold(
                m,
                p + q,
            ) implies k.models(m) by {
            assert(all_hold(m, p)) by {
                assert forall|i: int| 0 <= i < p.len() implies crate::model::equation_holds(
                    m,
                    #[trigger] p[i],
                ) by {
                    assert((p + q)[i] == p[i]);
                }
            }
            assert(all_hold(m, q)) by {
                assert forall|i: int| 0 <= i < q.len() implies crate::model::equation_holds(
                    m,
                    #[trigger] q[i],
                ) by {
                    assert((p + q)[p.len() + i] == q[i]);
                }
            }
            lemma_theory_prefix(h.defs(), k.defs(), g.facts(), m);
            lemma_sorted_prefix(h.defs(), k.defs(), m);
            assert(h.models(m));
            assert(theory(k.defs(), h.facts(), m));
        }
        assert forall|m: Model| #[trigger] k.models(m) implies all_hold(m, p + q) by {
            assert(h.models(m));
            lemma_all_hold_concat(m, p, q);
        }
    }
}

/// Two models that interpret everything alike and agree on the first `n` classes.
pub open spec fn agree(m: Model, w: Model, n: nat) -> bool {
    &&& w.fresh == m.fresh
    &&& w.func == m.func
    &&& w.quant == m.quant
    &&& w.div_zero == m.div_zero
    &&& w.mod_zero == m.mod_zero
    &&& w.ratio_zero == m.ratio_zero
    &&& forall|i: crate::lang::Id| i < n ==> #[trigger] w.at(i) == m.at(i)
}

/// Terms built on top of `g` have values that fit the model.
pub open spec fn fits(g: Graph, m: Model, defs: Seq<Node>) -> bool {
    exists|w: Model| #[trigger]
        agree(m, w, g.len()) && theory(defs, g.facts(), w) && well_sorted(defs, w)
}

/// The terms of each list, built on top of `g`, have values that fit the model.
pub open spec fn evaluable(g: Graph, m: Model, dss: Seq<Seq<Node>>) -> bool {
    forall|j: int| 0 <= j < dss.len() ==> #[trigger] fits(g, m, dss[j])
}

} // verus!
