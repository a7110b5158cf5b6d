//! What it means that a step of rewriting is sound.

use crate::graph::{lemma_defs_in, lemma_same_class, lemma_spelled, lemma_terms_in, Graph};
use crate::lang::{Id, Node, OpV};
use crate::model::{equation_holds, same_sort, theory, Model, Tm};
use crate::rewrite::arith::sorted_equalities;
use crate::rewrite::gather::all_hold;
use crate::rewrite::pins::asserted;
use crate::vmir::BinOp;
use vstd::prelude::*;

verus! {

/// Every equality that is defined compares values of one sort.
pub open spec fn well_sorted(defs: Seq<Node>, m: Model) -> bool {
    forall|i: int|
        0 <= i < defs.len() && (#[trigger] defs[i]).op == OpV::Binary(BinOp::Eq)
            && defs[i].args.len() == 2 ==> same_sort(m.at(defs[i].args[0]), m.at(defs[i].args[1]))
}

/// What `h` asserts beyond `g` follows from `g`, from the definitions that were
/// added, and from a background `b`. A full graph claims nothing.
pub open spec fn follows(g: Graph, h: Graph, b: spec_fn(Model) -> bool) -> bool {
    h.full() || forall|m: Model|
        #![trigger theory(h.defs(), g.facts(), m)]
        theory(h.defs(), g.facts(), m) && well_sorted(h.defs(), m) && b(m) ==> h.models(m)
}

pub proof fn lemma_sorted_prefix(defs: Seq<Node>, more: Seq<Node>, m: Model)
    requires
        well_sorted(more, m),
        defs.is_prefix_of(more),
    ensures
        well_sorted(defs, m),
{
    assert(forall|i: int| 0 <= i < defs.len() ==> defs[i] == more[i]);
}

/// The equalities that a class lists compare values of one sort.
pub proof fn lemma_sorted_class(g: Graph, m: Model, class: Id)
    requires
        g.wf(),
        g.models(m),
        well_sorted(g.defs(), m),
        g.has(class),
    ensures
        sorted_equalities(g, m, class),
{
    assert forall|k: int|
        0 <= k < g.terms(class).len() && (#[trigger] g.terms(class)[k]).op == OpV::Binary(BinOp::Eq)
            && g.terms(class)[k].args.len() == 2 implies same_sort(
        m.at(g.terms(class)[k].args[0]),
        m.at(g.terms(class)[k].args[1]),
    ) by {
        let n = g.terms(class)[k];
        let i = lemma_spelled(g, class, k);
        lemma_terms_in(g, class, k);
        lemma_defs_in(g, i);
        let d = g.defs()[i];
        assert(g.has(n.args[0]) && g.has(n.args[1]));
        assert(g.has(d.args[0]) && g.has(d.args[1]));
        lemma_same_class(g, m, d.args[0], n.args[0]);
        lemma_same_class(g, m, d.args[1], n.args[1]);
    }
}

pub proof fn lemma_theory_prefix(defs: Seq<Node>, more: Seq<Node>, facts: Seq<(Tm, Tm)>, m: Model)
    requires
        theory(more, facts, m),
        defs.is_prefix_of(more),
    ensures
        theory(defs, facts, m),
{
    assert(forall|i: int| 0 <= i < defs.len() ==> defs[i] == more[i]);
}

pub proof fn lemma_theory_grows(defs: Seq<Node>, facts: Seq<(Tm, Tm)>, more: Seq<(Tm, Tm)>, m: Model)
    requires
        theory(defs, facts, m),
        all_hold(m, more),
    ensures
        theory(defs, facts + more, m),
{
    assert forall|i: int| 0 <= i < (facts + more).len() implies equation_holds(
        m,
        #[trigger] (facts + more)[i],
    ) by {
        if i < facts.len() {
            assert((facts + more)[i] == facts[i]);
        } else {
            assert((facts + more)[i] == more[i - facts.len()]);
        }
    }
}

/// Nothing asserted is sound.
pub proof fn lemma_follows_same(g: Graph, h: Graph, b: spec_fn(Model) -> bool)
    requires
        h.facts() == g.facts(),
    ensures
        follows(g, h, b),
{
}

/// Sound steps compose.
pub proof fn lemma_follows_trans(g: Graph, h: Graph, k: Graph, b: spec_fn(Model) -> bool)
    requires
        follows(g, h, b),
        follows(h, k, b),
        g.grows_to(h),
        h.grows_to(k),
    ensures
        follows(g, k, b),
{
    if !k.full() {
        assert forall|m: Model|
            #![trigger theory(k.defs(), g.facts(), m)]
            theory(k.defs(), g.facts(), m) && well_sorted(k.defs(), m) && b(m) implies k.models(
            m,
        ) by {
            lemma_theory_prefix(h.defs(), k.defs(), g.facts(), m);
            lemma_sorted_prefix(h.defs(), k.defs(), m);
            assert(h.models(m));
            assert(theory(k.defs(), h.facts(), m));
        }
    }
}

/// Asserting equations that hold in every model of the graph is sound.
pub proof fn lemma_follows_asserted(
    g: Graph,
    h: Graph,
    facts: Seq<(Tm, Tm)>,
    b: spec_fn(Model) -> bool,
)
    requires
        asserted(g, h, facts),
        forall|m: Model| #[trigger]
            g.models(m) && well_sorted(g.defs(), m) && b(m) ==> all_hold(m, facts),
    ensures
        follows(g, h, b),
{
    if !h.full() {
        assert forall|m: Model|
            #![trigger theory(h.defs(), g.facts(), m)]
            theory(h.defs(), g.facts(), m) && well_sorted(h.defs(), m) && b(m) implies h.models(
            m,
        ) by {
            lemma_theory_prefix(g.defs(), h.defs(), g.facts(), m);
            lemma_sorted_prefix(g.defs(), h.defs(), m);
            assert(g.models(m));
            lemma_theory_grows(h.defs(), g.facts(), facts, m);
        }
    }
}

} // verus!
