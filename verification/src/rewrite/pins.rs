//! Equations that a rule derived, and asserting them.

use crate::graph::{coarser, keeps_classes, Graph};
use crate::lang::Id;
use crate::model::{equation_holds, Model, Tm};
use crate::terms::{
    lemma_grows_trans, expr_in, extended, expr_tm, group_grows, lemma_expr_in_grows,
    lemma_grows_denotes, lemma_grows_refl, lemma_keeps_trans, lemma_only_truths,
    only_truths, plain_tm, tied, Expr,
};
use vstd::prelude::*;

verus! {

/// An equation between two terms.
pub struct Pin {
    pub left: Expr,
    pub right: Expr,
}

impl View for Pin {
    type V = (Tm, Tm);

    open spec fn view(&self) -> (Tm, Tm) {
        (expr_tm(self.left), expr_tm(self.right))
    }
}

/// The equations that pins stand for.
pub open spec fn pin_facts(pins: Seq<Pin>) -> Seq<(Tm, Tm)> {
    Seq::new(pins.len(), |i: int| pins[i]@)
}

/// Every class that a pin mentions exists.
pub open spec fn pins_in(pins: Seq<Pin>, g: Graph) -> bool {
    forall|i: int|
        0 <= i < pins.len() ==> expr_in((#[trigger] pins[i]).left, g) && expr_in(pins[i].right, g)
}

/// Every equation holds in every model of the graph.
pub open spec fn entails(g: Graph, facts: Seq<(Tm, Tm)>) -> bool {
    forall|m: Model, i: int|
        #![trigger g.models(m), facts[i]]
        g.models(m) && 0 <= i < facts.len() ==> equation_holds(m, facts[i])
}

/// An id stands for a term.
pub open spec fn spelled(h: Graph, a: Id, t: Tm) -> bool {
    &&& h.has(a)
    &&& h.denotes(a, t)
    &&& tied(a, t)
}

/// The two sides of an equation are in one class.
pub open spec fn merged(h: Graph, f: (Tm, Tm)) -> bool {
    exists|a: Id, b: Id| #[trigger]
        spelled(h, a, f.0) && #[trigger] spelled(h, b, f.1) && h.canon(a) == h.canon(b)
}

/// The two sides of every equation are in one class.
#[verifier::opaque]
pub open spec fn all_merged(h: Graph, facts: Seq<(Tm, Tm)>) -> bool {
    forall|i: int| 0 <= i < facts.len() ==> merged(h, #[trigger] facts[i])
}

/// `h` is `g` with the equations `facts` asserted, in order, unless ids ran out: both
/// sides of each are then in one class.
pub open spec fn asserted(g: Graph, h: Graph, facts: Seq<(Tm, Tm)>) -> bool {
    &&& h.wf()
    &&& g.grows_to(h)
    &&& coarser(g, h)
    &&& h.full() || h.facts() == g.facts() + facts
    &&& h.full() || all_merged(h, facts)
}

impl Pin {
    pub fn new(left: Expr, right: Expr) -> (r: Pin)
        ensures
            r.left == left,
            r.right == right,
    {
        Pin { left, right }
    }

    /// A class is a truth value.
    pub fn truth(id: Id, b: bool) -> (r: Pin)
        ensures
            r@ == (Tm::Class(id), crate::model::t_bool(b)),
            forall|g: Graph| g.has(id) ==> #[trigger] expr_in(r.left, g),
            forall|g: Graph| #[trigger] expr_in(r.right, g),
    {
        Pin { left: Expr::Class(id), right: Expr::boolean(b) }
    }

    /// Two classes are equal.
    pub fn same(a: Id, b: Id) -> (r: Pin)
        ensures
            r@ == (Tm::Class(a), Tm::Class(b)),
            forall|g: Graph| g.has(a) ==> #[trigger] expr_in(r.left, g),
            forall|g: Graph| g.has(b) ==> #[trigger] expr_in(r.right, g),
    {
        Pin { left: Expr::Class(a), right: Expr::Class(b) }
    }
}

pub proof fn lemma_coarser_trans(g: Graph, h: Graph, k: Graph)
    requires
        coarser(g, h),
        coarser(h, k),
        g.len() <= h.len(),
    ensures
        coarser(g, k),
{
    assert forall|i: Id, j: Id|
        #![trigger k.canon(i), k.canon(j)]
        g.has(i) && g.has(j) && g.canon(i) == g.canon(j) implies k.canon(i) == k.canon(j) by {
        assert(h.canon(i) == h.canon(j));
    }
}

pub proof fn lemma_keeps_coarser(g: Graph, h: Graph)
    requires
        keeps_classes(g, h),
    ensures
        coarser(g, h),
{
    assert forall|i: Id, j: Id|
        #![trigger h.canon(i), h.canon(j)]
        g.has(i) && g.has(j) && g.canon(i) == g.canon(j) implies h.canon(i) == h.canon(j) by {
        assert(h.canon(i) == g.canon(i));
        assert(h.canon(j) == g.canon(j));
    }
}

/// What is in one class stays in one.
pub proof fn lemma_merged_later(h: Graph, k: Graph, facts: Seq<(Tm, Tm)>)
    requires
        h.grows_to(k),
        coarser(h, k),
        all_merged(h, facts),
    ensures
        all_merged(k, facts),
{
    reveal(all_merged);
    assert forall|i: int| 0 <= i < facts.len() implies merged(k, #[trigger] facts[i]) by {
        let f = facts[i];
        let (a, b) = choose|a: Id, b: Id| #[trigger]
            spelled(h, a, f.0) && #[trigger] spelled(h, b, f.1) && h.canon(a) == h.canon(b);
        lemma_spelled_later(h, k, a, f.0);
        lemma_spelled_later(h, k, b, f.1);
        assert(k.canon(a) == k.canon(b));
    }
}

pub proof fn lemma_spelled_later(h: Graph, k: Graph, a: Id, t: Tm)
    requires
        h.grows_to(k),
        coarser(h, k),
        spelled(h, a, t),
    ensures
        spelled(k, a, t),
{
    broadcast use group_grows;

    lemma_grows_denotes(h, k, a, t);
}

/// Asserting two lists in turn asserts both.
pub proof fn lemma_asserted_trans(
    g: Graph,
    h: Graph,
    k: Graph,
    a: Seq<(Tm, Tm)>,
    b: Seq<(Tm, Tm)>,
)
    requires
        asserted(g, h, a),
        asserted(h, k, b),
    ensures
        asserted(g, k, a + b),
{
    lemma_grows_trans(g, h, k);
    lemma_coarser_trans(g, h, k);
    assert((g.facts() + a) + b =~= g.facts() + (a + b));
    if !k.full() {
        reveal(all_merged);
        lemma_merged_later(h, k, a);
        let all = a + b;
        assert forall|i: int| 0 <= i < all.len() implies merged(k, #[trigger] all[i]) by {
            if i < a.len() {
                assert(all[i] == a[i]);
            } else {
                assert(all[i] == b[i - a.len()]);
            }
        }
    }
}

/// Adding definitions asserts nothing.
pub proof fn lemma_extended_asserted(g: Graph, h: Graph)
    requires
        extended(g, h),
    ensures
        asserted(g, h, Seq::empty()),
{
    reveal(all_merged);
    lemma_keeps_coarser(g, h);
    assert(g.facts() + Seq::<(Tm, Tm)>::empty() =~= g.facts());
}

/// An equation between classes and truth values.
pub open spec fn plain_fact(f: (Tm, Tm)) -> bool {
    plain_tm(f.0) && plain_tm(f.1)
}

/// Equations between classes and truth values.
pub open spec fn plain_facts(facts: Seq<(Tm, Tm)>) -> bool {
    forall|i: int| 0 <= i < facts.len() ==> plain_fact(#[trigger] facts[i])
}

/// Ids share a class in `h` that did not in `g`: classes were merged on the way.
pub open spec fn merges(g: Graph, h: Graph) -> bool {
    exists|a: Id, b: Id| #[trigger] merged_ids(g, h, a, b)
}

/// Two ids share a class in `h`, and did not in `g`.
pub open spec fn merged_ids(g: Graph, h: Graph, a: Id, b: Id) -> bool {
    &&& a != b
    &&& h.has(a)
    &&& h.has(b)
    &&& h.canon(a) == h.canon(b)
    &&& !(g.has(a) && g.has(b) && g.canon(a) == g.canon(b))
}

/// What was merged stays merged.
pub broadcast proof fn lemma_merges_later(g: Graph, h: Graph, k: Graph)
    requires
        #[trigger] merges(g, h),
        h.grows_to(k),
        #[trigger] coarser(h, k),
    ensures
        merges(g, k),
{
    let (a, b) = choose|a: Id, b: Id| #[trigger] merged_ids(g, h, a, b);
    assert(merged_ids(g, k, a, b));
}

/// What is merged later was not merged before.
pub broadcast proof fn lemma_merges_before(g: Graph, h: Graph, k: Graph)
    requires
        g.grows_to(h),
        #[trigger] coarser(g, h),
        #[trigger] merges(h, k),
    ensures
        merges(g, k),
{
    let (a, b) = choose|a: Id, b: Id| #[trigger] merged_ids(h, k, a, b);
    assert(merged_ids(g, k, a, b));
}

/// Asserts one equation; says whether its two sides were in different classes.
pub fn assert_pin(g: &mut Graph, pin: &Pin) -> (r: Option<Id>)
    requires
        old(g).wf(),
        expr_in(pin.left, *old(g)),
        expr_in(pin.right, *old(g)),
    ensures
        asserted(*old(g), *final(g), seq![pin@]),
        r is None ==> keeps_classes(*old(g), *final(g)),
        r is Some ==> merges(*old(g), *final(g)),
        plain_fact(pin@) ==> only_truths(*old(g), *final(g)),
        r matches Some(id) ==> final(g).has(id) && final(g).canon(id) == id,
{
    broadcast use group_grows;

    let ghost g0 = *g;
    let a = g.build(&pin.left);
    let ghost g1 = *g;
    proof {
        lemma_expr_in_grows(pin.right, g0, g1);
    }
    let b = g.build(&pin.right);
    let ghost g2 = *g;
    let news = g.state(a, b, Ghost(expr_tm(pin.left)), Ghost(expr_tm(pin.right)));
    proof {
        if plain_fact(pin@) {
            lemma_only_truths(g0, g1, g2);
        }
        lemma_keeps_trans(g0, g1, g2);
        lemma_keeps_coarser(g0, g2);
        lemma_coarser_trans(g0, g2, *g);
        assert(g0.facts().push(pin@) =~= g0.facts() + seq![pin@]);
        if news {
            assert(merged_ids(g2, *g, a, b));
            lemma_merges_before(g0, g2, *g);
        }
        if !g.full() {
            reveal(all_merged);
            assert(spelled(*g, a, pin@.0) && spelled(*g, b, pin@.1));
            assert(merged(*g, seq![pin@][0]));
        }
        if !news {
            if g2.full() {
                lemma_grows_refl(g2);
            }
            lemma_keeps_trans(g0, g2, *g);
        }
    }
    if news {
        Some(g.find(a))
    } else {
        None
    }
}

/// Asserts equations in order, and gives the classes that changed.
pub fn assert_pins(g: &mut Graph, pins: &Vec<Pin>) -> (changed: Vec<Id>)
    requires
        old(g).wf(),
        pins_in(pins@, *old(g)),
    ensures
        asserted(*old(g), *final(g), pin_facts(pins@)),
        changed@.len() == 0 ==> keeps_classes(*old(g), *final(g)),
        changed@.len() > 0 ==> merges(*old(g), *final(g)),
        plain_facts(pin_facts(pins@)) ==> only_truths(*old(g), *final(g)),
        forall|i: int| 0 <= i < changed@.len() ==> final(g).has(#[trigger] changed@[i]),
{
    broadcast use group_grows;

    let ghost g0 = *g;
    let mut changed: Vec<Id> = Vec::new();
    let mut i: usize = 0;
    proof {
        lemma_grows_refl(g0);
        lemma_keeps_coarser(g0, g0);
        assert(g0.facts() + pin_facts(pins@).take(0) =~= g0.facts());
        reveal(all_merged);
    }
    while i < pins.len()
        invariant
            i <= pins@.len(),
            pins_in(pins@, g0),
            asserted(g0, *g, pin_facts(pins@).take(i as int)),
            changed@.len() == 0 ==> keeps_classes(g0, *g),
            changed@.len() > 0 ==> merges(g0, *g),
            plain_facts(pin_facts(pins@)) ==> only_truths(g0, *g),
            forall|k: int| 0 <= k < changed@.len() ==> g.has(#[trigger] changed@[k]),
        decreases pins.len() - i,
    {
        let ghost g1 = *g;
        proof {
            lemma_expr_in_grows(pins@[i as int].left, g0, g1);
            lemma_expr_in_grows(pins@[i as int].right, g0, g1);
        }
        let news = assert_pin(g, &pins[i]);
        proof {
            let all = pin_facts(pins@);
            lemma_asserted_trans(g0, g1, *g, all.take(i as int), seq![all[i as int]]);
            assert(all.take(i as int) + seq![all[i as int]] =~= all.take(i + 1));
            assert(g0.facts() + all.take(i + 1) =~= (g0.facts() + all.take(i as int))
                + seq![all[i as int]]);
            if plain_facts(all) {
                assert(plain_fact(all[i as int]));
                lemma_only_truths(g0, g1, *g);
            }
            if news is None && changed@.len() == 0 {
                lemma_keeps_trans(g0, g1, *g);
            }
            if news is Some {
                lemma_merges_before(g0, g1, *g);
            } else if changed@.len() > 0 {
                lemma_merges_later(g0, g1, *g);
            }
        }
        if let Some(id) = news {
            changed.push(id);
        }
        i += 1;
    }
    proof {
        assert(pin_facts(pins@).take(pins@.len() as int) =~= pin_facts(pins@));
    }
    changed
}

/// A one-equation list where `b` holds, an empty one elsewhere.
pub open spec fn fact_if(b: bool, f: (Tm, Tm)) -> Seq<(Tm, Tm)> {
    if b {
        seq![f]
    } else {
        Seq::empty()
    }
}

/// Appends an equation where `b` holds.
pub fn push_if(out: &mut Vec<Pin>, b: bool, pin: Pin)
    ensures
        pin_facts(final(out)@) == pin_facts(old(out)@) + fact_if(b, pin@),
        forall|g: Graph|
            pins_in(old(out)@, g) && (b ==> expr_in(pin.left, g) && expr_in(pin.right, g))
                ==> #[trigger] pins_in(final(out)@, g),
{
    let ghost before = out@;
    if b {
        out.push(pin);
        proof {
            assert(pin_facts(out@) =~= pin_facts(before) + seq![pin@]);
            assert forall|g: Graph|
                pins_in(before, g) && expr_in(pin.left, g) && expr_in(
                    pin.right,
                    g,
                ) implies #[trigger] pins_in(out@, g) by {
                assert forall|i: int| 0 <= i < out@.len() implies expr_in(
                    (#[trigger] out@[i]).left,
                    g,
                ) && expr_in(out@[i].right, g) by {
                    if i < before.len() {
                        assert(out@[i] == before[i]);
                    }
                }
            }
        }
    } else {
        proof {
            assert(pin_facts(out@) =~= pin_facts(before) + Seq::<(Tm, Tm)>::empty());
        }
    }
}

/// Appends equations to equations.
pub fn append_pins(out: &mut Vec<Pin>, more: Vec<Pin>)
    ensures
        pin_facts(final(out)@) == pin_facts(old(out)@) + pin_facts(more@),
        forall|g: Graph|
            pins_in(old(out)@, g) && pins_in(more@, g) ==> #[trigger] pins_in(final(out)@, g),
{
    let ghost before = out@;
    let ghost all = more@;
    let mut more = more;
    out.append(&mut more);
    proof {
        assert(out@ =~= before + all);
        assert(pin_facts(out@) =~= pin_facts(before) + pin_facts(all));
        assert forall|g: Graph| pins_in(before, g) && pins_in(all, g) implies #[trigger] pins_in(
            out@,
            g,
        ) by {
            assert forall|i: int| 0 <= i < out@.len() implies expr_in((#[trigger] out@[i]).left, g)
                && expr_in(out@[i].right, g) by {
                if i < before.len() {
                    assert(out@[i] == before[i]);
                } else {
                    assert(out@[i] == all[i - before.len()]);
                }
            }
        }
    }
}

/// No equations.
pub fn empty_pins() -> (out: Vec<Pin>)
    ensures
        pin_facts(out@) == Seq::<(Tm, Tm)>::empty(),
        forall|g: Graph| #[trigger] pins_in(out@, g),
{
    let out: Vec<Pin> = Vec::new();
    proof {
        assert(pin_facts(out@) =~= Seq::<(Tm, Tm)>::empty());
    }
    out
}

} // verus!
