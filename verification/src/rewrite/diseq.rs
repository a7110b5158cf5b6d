//! Disequality: rules that turn a decided equality into information about its
//! operands.

use crate::graph::{keeps_classes, lemma_term_value, Graph};
use crate::lang::{Id, Node, OpV, Symbolic};
use crate::model::{lemma_tm_bin, t_bool, t_eq, Model, Tm};
use crate::rewrite::gather::{all_hold, gather, lemma_gather_holds, lemma_gather_step};
use crate::rewrite::pins::{
    assert_pins, asserted, empty_pins, merges, pin_facts, pins_in, push_if, Pin,
};
use crate::terms::{expr_in, lemma_known, Expr};
use crate::vmir::{BinOp, Value};
use vstd::prelude::*;

verus! {

/// The equation that says two classes are not equal.
pub open spec fn unequal(a: Id, b: Id) -> (Tm, Tm) {
    (t_eq(Tm::Class(a), Tm::Class(b)), t_bool(false))
}

pub fn unequal_pin(a: Id, b: Id) -> (r: Pin)
    ensures
        r@ == unequal(a, b),
        forall|g: Graph| g.has(a) && g.has(b) ==> #[trigger] expr_in(r.left, g),
        forall|g: Graph| #[trigger] expr_in(r.right, g),
{
    Pin::new(
        Expr::bin(BinOp::Eq, Expr::Class(a), Expr::Class(b)),
        Expr::boolean(false),
    )
}

/// A refuted equality is refuted with its operands swapped.
pub open spec fn mirror_term(class: Id, n: Node) -> Seq<(Tm, Tm)> {
    if n.op == OpV::Binary(BinOp::Eq) && n.args.len() == 2 && n.args[0] != n.args[1] {
        seq![(Tm::Class(class), t_eq(Tm::Class(n.args[1]), Tm::Class(n.args[0])))]
    } else {
        Seq::empty()
    }
}

pub open spec fn mirror_facts(g: Graph, class: Id) -> Seq<(Tm, Tm)> {
    if g.known_truth(class) == Some(false) {
        gather(g.terms(class), |n: Node| mirror_term(class, n))
    } else {
        Seq::empty()
    }
}

/// The operands of a proven equality are equal.
pub open spec fn merge_term(n: Node) -> Seq<(Tm, Tm)> {
    if n.op == OpV::Binary(BinOp::Eq) && n.args.len() == 2 {
        seq![(Tm::Class(n.args[0]), Tm::Class(n.args[1]))]
    } else {
        Seq::empty()
    }
}

pub open spec fn merge_facts(g: Graph, class: Id) -> Seq<(Tm, Tm)> {
    if g.known_truth(class) == Some(true) {
        gather(g.terms(class), |n: Node| merge_term(n))
    } else {
        Seq::empty()
    }
}

/// The rule for refuted equalities with swapped operands.
pub struct EqFalseMirrorApplier;

impl EqFalseMirrorApplier {
    pub fn derive(&self, g: &Graph, class: Id) -> (out: Vec<Pin>)
        requires
            g.wf(),
            g.has(class),
        ensures
            pins_in(out@, *g),
            pin_facts(out@) == mirror_facts(*g, class),
    {
        let mut out = empty_pins();
        if g.known_bool(class) != Some(false) {
            return out;
        }
        let ts = g.terms_of(class);
        let ghost all = g.terms(class);
        let ghost f = |n: Node| mirror_term(class, n);
        let mut i: usize = 0;
        proof {
            assert(all.take(0) =~= Seq::<Node>::empty());
        }
        while i < ts.len()
            invariant
                g.wf(),
                g.has(class),
                i <= ts@.len(),
                ts@.len() == all.len(),
                f == (|n: Node| mirror_term(class, n)),
                forall|k: int| 0 <= k < ts@.len() ==> (#[trigger] ts@[k])@ == all[k],
                forall|k: int| 0 <= k < ts@.len() ==> g.has_all((#[trigger] ts@[k])@.args),
                pins_in(out@, *g),
                pin_facts(out@) == gather(all.take(i as int), f),
            decreases ts.len() - i,
        {
            proof {
                lemma_gather_step(all, f, i as int);
                assert(g.has_all(ts@[i as int]@.args));
            }
            let ghost before = pin_facts(out@);
            match &ts[i] {
                Symbolic::Binary(BinOp::Eq, ids) => {
                    proof {
                        assert(g.has(all[i as int].args[0]));
                        assert(g.has(all[i as int].args[1]));
                    }
                    let (l, r) = (ids[0], ids[1]);
                    let pin = Pin::new(
                        Expr::Class(class),
                        Expr::bin(BinOp::Eq, Expr::Class(r), Expr::Class(l)),
                    );
                    push_if(&mut out, l != r, pin);
                },
                _ => {},
            }
            proof {
                assert(pin_facts(out@) =~= before + f(all[i as int]));
            }
            i += 1;
        }
        proof {
            assert(all.take(all.len() as int) =~= all);
        }
        out
    }

    /// Asserts what the rule derives of a class, and gives the classes that changed.
    pub fn apply_one(&self, g: &mut Graph, class: Id) -> (changed: Vec<Id>)
        requires
            old(g).wf(),
            old(g).has(class),
        ensures
            asserted(*old(g), *final(g), mirror_facts(*old(g), class)),
            changed@.len() == 0 ==> keeps_classes(*old(g), *final(g)),
            changed@.len() > 0 ==> merges(*old(g), *final(g)),
    {
        let pins = self.derive(g, class);
        assert_pins(g, &pins)
    }
}

/// The rule that merges the operands of a proven equality.
pub struct UnionEqArgs;

impl UnionEqArgs {
    pub fn derive(&self, g: &Graph, class: Id) -> (out: Vec<Pin>)
        requires
            g.wf(),
            g.has(class),
        ensures
            pins_in(out@, *g),
            pin_facts(out@) == merge_facts(*g, class),
    {
        let mut out = empty_pins();
        if g.known_bool(class) != Some(true) {
            return out;
        }
        let ts = g.terms_of(class);
        let ghost all = g.terms(class);
        let ghost f = |n: Node| merge_term(n);
        let mut i: usize = 0;
        proof {
            assert(all.take(0) =~= Seq::<Node>::empty());
        }
        while i < ts.len()
            invariant
                g.wf(),
                g.has(class),
                i <= ts@.len(),
                ts@.len() == all.len(),
                f == (|n: Node| merge_term(n)),
                forall|k: int| 0 <= k < ts@.len() ==> (#[trigger] ts@[k])@ == all[k],
                forall|k: int| 0 <= k < ts@.len() ==> g.has_all((#[trigger] ts@[k])@.args),
                pins_in(out@, *g),
                pin_facts(out@) == gather(all.take(i as int), f),
            decreases ts.len() - i,
        {
            proof {
                lemma_gather_step(all, f, i as int);
                assert(g.has_all(ts@[i as int]@.args));
            }
            let ghost before = pin_facts(out@);
            match &ts[i] {
                Symbolic::Binary(BinOp::Eq, ids) => {
                    proof {
                        assert(g.has(all[i as int].args[0]));
                        assert(g.has(all[i as int].args[1]));
                    }
                    push_if(&mut out, true, Pin::same(ids[0], ids[1]));
                },
                _ => {},
            }
            proof {
                assert(pin_facts(out@) =~= before + f(all[i as int]));
            }
            i += 1;
        }
        proof {
            assert(all.take(all.len() as int) =~= all);
        }
        out
    }

    /// Asserts what the rule derives of a class, and gives the classes that changed.
    pub fn apply_one(&self, g: &mut Graph, class: Id) -> (changed: Vec<Id>)
        requires
            old(g).wf(),
            old(g).has(class),
        ensures
            asserted(*old(g), *final(g), merge_facts(*old(g), class)),
            changed@.len() == 0 ==> keeps_classes(*old(g), *final(g)),
            changed@.len() > 0 ==> merges(*old(g), *final(g)),
    {
        let pins = self.derive(g, class);
        assert_pins(g, &pins)
    }
}

/// A model's value of an equality of a class is whether its operands are equal.
pub proof fn lemma_eq_term(g: Graph, m: Model, class: Id, k: int)
    requires
        g.wf(),
        g.models(m),
        g.has(class),
        0 <= k < g.terms(class).len(),
        g.terms(class)[k].op == OpV::Binary(BinOp::Eq),
    ensures
        g.terms(class)[k].args.len() == 2,
        g.has(g.terms(class)[k].args[0]),
        g.has(g.terms(class)[k].args[1]),
        m.at(class) == Value::Bool(
            m.at(g.terms(class)[k].args[0]) == m.at(g.terms(class)[k].args[1]),
        ),
{
    let n = g.terms(class)[k];
    lemma_term_value(g, m, class, k);
    assert(g.has(n.args[0]) && g.has(n.args[1]));
    assert(m.all(n.args)[0] == m.at(n.args[0]));
    assert(m.all(n.args)[1] == m.at(n.args[1]));
}

/// The rule for swapped operands is sound.
pub proof fn law_mirror_sound(g: Graph, m: Model, class: Id)
    requires
        g.wf(),
        g.models(m),
        g.has(class),
    ensures
        all_hold(m, mirror_facts(g, class)),
{
    if g.known_truth(class) == Some(false) {
        let f = |n: Node| mirror_term(class, n);
        lemma_known(g, m, class);
        assert forall|k: int| 0 <= k < g.terms(class).len() implies all_hold(
            m,
            f(#[trigger] g.terms(class)[k]),
        ) by {
            let n = g.terms(class)[k];
            if n.op == OpV::Binary(BinOp::Eq) && n.args.len() == 2 {
                lemma_eq_term(g, m, class, k);
                lemma_tm_bin(m, BinOp::Eq, Tm::Class(n.args[1]), Tm::Class(n.args[0]));
            }
        }
        lemma_gather_holds(m, g.terms(class), f);
    }
}

/// The rule that merges operands is sound.
pub proof fn law_merge_sound(g: Graph, m: Model, class: Id)
    requires
        g.wf(),
        g.models(m),
        g.has(class),
    ensures
        all_hold(m, merge_facts(g, class)),
{
    if g.known_truth(class) == Some(true) {
        let f = |n: Node| merge_term(n);
        lemma_known(g, m, class);
        assert forall|k: int| 0 <= k < g.terms(class).len() implies all_hold(
            m,
            f(#[trigger] g.terms(class)[k]),
        ) by {
            let n = g.terms(class)[k];
            if n.op == OpV::Binary(BinOp::Eq) && n.args.len() == 2 {
                lemma_eq_term(g, m, class, k);
            }
        }
        lemma_gather_holds(m, g.terms(class), f);
    }
}

} // verus!
