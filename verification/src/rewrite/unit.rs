//! Unit propagation from a refuted equality through a conditional operand.
//!
//! From `(c ? x : y) == z` refuted, with one arm already equal to `z`, the condition
//! is decided for the other arm, and the other arm is not equal to `z` either. Nested
//! conditionals unwind one level at a time: the derived disequality is refuted in
//! turn.

use crate::graph::{keeps_classes, lemma_canon_value, lemma_term_value, Graph};
use crate::lang::{Id, Node, OpV, Symbolic};
use crate::model::{lemma_tm_bin, lemma_tm_lit, t_bool, Model, Tm};
use crate::rewrite::diseq::{lemma_eq_term, unequal, unequal_pin};
use crate::rewrite::gather::{
    all_hold, cands_in, cands_view, derivations_hold, derive_all, lemma_derivations_concat,
    lemma_derive_holds, lemma_derive_step, lemma_picks_hold, pick_new, picks, Cand,
};
use crate::rewrite::memo::{Memo, MemoKey, Scopes};
use crate::rewrite::pins::{
    assert_pins, asserted, empty_pins, merges, pin_facts, pins_in, push_if, Pin,
};
use crate::terms::lemma_known;
use crate::vmir::{BinOp, Value};
use vstd::prelude::*;

verus! {

/// The condition, the two arms and the other operand.
pub type UnitIdent = (Id, Id, Id, Id);

pub type UnitV = Seq<(UnitIdent, Seq<(Tm, Tm)>)>;

/// What follows where `z` differs from the conditional `n`.
pub open spec fn unit_inner(g: Graph, then_side: bool, z: Id, n: Node) -> UnitV {
    if n.op is Ite && n.args.len() == 3 {
        let (c, x, y) = (g.canon(n.args[0]), g.canon(n.args[1]), g.canon(n.args[2]));
        let other = if then_side {
            y
        } else {
            x
        };
        if (then_side && x == z) || (!then_side && y == z) {
            seq![((c, x, y, z), seq![(Tm::Class(c), t_bool(!then_side)), unequal(other, z)])]
        } else {
            Seq::empty()
        }
    } else {
        Seq::empty()
    }
}

/// What follows where the class `side` differs from `z`.
pub open spec fn unit_side(g: Graph, then_side: bool, side: Id, z: Id) -> UnitV {
    derive_all(g.terms(side), |n: Node| unit_inner(g, then_side, g.canon(z), n))
}

/// What follows from one term of a refuted class.
pub open spec fn unit_term(g: Graph, then_side: bool, n: Node) -> UnitV {
    if n.op == OpV::Binary(BinOp::Eq) && n.args.len() == 2 {
        unit_side(g, then_side, n.args[0], n.args[1]) + unit_side(
            g,
            then_side,
            n.args[1],
            n.args[0],
        )
    } else {
        Seq::empty()
    }
}

/// What follows from a class: nothing unless it is refuted.
pub open spec fn unit_class(g: Graph, then_side: bool, class: Id) -> UnitV {
    if g.known_truth(class) == Some(false) {
        derive_all(g.terms(class), |n: Node| unit_term(g, then_side, n))
    } else {
        Seq::empty()
    }
}

#[derive(Debug, Clone, Copy, PartialEq, Eq, Hash, Structural)]
pub struct UnitKey {
    pub c: Id,
    pub x: Id,
    pub y: Id,
    pub z: Id,
}

impl MemoKey for UnitKey {
    type Ident = UnitIdent;

    open spec fn ident(&self) -> UnitIdent {
        (self.c, self.x, self.y, self.z)
    }

    fn same(&self, other: &Self) -> (r: bool) {
        self.c == other.c && self.x == other.x && self.y == other.y && self.z == other.z
    }
}

/// Appends a derivation.
fn push_cand(g: &Graph, out: &mut Vec<Cand<UnitKey>>, key: UnitKey, pins: Vec<Pin>)
    requires
        cands_in(old(out)@, *g),
        pins_in(pins@, *g),
    ensures
        cands_in(final(out)@, *g),
        cands_view(final(out)@) == cands_view(old(out)@).push((key.ident(), pin_facts(pins@))),
{
    let ghost before = out@;
    out.push(Cand { key, pins });
    proof {
        assert(cands_view(out@) =~= cands_view(before).push((key.ident(), pin_facts(pins@))));
        assert forall|i: int| 0 <= i < out@.len() implies pins_in((#[trigger] out@[i]).pins@, *g) by {
            if i < before.len() {
                assert(out@[i] == before[i]);
            }
        }
    }
}

/// Appends what follows where the class `side` differs from `other`.
fn unit_side_cands(g: &Graph, then_side: bool, side: Id, other: Id, out: &mut Vec<Cand<UnitKey>>)
    requires
        g.wf(),
        g.has(side),
        g.has(other),
        cands_in(old(out)@, *g),
    ensures
        cands_in(final(out)@, *g),
        cands_view(final(out)@) == cands_view(old(out)@) + unit_side(*g, then_side, side, other),
{
    let z = g.find(other);
    let ts = g.terms_of(side);
    let ghost all = g.terms(side);
    let ghost f = |n: Node| unit_inner(*g, then_side, g.canon(other), n);
    let ghost v0 = cands_view(out@);
    let mut i: usize = 0;
    proof {
        assert(all.take(0) =~= Seq::<Node>::empty());
        assert(v0 =~= v0 + derive_all(all.take(0), f));
    }
    while i < ts.len()
        invariant
            g.wf(),
            g.has(z),
            z == g.canon(other),
            i <= ts@.len(),
            ts@.len() == all.len(),
            f == (|n: Node| unit_inner(*g, then_side, g.canon(other), n)),
            forall|k: int| 0 <= k < ts@.len() ==> (#[trigger] ts@[k])@ == all[k],
            forall|k: int| 0 <= k < ts@.len() ==> g.has_all((#[trigger] ts@[k])@.args),
            cands_in(out@, *g),
            cands_view(out@) == v0 + derive_all(all.take(i as int), f),
        decreases ts.len() - i,
    {
        let ghost before = cands_view(out@);
        proof {
            lemma_derive_step(all, f, i as int);
            assert(g.has_all(ts@[i as int]@.args));
        }
        if let Symbolic::Ite(ids) = &ts[i] {
            proof {
                assert(g.has(all[i as int].args[0]));
                assert(g.has(all[i as int].args[1]));
                assert(g.has(all[i as int].args[2]));
            }
            let c = g.find(ids[0]);
            let x = g.find(ids[1]);
            let y = g.find(ids[2]);
            if (then_side && x == z) || (!then_side && y == z) {
                let rest = if then_side {
                    y
                } else {
                    x
                };
                let mut pins = empty_pins();
                push_if(&mut pins, true, Pin::truth(c, !then_side));
                push_if(&mut pins, true, unequal_pin(rest, z));
                proof {
                    assert(pin_facts(pins@) =~= seq![
                        (Tm::Class(c), t_bool(!then_side)),
                        unequal(rest, z),
                    ]);
                }
                push_cand(g, out, UnitKey { c, x, y, z }, pins);
            }
        }
        proof {
            assert(cands_view(out@) =~= before + f(all[i as int]));
            assert(cands_view(out@) =~= v0 + derive_all(all.take(i + 1), f));
        }
        i += 1;
    }
    proof {
        assert(all.take(all.len() as int) =~= all);
    }
}

/// The rule, for the arm that must match the other operand.
pub struct EqFalseUnitApplier {
    pub then_side: bool,
    pub memo: Memo<UnitKey>,
}

impl EqFalseUnitApplier {
    /// All derivations from a class.
    pub fn derive(&self, g: &Graph, class: Id) -> (out: Vec<Cand<UnitKey>>)
        requires
            g.wf(),
            g.has(class),
        ensures
            cands_in(out@, *g),
            cands_view(out@) == unit_class(*g, self.then_side, class),
    {
        let mut out: Vec<Cand<UnitKey>> = Vec::new();
        proof {
            assert(cands_view(out@) =~= Seq::empty());
        }
        if g.known_bool(class) != Some(false) {
            return out;
        }
        let side = self.then_side;
        let ts = g.terms_of(class);
        let ghost all = g.terms(class);
        let ghost f = |n: Node| unit_term(*g, side, n);
        let mut i: usize = 0;
        proof {
            assert(all.take(0) =~= Seq::<Node>::empty());
        }
        while i < ts.len()
            invariant
                g.wf(),
                i <= ts@.len(),
                ts@.len() == all.len(),
                f == (|n: Node| unit_term(*g, side, n)),
                forall|k: int| 0 <= k < ts@.len() ==> (#[trigger] ts@[k])@ == all[k],
                forall|k: int| 0 <= k < ts@.len() ==> g.has_all((#[trigger] ts@[k])@.args),
                cands_in(out@, *g),
                cands_view(out@) == derive_all(all.take(i as int), f),
            decreases ts.len() - i,
        {
            let ghost before = cands_view(out@);
            proof {
                lemma_derive_step(all, f, i as int);
                assert(g.has_all(ts@[i as int]@.args));
            }
            match &ts[i] {
                Symbolic::Binary(BinOp::Eq, ids) => {
                    proof {
                        assert(g.has(all[i as int].args[0]));
                        assert(g.has(all[i as int].args[1]));
                    }
                    unit_side_cands(g, side, ids[0], ids[1], &mut out);
                    unit_side_cands(g, side, ids[1], ids[0], &mut out);
                },
                _ => {},
            }
            proof {
                assert(cands_view(out@) =~= before + f(all[i as int]));
            }
            i += 1;
        }
        proof {
            assert(all.take(all.len() as int) =~= all);
        }
        out
    }

    /// Asserts the derivations from a class that are new here, and gives the classes
    /// that changed.
    pub fn apply_one(&mut self, s: &Scopes, g: &mut Graph, class: Id) -> (changed: Vec<Id>)
        requires
            old(g).wf(),
            old(g).has(class),
        ensures
            final(self).then_side == old(self).then_side,
            asserted(
                *old(g),
                *final(g),
                picks(
                    unit_class(*old(g), old(self).then_side, class),
                    |v: UnitIdent| old(self).memo.seen(*s, v),
                ),
            ),
            changed@.len() == 0 ==> keeps_classes(*old(g), *final(g)),
            changed@.len() > 0 ==> merges(*old(g), *final(g)),
    {
        let cands = self.derive(g, class);
        let pins = pick_new(&mut self.memo, s, cands);
        assert_pins(g, &pins)
    }
}

proof fn lemma_unit_side(g: Graph, m: Model, then_side: bool, side: Id, other: Id)
    requires
        g.wf(),
        g.models(m),
        g.has(side),
        g.has(other),
        m.at(side) != m.at(other),
    ensures
        derivations_hold(m, unit_side(g, then_side, side, other)),
{
    let f = |n: Node| unit_inner(g, then_side, g.canon(other), n);
    let z = g.canon(other);
    lemma_canon_value(g, m, other);
    assert forall|k: int| 0 <= k < g.terms(side).len() implies derivations_hold(
        m,
        f(#[trigger] g.terms(side)[k]),
    ) by {
        let n = g.terms(side)[k];
        lemma_term_value(g, m, side, k);
        if n.op is Ite && n.args.len() == 3 {
            assert(g.has(n.args[0]) && g.has(n.args[1]) && g.has(n.args[2]));
            lemma_canon_value(g, m, n.args[0]);
            lemma_canon_value(g, m, n.args[1]);
            lemma_canon_value(g, m, n.args[2]);
            let (c, x, y) = (g.canon(n.args[0]), g.canon(n.args[1]), g.canon(n.args[2]));
            assert(m.all(n.args)[0] == m.at(c));
            assert(m.all(n.args)[1] == m.at(x));
            assert(m.all(n.args)[2] == m.at(y));
            lemma_tm_lit(m, Value::Bool(!then_side));
            lemma_tm_lit(m, Value::Bool(false));
            lemma_tm_bin(m, BinOp::Eq, Tm::Class(y), Tm::Class(z));
            lemma_tm_bin(m, BinOp::Eq, Tm::Class(x), Tm::Class(z));
        }
    }
    lemma_derive_holds(m, g.terms(side), f);
}

/// Unit propagation is sound, whatever the memo leaves out.
pub proof fn law_unit_sound(
    g: Graph,
    m: Model,
    then_side: bool,
    class: Id,
    seen: spec_fn(UnitIdent) -> bool,
)
    requires
        g.wf(),
        g.models(m),
        g.has(class),
    ensures
        all_hold(m, picks(unit_class(g, then_side, class), seen)),
{
    if g.known_truth(class) == Some(false) {
        lemma_known(g, m, class);
        let f = |n: Node| unit_term(g, then_side, n);
        assert forall|k: int| 0 <= k < g.terms(class).len() implies derivations_hold(
            m,
            f(#[trigger] g.terms(class)[k]),
        ) by {
            let n = g.terms(class)[k];
            if n.op == OpV::Binary(BinOp::Eq) && n.args.len() == 2 {
                lemma_eq_term(g, m, class, k);
                lemma_unit_side(g, m, then_side, n.args[0], n.args[1]);
                lemma_unit_side(g, m, then_side, n.args[1], n.args[0]);
                lemma_derivations_concat(
                    m,
                    unit_side(g, then_side, n.args[0], n.args[1]),
                    unit_side(g, then_side, n.args[1], n.args[0]),
                );
            }
        }
        lemma_derive_holds(m, g.terms(class), f);
    }
    lemma_picks_hold(m, unit_class(g, then_side, class), seen);
}

} // verus!
