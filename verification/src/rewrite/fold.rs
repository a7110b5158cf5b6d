//! Constant folding, and the asymmetry of the strict orders.

use crate::graph::{keeps_classes, lemma_term_value, Graph};
use crate::lang::{Id, Node, OpV, Symbolic};
use crate::model::{lemma_tm_bin, lemma_tm_lit, t_bin, t_bool, t_lit, Model, Tm};
use crate::nums::{Int, Rat};
use crate::rewrite::gather::{all_hold, gather, lemma_gather_holds, lemma_gather_step};
use crate::rewrite::pins::{
    assert_pins, asserted, empty_pins, fact_if, merges, pin_facts, pins_in, push_if, Pin,
};
use crate::terms::{lemma_known, Expr};
use crate::vmir::{BinOp, Literal, Value};
use vstd::prelude::*;

verus! {

/// The value of a binary operation on literals, where every model agrees on it and it
/// is folded. Integer division and remainder are left alone, and so is division by
/// zero.
pub open spec fn folded(op: BinOp, a: Value, b: Value) -> Option<Value> {
    match (op, a, b) {
        (BinOp::Eq, _, _) => Some(Value::Bool(a == b)),
        (BinOp::AddI, Value::Int(x), Value::Int(y)) => Some(Value::Int(x + y)),
        (BinOp::SubI, Value::Int(x), Value::Int(y)) => Some(Value::Int(x - y)),
        (BinOp::MulI, Value::Int(x), Value::Int(y)) => Some(Value::Int(x * y)),
        (BinOp::LtI, Value::Int(x), Value::Int(y)) => Some(Value::Bool(x < y)),
        (BinOp::AddR, Value::Real(x), Value::Real(y)) => Some(Value::Real(x + y)),
        (BinOp::SubR, Value::Real(x), Value::Real(y)) => Some(Value::Real(x - y)),
        (BinOp::MulR, Value::Real(x), Value::Real(y)) => Some(Value::Real(x * y)),
        (BinOp::LtR, Value::Real(x), Value::Real(y)) => Some(Value::Bool(x < y)),
        (BinOp::DivR, Value::Real(x), Value::Real(y)) => if y == 0 as real {
            None
        } else {
            Some(Value::Real(x / y))
        },
        _ => None,
    }
}

/// The literal that a term folds to, given what its children are known to be.
pub open spec fn fold_value(g: Graph, n: Node) -> Option<Value> {
    match n.op {
        OpV::Binary(op) => if n.args.len() == 2 {
            match (g.known_value(n.args[0]), g.known_value(n.args[1])) {
                (Some(a), Some(b)) => folded(op, a, b),
                _ => None,
            }
        } else {
            None
        },
        OpV::RealCast => if n.args.len() == 1 {
            match g.known_value(n.args[0]) {
                Some(Value::Int(x)) => Some(Value::Real(x as real)),
                _ => None,
            }
        } else {
            None
        },
        _ => None,
    }
}

/// A class whose term folds is that literal, unless it is already known to be.
pub open spec fn fold_term(g: Graph, class: Id, n: Node) -> Seq<(Tm, Tm)> {
    match fold_value(g, n) {
        Some(v) => fact_if(g.known_value(class) != Some(v), (Tm::Class(class), t_lit(v))),
        None => Seq::empty(),
    }
}

pub open spec fn fold_facts(g: Graph, class: Id) -> Seq<(Tm, Tm)> {
    gather(g.terms(class), |n: Node| fold_term(g, class, n))
}

/// The value of a binary operation on two literals, where it is folded.
pub fn fold_literals(op: BinOp, a: &Literal, b: &Literal) -> (r: Option<Literal>)
    ensures
        r is Some == folded(op, a@, b@) is Some,
        r matches Some(l) ==> folded(op, a@, b@) == Some(l@),
{
    match (op, a, b) {
        (BinOp::Eq, _, _) => Some(Literal::Bool(a.same(b))),
        (BinOp::AddI, Literal::Int(x), Literal::Int(y)) => Some(Literal::Int(x.plus(y))),
        (BinOp::SubI, Literal::Int(x), Literal::Int(y)) => Some(Literal::Int(x.minus(y))),
        (BinOp::MulI, Literal::Int(x), Literal::Int(y)) => Some(Literal::Int(x.times(y))),
        (BinOp::LtI, Literal::Int(x), Literal::Int(y)) => Some(Literal::Bool(x.less(y))),
        (BinOp::AddR, Literal::Real(x), Literal::Real(y)) => Some(Literal::Real(x.plus(y))),
        (BinOp::SubR, Literal::Real(x), Literal::Real(y)) => Some(Literal::Real(x.minus(y))),
        (BinOp::MulR, Literal::Real(x), Literal::Real(y)) => Some(Literal::Real(x.times(y))),
        (BinOp::LtR, Literal::Real(x), Literal::Real(y)) => Some(Literal::Bool(x.less(y))),
        (BinOp::DivR, Literal::Real(x), Literal::Real(y)) => {
            let zero = Rat::from_int(&Int::from_i64(0));
            if y.same(&zero) {
                None
            } else {
                Some(Literal::Real(x.over(y)))
            }
        },
        _ => None,
    }
}

/// The literal that a term folds to.
fn fold_symbolic(g: &Graph, n: &Symbolic) -> (r: Option<Literal>)
    requires
        g.wf(),
        g.has_all(n@.args),
    ensures
        r is Some == fold_value(*g, n@) is Some,
        r matches Some(l) ==> fold_value(*g, n@) == Some(l@),
{
    match n {
        Symbolic::Binary(op, ids) => {
            proof {
                assert(g.has(n@.args[0]));
                assert(g.has(n@.args[1]));
            }
            match (g.known(ids[0]), g.known(ids[1])) {
                (Some(a), Some(b)) => fold_literals(*op, &a, &b),
                _ => None,
            }
        },
        Symbolic::RealCast(id) => {
            proof {
                assert(g.has(n@.args[0]));
            }
            match g.known(*id) {
                Some(Literal::Int(x)) => Some(Literal::Real(Rat::from_int(&x))),
                _ => None,
            }
        },
        _ => None,
    }
}

/// The folding rule.
pub struct ConstFold;

impl ConstFold {
    pub fn derive(&self, g: &Graph, class: Id) -> (out: Vec<Pin>)
        requires
            g.wf(),
            g.has(class),
        ensures
            pins_in(out@, *g),
            pin_facts(out@) == fold_facts(*g, class),
    {
        let mut out = empty_pins();
        let ts = g.terms_of(class);
        let own = g.known(class);
        let ghost all = g.terms(class);
        let ghost f = |n: Node| fold_term(*g, class, n);
        let mut i: usize = 0;
        proof {
            assert(all.take(0) =~= Seq::<Node>::empty());
        }
        while i < ts.len()
            invariant
                g.wf(),
                g.has(class),
                i <= ts@.len(),
                ts@.len() == all.len(),
                f == (|n: Node| fold_term(*g, class, n)),
                own is Some == g.known_value(class) is Some,
                own matches Some(l) ==> g.known_value(class) == Some(l@),
                forall|k: int| 0 <= k < ts@.len() ==> (#[trigger] ts@[k])@ == all[k],
                forall|k: int| 0 <= k < ts@.len() ==> g.has_all((#[trigger] ts@[k])@.args),
                pins_in(out@, *g),
                pin_facts(out@) == gather(all.take(i as int), f),
            decreases ts.len() - i,
        {
            let ghost before = pin_facts(out@);
            proof {
                lemma_gather_step(all, f, i as int);
                assert(g.has_all(ts@[i as int]@.args));
            }
            if let Some(v) = fold_symbolic(g, &ts[i]) {
                let known = match &own {
                    Some(l) => l.same(&v),
                    None => false,
                };
                let pin = Pin::new(Expr::Class(class), Expr::Lit(v));
                push_if(&mut out, !known, pin);
            }
            proof {
                assert(pin_facts(out@) =~= before + f(all[i as int]));
            }
            i += 1;
        }
        proof {
            assert(all.take(all.len() as int) =~= all);
        }
        out
    }

    /// Asserts the literals that a class folds to, and gives the classes that changed.
    pub fn apply_one(&self, g: &mut Graph, class: Id) -> (changed: Vec<Id>)
        requires
            old(g).wf(),
            old(g).has(class),
        ensures
            asserted(*old(g), *final(g), fold_facts(*old(g), class)),
            changed@.len() == 0 ==> keeps_classes(*old(g), *final(g)),
            changed@.len() > 0 ==> merges(*old(g), *final(g)),
    {
        let pins = self.derive(g, class);
        assert_pins(g, &pins)
    }
}

/// Folding is sound.
pub proof fn law_fold_sound(g: Graph, m: Model, class: Id)
    requires
        g.wf(),
        g.models(m),
        g.has(class),
    ensures
        all_hold(m, fold_facts(g, class)),
{
    let f = |n: Node| fold_term(g, class, n);
    assert forall|k: int| 0 <= k < g.terms(class).len() implies all_hold(
        m,
        f(#[trigger] g.terms(class)[k]),
    ) by {
        let n = g.terms(class)[k];
        lemma_term_value(g, m, class, k);
        if let Some(v) = fold_value(g, n) {
            lemma_tm_lit(m, v);
            assert forall|j: int| 0 <= j < n.args.len() implies m.all(n.args)[j] == m.at(
                #[trigger] n.args[j],
            ) && g.has(n.args[j]) by {}
            assert(g.has(n.args[0]));
            lemma_known(g, m, n.args[0]);
            if n.op is Binary {
                assert(g.has(n.args[1]));
                lemma_known(g, m, n.args[1]);
            }
        }
    }
    lemma_gather_holds(m, g.terms(class), f);
}

/// Where `a < b` is proven, `b < a` is refuted, if some class lists it. It is never
/// minted: that would add a term for every `<` whether or not anything asks about the
/// reverse.
pub open spec fn asymmetry_term(g: Graph, op: BinOp, n: Node) -> Seq<(Tm, Tm)> {
    if n.op == OpV::Binary(op) && n.args.len() == 2 {
        fact_if(
            g.lists(g.canon_term(Node { op: n.op, args: seq![n.args[1], n.args[0]] })),
            (t_bin(op, Tm::Class(n.args[1]), Tm::Class(n.args[0])), t_bool(false)),
        )
    } else {
        Seq::empty()
    }
}

pub open spec fn asymmetry_facts(g: Graph, op: BinOp, class: Id) -> Seq<(Tm, Tm)> {
    if g.known_truth(class) == Some(true) {
        gather(g.terms(class), |n: Node| asymmetry_term(g, op, n))
    } else {
        Seq::empty()
    }
}

/// The rule for one strict order.
pub struct LtAsymmetryApplier(pub BinOp);

impl LtAsymmetryApplier {
    pub fn derive(&self, g: &Graph, class: Id) -> (out: Vec<Pin>)
        requires
            g.wf(),
            g.has(class),
        ensures
            pins_in(out@, *g),
            pin_facts(out@) == asymmetry_facts(*g, self.0, class),
    {
        let mut out = empty_pins();
        if g.known_bool(class) != Some(true) {
            return out;
        }
        let order = self.0;
        let ts = g.terms_of(class);
        let ghost all = g.terms(class);
        let ghost f = |n: Node| asymmetry_term(*g, order, n);
        let mut i: usize = 0;
        proof {
            assert(all.take(0) =~= Seq::<Node>::empty());
        }
        while i < ts.len()
            invariant
                g.wf(),
                i <= ts@.len(),
                ts@.len() == all.len(),
                f == (|n: Node| asymmetry_term(*g, order, n)),
                forall|k: int| 0 <= k < ts@.len() ==> (#[trigger] ts@[k])@ == all[k],
                forall|k: int| 0 <= k < ts@.len() ==> g.has_all((#[trigger] ts@[k])@.args),
                pins_in(out@, *g),
                pin_facts(out@) == gather(all.take(i as int), f),
            decreases ts.len() - i,
        {
            let ghost before = pin_facts(out@);
            proof {
                lemma_gather_step(all, f, i as int);
                assert(g.has_all(ts@[i as int]@.args));
            }
            match &ts[i] {
                Symbolic::Binary(op, ids) => {
                    if *op == order {
                        let (a, b) = (ids[0], ids[1]);
                        proof {
                            assert(g.has(all[i as int].args[0]));
                            assert(g.has(all[i as int].args[1]));
                        }
                        let mirror = Symbolic::Binary(order, [b, a]);
                        proof {
                            assert(mirror@.args =~= seq![b, a]);
                        }
                        let found = g.lookup(&mirror).is_some();
                        let pin = Pin::new(
                            Expr::bin(order, Expr::Class(b), Expr::Class(a)),
                            Expr::boolean(false),
                        );
                        push_if(&mut out, found, pin);
                    }
                },
                _ => {},
            }
            proof {
                assert(pin_facts(out@) =~= before + f(all[i as int]));
            }
            i += 1;
        }
        proof {
            assert(all.take(all.len() as int) =~= all);
        }
        out
    }

    /// Asserts what the rule derives of a class, and gives the classes that changed.
    pub fn apply_one(&self, g: &mut Graph, class: Id) -> (changed: Vec<Id>)
        requires
            old(g).wf(),
            old(g).has(class),
        ensures
            asserted(*old(g), *final(g), asymmetry_facts(*old(g), self.0, class)),
            changed@.len() == 0 ==> keeps_classes(*old(g), *final(g)),
            changed@.len() > 0 ==> merges(*old(g), *final(g)),
    {
        let pins = self.derive(g, class);
        assert_pins(g, &pins)
    }
}

/// The strict orders are asymmetric.
pub proof fn law_asymmetry_sound(g: Graph, m: Model, op: BinOp, class: Id)
    requires
        g.wf(),
        g.models(m),
        g.has(class),
        op == BinOp::LtI || op == BinOp::LtR,
    ensures
        all_hold(m, asymmetry_facts(g, op, class)),
{
    if g.known_truth(class) == Some(true) {
        lemma_known(g, m, class);
        let f = |n: Node| asymmetry_term(g, op, n);
        assert forall|k: int| 0 <= k < g.terms(class).len() implies all_hold(
            m,
            f(#[trigger] g.terms(class)[k]),
        ) by {
            let n = g.terms(class)[k];
            lemma_term_value(g, m, class, k);
            if n.op == OpV::Binary(op) && n.args.len() == 2 {
                assert(m.all(n.args)[0] == m.at(n.args[0]));
                assert(m.all(n.args)[1] == m.at(n.args[1]));
                lemma_tm_bin(m, op, Tm::Class(n.args[1]), Tm::Class(n.args[0]));
                lemma_tm_lit(m, Value::Bool(false));
            }
        }
        lemma_gather_holds(m, g.terms(class), f);
    }
}

} // verus!
