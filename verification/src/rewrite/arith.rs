//! The arithmetic and equality identities.

use crate::graph::{keeps_classes, lemma_same_class, lemma_term_value, Graph};
use crate::lang::{Id, Node, OpV, Symbolic};
use crate::model::{binary_value, lemma_tm_lit, lemma_tm_not, same_sort, t_lit, t_not, Model, Tm};
use crate::nums::Int;
use crate::rewrite::gather::{all_hold, gather, lemma_gather_holds, lemma_gather_step};
use crate::rewrite::pins::{
    append_pins, assert_pins, asserted, empty_pins, fact_if, merges, pin_facts, pins_in, push_if,
    Pin,
};
use crate::terms::{lemma_known, Expr};
use crate::vmir::{BinOp, Literal, Value};
use vstd::prelude::*;

verus! {

/// The shape of an identity about a binary operator. Both operand orders are spelled
/// out, because there is no commutativity rule.
pub enum Shape {
    /// `x op v` is `x`.
    DropRight(Literal),
    /// `v op x` is `x`.
    DropLeft(Literal),
    /// `x op v` is `v`.
    AbsorbRight(Literal),
    /// `v op x` is `v`.
    AbsorbLeft(Literal),
    /// `(x inner p) op p` is `x`.
    UndoFirst(BinOp),
    /// `p op (x inner p)` is `x`.
    UndoSecond(BinOp),
    /// `(p inner x) op p` is `x`.
    UndoSwapped(BinOp),
    /// `x op x` is `v`.
    Reflexive(Literal),
    /// `b op false` is `!b`.
    NotLeft,
    /// `false op b` is `!b`.
    NotRight,
}

/// An identity: its name, the operator and the shape.
pub struct Identity {
    pub name: &'static str,
    pub op: BinOp,
    pub shape: Shape,
}

/// Where a class holds `(x inner p)` with `p` in the class `q`, the equation of
/// `class` and `x`.
pub open spec fn undo_terms(g: Graph, class: Id, inner: BinOp, q: Id, swapped: bool, n: Node) -> Seq<
    (Tm, Tm),
> {
    if n.op == OpV::Binary(inner) && n.args.len() == 2 {
        let (x, p) = if swapped {
            (n.args[1], n.args[0])
        } else {
            (n.args[0], n.args[1])
        };
        fact_if(g.canon(p) == g.canon(q), (Tm::Class(class), Tm::Class(x)))
    } else {
        Seq::empty()
    }
}

/// What an identity derives from `x op y` in a class.
pub open spec fn identity_pair(g: Graph, shape: Shape, class: Id, x: Id, y: Id) -> Seq<(Tm, Tm)> {
    match shape {
        Shape::DropRight(v) => fact_if(
            g.known_value(y) == Some(v@),
            (Tm::Class(class), Tm::Class(x)),
        ),
        Shape::DropLeft(v) => fact_if(
            g.known_value(x) == Some(v@),
            (Tm::Class(class), Tm::Class(y)),
        ),
        Shape::AbsorbRight(v) => fact_if(
            g.known_value(y) == Some(v@),
            (Tm::Class(class), t_lit(v@)),
        ),
        Shape::AbsorbLeft(v) => fact_if(
            g.known_value(x) == Some(v@),
            (Tm::Class(class), t_lit(v@)),
        ),
        Shape::UndoFirst(inner) => gather(
            g.terms(x),
            |n: Node| undo_terms(g, class, inner, y, false, n),
        ),
        Shape::UndoSecond(inner) => gather(
            g.terms(y),
            |n: Node| undo_terms(g, class, inner, x, false, n),
        ),
        Shape::UndoSwapped(inner) => gather(
            g.terms(x),
            |n: Node| undo_terms(g, class, inner, y, true, n),
        ),
        Shape::Reflexive(v) => fact_if(
            g.canon(x) == g.canon(y),
            (Tm::Class(class), t_lit(v@)),
        ),
        Shape::NotLeft => fact_if(
            g.known_value(y) == Some(Value::Bool(false)),
            (Tm::Class(class), t_not(Tm::Class(x))),
        ),
        Shape::NotRight => fact_if(
            g.known_value(x) == Some(Value::Bool(false)),
            (Tm::Class(class), t_not(Tm::Class(y))),
        ),
    }
}

pub open spec fn identity_term(g: Graph, op: BinOp, shape: Shape, class: Id, n: Node) -> Seq<
    (Tm, Tm),
> {
    if n.op == OpV::Binary(op) && n.args.len() == 2 {
        identity_pair(g, shape, class, n.args[0], n.args[1])
    } else {
        Seq::empty()
    }
}

/// What an identity derives of a class.
pub open spec fn identity_facts(g: Graph, op: BinOp, shape: Shape, class: Id) -> Seq<(Tm, Tm)> {
    gather(g.terms(class), |n: Node| identity_term(g, op, shape, class, n))
}

/// Whether a class is known to be a literal.
fn is_known(g: &Graph, id: Id, v: &Literal) -> (r: bool)
    requires
        g.wf(),
        g.has(id),
    ensures
        r == (g.known_value(id) == Some(v@)),
{
    match g.known(id) {
        Some(l) => l.same(v),
        None => false,
    }
}

fn undo_pins(g: &Graph, class: Id, inner: BinOp, side: Id, q: Id, swapped: bool) -> (out: Vec<Pin>)
    requires
        g.wf(),
        g.has(class),
        g.has(side),
        g.has(q),
    ensures
        pins_in(out@, *g),
        pin_facts(out@) == gather(
            g.terms(side),
            |n: Node| undo_terms(*g, class, inner, q, swapped, n),
        ),
{
    let mut out = empty_pins();
    let ts = g.terms_of(side);
    let ghost all = g.terms(side);
    let ghost f = |n: Node| undo_terms(*g, class, inner, q, swapped, n);
    let mut i: usize = 0;
    proof {
        assert(all.take(0) =~= Seq::<Node>::empty());
    }
    while i < ts.len()
        invariant
            g.wf(),
            g.has(class),
            g.has(q),
            i <= ts@.len(),
            ts@.len() == all.len(),
            f == (|n: Node| undo_terms(*g, class, inner, q, swapped, n)),
            forall|k: int| 0 <= k < ts@.len() ==> (#[trigger] ts@[k])@ == all[k],
            forall|k: int| 0 <= k < ts@.len() ==> g.has_all((#[trigger] ts@[k])@.args),
            pins_in(out@, *g),
            pin_facts(out@) == gather(all.take(i as int), f),
        decreases ts.len() - i,
    {
        let ghost before = pin_facts(out@);
        proof {
            lemma_gather_step(all, f, i as int);
            assert(g.has_all(ts@[i as int]@.args));
        }
        match &ts[i] {
            Symbolic::Binary(op, ids) => {
                if *op == inner {
                    proof {
                        assert(g.has(all[i as int].args[0]));
                        assert(g.has(all[i as int].args[1]));
                    }
                    let (x, p) = if swapped {
                        (ids[1], ids[0])
                    } else {
                        (ids[0], ids[1])
                    };
                    push_if(&mut out, g.find(p) == g.find(q), Pin::same(class, x));
                }
            },
            _ => {},
        }
        proof {
            assert(pin_facts(out@) =~= before + f(all[i as int]));
        }
        i += 1;
    }
    proof {
        assert(all.take(all.len() as int) =~= all);
    }
    out
}

fn identity_pins(g: &Graph, shape: &Shape, class: Id, x: Id, y: Id) -> (out: Vec<Pin>)
    requires
        g.wf(),
        g.has(class),
        g.has(x),
        g.has(y),
    ensures
        pins_in(out@, *g),
        pin_facts(out@) == identity_pair(*g, *shape, class, x, y),
{
    let mut out = empty_pins();
    match shape {
        Shape::DropRight(v) => {
            push_if(&mut out, is_known(g, y, v), Pin::same(class, x));
        },
        Shape::DropLeft(v) => {
            push_if(&mut out, is_known(g, x, v), Pin::same(class, y));
        },
        Shape::AbsorbRight(v) => {
            let pin = Pin::new(Expr::Class(class), Expr::Lit(v.clone()));
            push_if(&mut out, is_known(g, y, v), pin);
        },
        Shape::AbsorbLeft(v) => {
            let pin = Pin::new(Expr::Class(class), Expr::Lit(v.clone()));
            push_if(&mut out, is_known(g, x, v), pin);
        },
        Shape::UndoFirst(inner) => {
            return undo_pins(g, class, *inner, x, y, false);
        },
        Shape::UndoSecond(inner) => {
            return undo_pins(g, class, *inner, y, x, false);
        },
        Shape::UndoSwapped(inner) => {
            return undo_pins(g, class, *inner, x, y, true);
        },
        Shape::Reflexive(v) => {
            let pin = Pin::new(Expr::Class(class), Expr::Lit(v.clone()));
            push_if(&mut out, g.find(x) == g.find(y), pin);
        },
        Shape::NotLeft => {
            let pin = Pin::new(Expr::Class(class), Expr::negation(Expr::Class(x)));
            push_if(&mut out, is_known(g, y, &Literal::Bool(false)), pin);
        },
        Shape::NotRight => {
            let pin = Pin::new(Expr::Class(class), Expr::negation(Expr::Class(y)));
            push_if(&mut out, is_known(g, x, &Literal::Bool(false)), pin);
        },
    }
    proof {
        assert(pin_facts(out@) =~= identity_pair(*g, *shape, class, x, y));
    }
    out
}

impl Identity {
    pub fn derive(&self, g: &Graph, class: Id) -> (out: Vec<Pin>)
        requires
            g.wf(),
            g.has(class),
        ensures
            pins_in(out@, *g),
            pin_facts(out@) == identity_facts(*g, self.op, self.shape, class),
    {
        let mut out = empty_pins();
        let ts = g.terms_of(class);
        let ghost all = g.terms(class);
        let ghost f = |n: Node| identity_term(*g, self.op, self.shape, class, n);
        let mut i: usize = 0;
        proof {
            assert(all.take(0) =~= Seq::<Node>::empty());
        }
        while i < ts.len()
            invariant
                g.wf(),
                g.has(class),
                i <= ts@.len(),
                ts@.len() == all.len(),
                f == (|n: Node| identity_term(*g, self.op, self.shape, class, n)),
                forall|k: int| 0 <= k < ts@.len() ==> (#[trigger] ts@[k])@ == all[k],
                forall|k: int| 0 <= k < ts@.len() ==> g.has_all((#[trigger] ts@[k])@.args),
                pins_in(out@, *g),
                pin_facts(out@) == gather(all.take(i as int), f),
            decreases ts.len() - i,
        {
            let ghost before = pin_facts(out@);
            proof {
                lemma_gather_step(all, f, i as int);
                assert(g.has_all(ts@[i as int]@.args));
            }
            match &ts[i] {
                Symbolic::Binary(op, ids) => {
                    if *op == self.op {
                        proof {
                            assert(g.has(all[i as int].args[0]));
                            assert(g.has(all[i as int].args[1]));
                        }
                        append_pins(
                            &mut out,
                            identity_pins(g, &self.shape, class, ids[0], ids[1]),
                        );
                    }
                },
                _ => {},
            }
            proof {
                assert(pin_facts(out@) =~= before + f(all[i as int]));
            }
            i += 1;
        }
        proof {
            assert(all.take(all.len() as int) =~= all);
        }
        out
    }

    /// Asserts what the identity derives of a class, and gives the classes that
    /// changed.
    pub fn apply_one(&self, g: &mut Graph, class: Id) -> (changed: Vec<Id>)
        requires
            old(g).wf(),
            old(g).has(class),
        ensures
            asserted(*old(g), *final(g), identity_facts(*old(g), self.op, self.shape, class)),
            changed@.len() == 0 ==> keeps_classes(*old(g), *final(g)),
            changed@.len() > 0 ==> merges(*old(g), *final(g)),
    {
        let pins = self.derive(g, class);
        assert_pins(g, &pins)
    }
}

/// The identities that hold. There is no `x / x` or `0 / x`: division by zero is
/// unspecified, so neither holds where the divisor is zero.
pub open spec fn lawful(op: BinOp, shape: Shape) -> bool {
    match shape {
        Shape::DropRight(v) => {
            ||| (op == BinOp::AddI || op == BinOp::SubI) && v@ == Value::Int(0)
            ||| (op == BinOp::AddR || op == BinOp::SubR) && v@ == Value::Real(0 as real)
            ||| (op == BinOp::MulI || op == BinOp::DivI) && v@ == Value::Int(1)
            ||| (op == BinOp::MulR || op == BinOp::DivR) && v@ == Value::Real(1 as real)
            ||| op == BinOp::Eq && v@ == Value::Bool(true)
        },
        Shape::DropLeft(v) => {
            ||| op == BinOp::AddI && v@ == Value::Int(0)
            ||| op == BinOp::AddR && v@ == Value::Real(0 as real)
            ||| op == BinOp::MulI && v@ == Value::Int(1)
            ||| op == BinOp::MulR && v@ == Value::Real(1 as real)
            ||| op == BinOp::Eq && v@ == Value::Bool(true)
        },
        Shape::AbsorbRight(v) | Shape::AbsorbLeft(v) => {
            ||| op == BinOp::MulI && v@ == Value::Int(0)
            ||| op == BinOp::MulR && v@ == Value::Real(0 as real)
        },
        Shape::UndoFirst(inner) => {
            ||| op == BinOp::AddI && inner == BinOp::SubI
            ||| op == BinOp::AddR && inner == BinOp::SubR
            ||| op == BinOp::SubI && inner == BinOp::AddI
            ||| op == BinOp::SubR && inner == BinOp::AddR
        },
        Shape::UndoSecond(inner) => {
            ||| op == BinOp::AddI && inner == BinOp::SubI
            ||| op == BinOp::AddR && inner == BinOp::SubR
        },
        Shape::UndoSwapped(inner) => {
            ||| op == BinOp::SubI && inner == BinOp::AddI
            ||| op == BinOp::SubR && inner == BinOp::AddR
        },
        Shape::Reflexive(v) => {
            ||| op == BinOp::SubI && v@ == Value::Int(0)
            ||| op == BinOp::SubR && v@ == Value::Real(0 as real)
            ||| (op == BinOp::LtI || op == BinOp::LtR) && v@ == Value::Bool(false)
            ||| op == BinOp::Eq && v@ == Value::Bool(true)
        },
        Shape::NotLeft | Shape::NotRight => op == BinOp::Eq,
    }
}

/// The equalities of a class compare values of one sort.
pub open spec fn sorted_equalities(g: Graph, m: Model, class: Id) -> bool {
    forall|k: int|
        0 <= k < g.terms(class).len() && (#[trigger] g.terms(class)[k]).op == OpV::Binary(BinOp::Eq)
            && g.terms(class)[k].args.len() == 2 ==> same_sort(
            m.at(g.terms(class)[k].args[0]),
            m.at(g.terms(class)[k].args[1]),
        )
}

proof fn lemma_undo(
    g: Graph,
    m: Model,
    op: BinOp,
    inner: BinOp,
    class: Id,
    side: Id,
    q: Id,
    swapped: bool,
)
    requires
        g.wf(),
        g.models(m),
        g.has(side),
        g.has(q),
        swapped ==> lawful(op, Shape::UndoSwapped(inner)),
        !swapped ==> lawful(op, Shape::UndoFirst(inner)),
        Some(m.at(class)) == binary_value(m, op, m.at(side), m.at(q)) || (lawful(
            op,
            Shape::UndoSecond(inner),
        ) && Some(m.at(class)) == binary_value(m, op, m.at(q), m.at(side))),
    ensures
        all_hold(
            m,
            gather(g.terms(side), |n: Node| undo_terms(g, class, inner, q, swapped, n)),
        ),
{
    let f = |n: Node| undo_terms(g, class, inner, q, swapped, n);
    assert forall|k: int| 0 <= k < g.terms(side).len() implies all_hold(
        m,
        f(#[trigger] g.terms(side)[k]),
    ) by {
        let n = g.terms(side)[k];
        lemma_term_value(g, m, side, k);
        if n.op == OpV::Binary(inner) && n.args.len() == 2 {
            assert(g.has(n.args[0]) && g.has(n.args[1]));
            assert(m.all(n.args)[0] == m.at(n.args[0]));
            assert(m.all(n.args)[1] == m.at(n.args[1]));
            let (x, p) = if swapped {
                (n.args[1], n.args[0])
            } else {
                (n.args[0], n.args[1])
            };
            if g.canon(p) == g.canon(q) {
                lemma_same_class(g, m, p, q);
            }
        }
    }
    lemma_gather_holds(m, g.terms(side), f);
}

proof fn lemma_times(a: int, b: real)
    ensures
        a * 1 == a,
        1 * a == a,
        a * 0 == 0,
        0 * a == 0,
        a / 1 == a,
        b * 1 as real == b,
        1 as real * b == b,
        b * 0 as real == 0 as real,
        0 as real * b == 0 as real,
        b / 1 as real == b,
{
}

proof fn lemma_identity_pair(g: Graph, m: Model, op: BinOp, shape: Shape, class: Id, x: Id, y: Id)
    requires
        g.wf(),
        g.models(m),
        g.has(class),
        g.has(x),
        g.has(y),
        lawful(op, shape),
        Some(m.at(class)) == binary_value(m, op, m.at(x), m.at(y)),
        op == BinOp::Eq ==> same_sort(m.at(x), m.at(y)),
    ensures
        all_hold(m, identity_pair(g, shape, class, x, y)),
{
    lemma_known(g, m, x);
    lemma_known(g, m, y);
    match (m.at(x), m.at(y)) {
        (Value::Int(a), Value::Int(b)) => {
            lemma_times(a, 0 as real);
            lemma_times(b, 0 as real);
        },
        (Value::Real(a), Value::Real(b)) => {
            lemma_times(0, a);
            lemma_times(0, b);
        },
        _ => {},
    }
    match shape {
        Shape::DropRight(v) => {},
        Shape::DropLeft(v) => {},
        Shape::AbsorbRight(v) => {
            lemma_tm_lit(m, v@);
        },
        Shape::AbsorbLeft(v) => {
            lemma_tm_lit(m, v@);
        },
        Shape::UndoFirst(inner) => {
            lemma_undo(g, m, op, inner, class, x, y, false);
        },
        Shape::UndoSecond(inner) => {
            lemma_undo(g, m, op, inner, class, y, x, false);
        },
        Shape::UndoSwapped(inner) => {
            lemma_undo(g, m, op, inner, class, x, y, true);
        },
        Shape::Reflexive(v) => {
            lemma_tm_lit(m, v@);
            if g.canon(x) == g.canon(y) {
                lemma_same_class(g, m, x, y);
            }
        },
        Shape::NotLeft => {
            lemma_tm_not(m, Tm::Class(x));
        },
        Shape::NotRight => {
            lemma_tm_not(m, Tm::Class(y));
        },
    }
}

/// Every lawful identity is sound, where equalities compare values of one sort.
pub proof fn law_identity_sound(g: Graph, m: Model, op: BinOp, shape: Shape, class: Id)
    requires
        g.wf(),
        g.models(m),
        g.has(class),
        lawful(op, shape),
        sorted_equalities(g, m, class),
    ensures
        all_hold(m, identity_facts(g, op, shape, class)),
{
    let f = |n: Node| identity_term(g, op, shape, class, n);
    assert forall|k: int| 0 <= k < g.terms(class).len() implies all_hold(
        m,
        f(#[trigger] g.terms(class)[k]),
    ) by {
        let n = g.terms(class)[k];
        lemma_term_value(g, m, class, k);
        if n.op == OpV::Binary(op) && n.args.len() == 2 {
            assert(g.has(n.args[0]) && g.has(n.args[1]));
            assert(m.all(n.args)[0] == m.at(n.args[0]));
            assert(m.all(n.args)[1] == m.at(n.args[1]));
            lemma_identity_pair(g, m, op, shape, class, n.args[0], n.args[1]);
        }
    }
    lemma_gather_holds(m, g.terms(class), f);
}

} // verus!
