//! What terms mean: models, and the theory that definitions and facts state.

use crate::lang::{FuncId, Id, Node, OpV, RecipeId};
use crate::vmir::{BinOp, TypeV, Value};
use vstd::prelude::*;

verus! {

/// A valuation of classes, with an interpretation of everything that a program
/// leaves open: fresh symbols, functions, quantifiers and division by zero.
pub ghost struct Model {
    pub val: spec_fn(Id) -> Value,
    pub fresh: spec_fn(u32) -> Value,
    pub func: spec_fn(FuncId, Seq<TypeV>, Seq<Value>) -> Value,
    pub quant: spec_fn(RecipeId, Seq<Value>) -> bool,
    pub div_zero: spec_fn(int) -> int,
    pub mod_zero: spec_fn(int) -> int,
    pub ratio_zero: spec_fn(real) -> real,
}

impl Model {
    /// The value of a class.
    pub open spec fn at(self, id: Id) -> Value {
        (self.val)(id)
    }

    /// The values of classes.
    pub open spec fn all(self, ids: Seq<Id>) -> Seq<Value> {
        Seq::new(ids.len(), |i: int| self.at(ids[i]))
    }

    /// Whether a class is the boolean `b`.
    pub open spec fn is(self, id: Id, b: bool) -> bool {
        self.at(id) == Value::Bool(b)
    }
}

/// Two values of one sort. Null is a reference.
pub open spec fn same_sort(a: Value, b: Value) -> bool {
    match a {
        Value::Bool(_) => b is Bool,
        Value::Int(_) => b is Int,
        Value::Real(_) => b is Real,
        _ => b is Null || b is Obj,
    }
}

/// The value of a binary operation; `None` where the operands have the wrong sort.
pub open spec fn binary_value(m: Model, op: BinOp, a: Value, b: Value) -> Option<Value> {
    match op {
        BinOp::Eq => Some(Value::Bool(a == b)),
        BinOp::AddR | BinOp::SubR | BinOp::MulR | BinOp::DivR | BinOp::LtR => match (a, b) {
            (Value::Real(x), Value::Real(y)) => match op {
                BinOp::AddR => Some(Value::Real(x + y)),
                BinOp::SubR => Some(Value::Real(x - y)),
                BinOp::MulR => Some(Value::Real(x * y)),
                BinOp::DivR => if y == 0 as real {
                    Some(Value::Real((m.ratio_zero)(x)))
                } else {
                    Some(Value::Real(x / y))
                },
                _ => Some(Value::Bool(x < y)),
            },
            _ => None,
        },
        _ => match (a, b) {
            (Value::Int(x), Value::Int(y)) => match op {
                BinOp::AddI => Some(Value::Int(x + y)),
                BinOp::SubI => Some(Value::Int(x - y)),
                BinOp::MulI => Some(Value::Int(x * y)),
                BinOp::DivI => if y == 0 {
                    Some(Value::Int((m.div_zero)(x)))
                } else {
                    Some(Value::Int(x / y))
                },
                BinOp::Mod => if y == 0 {
                    Some(Value::Int((m.mod_zero)(x)))
                } else {
                    Some(Value::Int(x % y))
                },
                _ => Some(Value::Bool(x < y)),
            },
            _ => None,
        },
    }
}

/// The value of an operator on given children; `None` where they have the wrong
/// number or sort.
pub open spec fn apply(m: Model, op: OpV, args: Seq<Value>) -> Option<Value> {
    match op {
        OpV::Fresh(n) => Some((m.fresh)(n)),
        OpV::Lit(v) => Some(v),
        OpV::Binary(op) => if args.len() == 2 {
            binary_value(m, op, args[0], args[1])
        } else {
            None
        },
        OpV::Ite => if args.len() == 3 {
            match args[0] {
                Value::Bool(c) => Some(
                    if c {
                        args[1]
                    } else {
                        args[2]
                    },
                ),
                _ => None,
            }
        } else {
            None
        },
        OpV::FuncApp(f, tys) => Some((m.func)(f, tys, args)),
        OpV::RealCast => if args.len() == 1 {
            match args[0] {
                Value::Int(n) => Some(Value::Real(n as real)),
                _ => None,
            }
        } else {
            None
        },
        OpV::Forall(r) => Some(Value::Bool((m.quant)(r, args))),
    }
}

/// The value of a term in a model.
pub open spec fn term_value(m: Model, n: Node) -> Option<Value> {
    apply(m, n.op, m.all(n.args))
}

/// A term over classes, of any depth.
pub ghost enum Tm {
    Class(Id),
    App(OpV, Seq<Tm>),
}

/// The values of terms; `None` where one of them has none.
pub open spec fn tms_value(m: Model, ts: Seq<Tm>) -> Option<Seq<Value>>
    decreases ts,
{
    if ts.len() == 0 {
        Some(Seq::empty())
    } else {
        match (tms_value(m, ts.drop_last()), tm_value(m, ts.last())) {
            (Some(vs), Some(v)) => Some(vs.push(v)),
            _ => None,
        }
    }
}

/// The value of a term; `None` where an operator is applied to the wrong sorts.
pub open spec fn tm_value(m: Model, t: Tm) -> Option<Value>
    decreases t,
{
    match t {
        Tm::Class(id) => Some(m.at(id)),
        Tm::App(op, args) => match tms_value(m, args) {
            Some(vs) => apply(m, op, vs),
            None => None,
        },
    }
}

pub open spec fn t_lit(v: Value) -> Tm {
    Tm::App(OpV::Lit(v), Seq::empty())
}

pub open spec fn t_bool(b: bool) -> Tm {
    t_lit(Value::Bool(b))
}

pub open spec fn t_real(q: real) -> Tm {
    t_lit(Value::Real(q))
}

pub open spec fn t_bin(op: BinOp, a: Tm, b: Tm) -> Tm {
    Tm::App(OpV::Binary(op), seq![a, b])
}

pub open spec fn t_eq(a: Tm, b: Tm) -> Tm {
    t_bin(BinOp::Eq, a, b)
}

pub open spec fn t_ltr(a: Tm, b: Tm) -> Tm {
    t_bin(BinOp::LtR, a, b)
}

pub open spec fn t_ite(c: Tm, t: Tm, e: Tm) -> Tm {
    Tm::App(OpV::Ite, seq![c, t, e])
}

pub open spec fn t_not(c: Tm) -> Tm {
    t_ite(c, t_bool(false), t_bool(true))
}

/// The children of a term, as terms.
pub open spec fn t_classes(ids: Seq<Id>) -> Seq<Tm> {
    Seq::new(ids.len(), |i: int| Tm::Class(ids[i]))
}

pub open spec fn t_node(n: Node) -> Tm {
    Tm::App(n.op, t_classes(n.args))
}

pub proof fn lemma_tm_lit(m: Model, v: Value)
    ensures
        tm_value(m, t_lit(v)) == Some(v),
{
}

pub proof fn lemma_tms2(m: Model, a: Tm, b: Tm)
    ensures
        tms_value(m, seq![a, b]) == (match (tm_value(m, a), tm_value(m, b)) {
            (Some(x), Some(y)) => Some(seq![x, y]),
            _ => None,
        }),
{
    reveal_with_fuel(tms_value, 3);
    assert(seq![a, b].drop_last() =~= seq![a]);
    assert(seq![a].drop_last() =~= Seq::<Tm>::empty());
    if let (Some(x), Some(y)) = (tm_value(m, a), tm_value(m, b)) {
        assert(Seq::<Value>::empty().push(x).push(y) =~= seq![x, y]);
    }
}

/// The value of a binary term is that of the operation on its operands' values.
pub proof fn lemma_tm_bin(m: Model, op: BinOp, a: Tm, b: Tm)
    ensures
        tm_value(m, t_bin(op, a, b)) == (match (tm_value(m, a), tm_value(m, b)) {
            (Some(x), Some(y)) => binary_value(m, op, x, y),
            _ => None,
        }),
{
    lemma_tms2(m, a, b);
}

/// The value of a conditional term whose condition is a boolean is that of the arm
/// that the condition picks, where both arms have one.
pub proof fn lemma_tm_ite(m: Model, c: Tm, t: Tm, e: Tm)
    ensures
        tm_value(m, t_ite(c, t, e)) == (match (tm_value(m, c), tm_value(m, t), tm_value(m, e)) {
            (Some(Value::Bool(b)), Some(x), Some(y)) => Some(
                if b {
                    x
                } else {
                    y
                },
            ),
            _ => None,
        }),
{
    lemma_tms2(m, c, t);
    assert(seq![c, t, e].drop_last() =~= seq![c, t]);
    assert(seq![c, t, e].last() == e);
    if let (Some(x), Some(y), Some(z)) = (tm_value(m, c), tm_value(m, t), tm_value(m, e)) {
        assert(seq![x, y].push(z) =~= seq![x, y, z]);
        assert(tms_value(m, seq![c, t, e]) == Some(seq![x, y, z]));
    } else {
        assert(tms_value(m, seq![c, t, e]) is None);
    }
}

pub proof fn lemma_tm_not(m: Model, c: Tm)
    ensures
        tm_value(m, t_not(c)) == (match tm_value(m, c) {
            Some(Value::Bool(b)) => Some(Value::Bool(!b)),
            _ => None,
        }),
{
    lemma_tm_ite(m, c, t_bool(false), t_bool(true));
    lemma_tm_lit(m, Value::Bool(false));
    lemma_tm_lit(m, Value::Bool(true));
}

pub proof fn lemma_tms_classes(m: Model, ids: Seq<Id>)
    ensures
        tms_value(m, t_classes(ids)) == Some(m.all(ids)),
    decreases ids.len(),
{
    if ids.len() > 0 {
        lemma_tms_classes(m, ids.drop_last());
        assert(t_classes(ids).drop_last() =~= t_classes(ids.drop_last()));
        assert(t_classes(ids).last() == Tm::Class(ids.last()));
        assert(tm_value(m, Tm::Class(ids.last())) == Some(m.at(ids.last())));
        assert(m.all(ids.drop_last()).push(m.at(ids.last())) =~= m.all(ids));
    } else {
        assert(m.all(ids) =~= Seq::<Value>::empty());
    }
}

/// A node's value is that of the term it spells.
pub proof fn lemma_tm_node(m: Model, n: Node)
    ensures
        tm_value(m, t_node(n)) == term_value(m, n),
{
    lemma_tms_classes(m, n.args);
}

/// Both sides of an equation have a value, and the same one.
pub open spec fn equation_holds(m: Model, f: (Tm, Tm)) -> bool {
    tm_value(m, f.0) is Some && tm_value(m, f.0) == tm_value(m, f.1)
}

/// `m` gives every id the value of the term that defines it, and satisfies every
/// fact.
pub open spec fn theory(defs: Seq<Node>, facts: Seq<(Tm, Tm)>, m: Model) -> bool {
    &&& forall|i: int|
        0 <= i < defs.len() ==> term_value(m, #[trigger] defs[i]) == Some(m.at(i as Id))
    &&& forall|k: int| 0 <= k < facts.len() ==> equation_holds(m, #[trigger] facts[k])
}

} // verus!
