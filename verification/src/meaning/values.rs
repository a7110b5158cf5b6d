//! What operators and operands compute.

use crate::lang::{FuncId, OpV};
use crate::model::{binary_value, tm_value, tms_value, Model, Tm};
use crate::program::PureInst;
use crate::rewrite::recipe::{val_tm, val_tms};
use crate::vmir::{types_view, BinOp, Literal, Val, Value};
use vstd::prelude::*;

verus! {

/// The value of an operand, where the slots hold `x`.
pub open spec fn operand(x: Seq<Value>, v: Val) -> Value {
    match v {
        Val::Temp(n) => x[n as int],
        Val::Literal(l) => l@,
    }
}

/// A value is what an operator gives of two others. What division by zero gives is left
/// to the model.
pub open spec fn operates(m: Model, op: BinOp, a: Value, b: Value, v: Value) -> bool {
    match (a, b) {
        (Value::Int(p), Value::Int(q)) => match op {
            BinOp::AddI => v == Value::Int(p + q),
            BinOp::SubI => v == Value::Int(p - q),
            BinOp::MulI => v == Value::Int(p * q),
            BinOp::DivI => v == Value::Int(
                if q == 0 {
                    (m.div_zero)(p)
                } else {
                    p / q
                },
            ),
            BinOp::Mod => v == Value::Int(
                if q == 0 {
                    (m.mod_zero)(p)
                } else {
                    p % q
                },
            ),
            BinOp::LtI => v == Value::Bool(p < q),
            BinOp::Eq => v == Value::Bool(p == q),
            _ => false,
        },
        (Value::Real(p), Value::Real(q)) => match op {
            BinOp::AddR => v == Value::Real(p + q),
            BinOp::SubR => v == Value::Real(p - q),
            BinOp::MulR => v == Value::Real(p * q),
            BinOp::DivR => v == Value::Real(
                if q == 0 as real {
                    (m.ratio_zero)(p)
                } else {
                    p / q
                },
            ),
            BinOp::LtR => v == Value::Bool(p < q),
            BinOp::Eq => v == Value::Bool(p == q),
            _ => false,
        },
        _ => op == BinOp::Eq && v == Value::Bool(a == b),
    }
}

/// A value is the one that a condition picks.
pub open spec fn picked(c: Value, on: Value, off: Value, v: Value) -> bool {
    (c == Value::Bool(true) && v == on) || (c == Value::Bool(false) && v == off)
}

/// What operators give of integers.
pub proof fn law_integers(m: Model, p: int, q: int, v: Value)
    ensures
        operates(m, BinOp::AddI, Value::Int(p), Value::Int(q), v) <==> v == Value::Int(p + q),
        operates(m, BinOp::SubI, Value::Int(p), Value::Int(q), v) <==> v == Value::Int(p - q),
        operates(m, BinOp::MulI, Value::Int(p), Value::Int(q), v) <==> v == Value::Int(p * q),
        operates(m, BinOp::LtI, Value::Int(p), Value::Int(q), v) <==> v == Value::Bool(p < q),
        q != 0 ==> (operates(m, BinOp::DivI, Value::Int(p), Value::Int(q), v) <==> v == Value::Int(
            p / q,
        )),
        q != 0 ==> (operates(m, BinOp::Mod, Value::Int(p), Value::Int(q), v) <==> v == Value::Int(
            p % q,
        )),
{
}

/// What operators give of reals.
pub proof fn law_reals(m: Model, p: real, q: real, v: Value)
    ensures
        operates(m, BinOp::AddR, Value::Real(p), Value::Real(q), v) <==> v == Value::Real(p + q),
        operates(m, BinOp::SubR, Value::Real(p), Value::Real(q), v) <==> v == Value::Real(p - q),
        operates(m, BinOp::MulR, Value::Real(p), Value::Real(q), v) <==> v == Value::Real(p * q),
        operates(m, BinOp::LtR, Value::Real(p), Value::Real(q), v) <==> v == Value::Bool(p < q),
        q != 0 as real ==> (operates(m, BinOp::DivR, Value::Real(p), Value::Real(q), v) <==> v
            == Value::Real(p / q)),
{
}

/// An equality compares, and a choice picks by its condition.
pub proof fn law_choices(m: Model, a: Value, b: Value, v: Value)
    ensures
        operates(m, BinOp::Eq, a, b, v) <==> v == Value::Bool(a == b),
        picked(Value::Bool(true), a, b, v) <==> v == a,
        picked(Value::Bool(false), a, b, v) <==> v == b,
{
}

/// An operand is the slot that it names, or the value that it spells.
pub proof fn law_operand(x: Seq<Value>, n: usize, l: Literal)
    ensures
        operand(x, Val::Temp(n)) == x[n as int],
        operand(x, Val::Literal(l)) == l@,
{
}

/// The values of operands.
pub open spec fn operands_of(x: Seq<Value>, vs: Seq<Val>) -> Seq<Value> {
    Seq::new(vs.len(), |i: int| operand(x, vs[i]))
}

/// What a pure instruction without heaps and quantifiers computes of the slots.
pub open spec fn computes(m: Model, x: Seq<Value>, pi: PureInst, v: Value) -> bool {
    match pi {
        PureInst::Binary(op, a, b) => operates(m, op, operand(x, a), operand(x, b), v),
        PureInst::Ternary(c, t, e) => picked(operand(x, c), operand(x, t), operand(x, e), v),
        PureInst::RealCast(n) => operand(x, n) matches Value::Int(k) && v == Value::Real(k as real),
        PureInst::FunctionCall(fc) => v == (m.func)(
            FuncId(fc.function),
            types_view(fc.types@),
            operands_of(x, fc.args@),
        ),
        _ => true,
    }
}

/// An operation has the value that it gives of its operands, in their order.
pub proof fn lemma_operates(m: Model, op: BinOp, a: Value, b: Value, v: Value)
    ensures
        binary_value(m, op, a, b) == Some(v) <==> operates(m, op, a, b, v),
{
}

/// The slots hold the values of terms.
pub open spec fn hold_values(m: Model, ts: Seq<Tm>, x: Seq<Value>) -> bool {
    &&& x.len() == ts.len()
    &&& forall|i: int| 0 <= i < ts.len() ==> tm_value(m, #[trigger] ts[i]) == Some(x[i])
}

/// The term of an operand has its value.
pub proof fn lemma_operand(m: Model, ts: Seq<Tm>, x: Seq<Value>, v: Val)
    requires
        hold_values(m, ts, x),
        v matches Val::Temp(n) ==> n < ts.len(),
    ensures
        tm_value(m, val_tm(ts, v)) == Some(operand(x, v)),
{
    match v {
        Val::Temp(n) => {
            assert(tm_value(m, ts[n as int]) == Some(x[n as int]));
        },
        Val::Literal(l) => {
            crate::model::lemma_tm_lit(m, l@);
        },
    }
}

/// The terms of operands have their values.
pub proof fn lemma_operands(m: Model, ts: Seq<Tm>, x: Seq<Value>, vs: Seq<Val>)
    requires
        hold_values(m, ts, x),
        forall|i: int|
            0 <= i < vs.len() ==> (#[trigger] vs[i] matches Val::Temp(n) ==> n < ts.len()),
    ensures
        tms_value(m, val_tms(ts, vs)) == Some(operands_of(x, vs)),
    decreases vs.len(),
{
    if vs.len() > 0 {
        let front = vs.drop_last();
        assert forall|i: int| 0 <= i < front.len() implies (#[trigger] front[i] matches Val::Temp(
            n,
        ) ==> n < ts.len()) by {
            assert(front[i] == vs[i]);
        }
        lemma_operands(m, ts, x, front);
        assert(val_tms(ts, vs).drop_last() =~= val_tms(ts, front));
        assert(vs[vs.len() - 1] == vs.last());
        lemma_operand(m, ts, x, vs.last());
        assert(operands_of(x, front).push(operand(x, vs.last())) =~= operands_of(x, vs));
    } else {
        assert(operands_of(x, vs) =~= Seq::<Value>::empty());
    }
}

/// The term of a cast has the value of what is cast.
pub proof fn lemma_cast(m: Model, t: Tm)
    ensures
        tm_value(m, Tm::App(OpV::RealCast, seq![t])) == (match tm_value(m, t) {
            Some(Value::Int(k)) => Some(Value::Real(k as real)),
            _ => None,
        }),
{
    let ts = seq![t];
    assert(ts.drop_last() =~= Seq::<Tm>::empty());
    assert(ts.last() == t);
    assert(tms_value(m, ts.drop_last()) == Some(Seq::<Value>::empty()));
    if let Some(v) = tm_value(m, t) {
        assert(tms_value(m, ts) == Some(Seq::<Value>::empty().push(v)));
        assert(Seq::<Value>::empty().push(v)[0] == v);
    } else {
        assert(tms_value(m, ts) is None);
    }
}

} // verus!
