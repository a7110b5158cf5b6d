//! The static rule set.

use crate::model::Model;
use crate::nums::{Int, Rat};
use crate::rewrite::arith::{Identity, Shape};
use crate::rewrite::contra::ContraCongruenceApplier;
use crate::rewrite::instantiate::QuantRecipe;
use crate::rewrite::memo::Memo;
use crate::rewrite::observe::DistinguishingObsApplier;
use crate::rewrite::prints::{distinct_variants, Ctor};
use crate::rewrite::rules::Rule;
use crate::rewrite::unit::EqFalseUnitApplier;
use crate::vmir::{BinOp, Literal, Value};
use vstd::prelude::*;

verus! {

/// The shape of an identity, by the values of its literals.
pub ghost enum ShapeV {
    DropRight(Value),
    DropLeft(Value),
    AbsorbRight(Value),
    AbsorbLeft(Value),
    UndoFirst(BinOp),
    UndoSecond(BinOp),
    UndoSwapped(BinOp),
    Reflexive(Value),
    NotLeft,
    NotRight,
}

pub open spec fn shape_view(s: Shape) -> ShapeV {
    match s {
        Shape::DropRight(v) => ShapeV::DropRight(v@),
        Shape::DropLeft(v) => ShapeV::DropLeft(v@),
        Shape::AbsorbRight(v) => ShapeV::AbsorbRight(v@),
        Shape::AbsorbLeft(v) => ShapeV::AbsorbLeft(v@),
        Shape::UndoFirst(op) => ShapeV::UndoFirst(op),
        Shape::UndoSecond(op) => ShapeV::UndoSecond(op),
        Shape::UndoSwapped(op) => ShapeV::UndoSwapped(op),
        Shape::Reflexive(v) => ShapeV::Reflexive(v@),
        Shape::NotLeft => ShapeV::NotLeft,
        Shape::NotRight => ShapeV::NotRight,
    }
}

pub open spec fn is_identity(r: Rule, name: Seq<char>, op: BinOp, shape: ShapeV) -> bool {
    r matches Rule::Identity(i) && i.name@ == name && i.op == op && shape_view(i.shape) == shape
}

/// The static rules, in order. Identities are written once for each sort, so that a
/// literal has the right one; both operand orders are spelled out.
pub open spec fn static_table(rs: Seq<Rule>) -> bool {
    &&& rs.len() == 42
    &&& rs[0] == Rule::IteReduce
    &&& is_identity(rs[1], "add-zero-int-r"@, BinOp::AddI, ShapeV::DropRight(Value::Int(0)))
    &&& is_identity(rs[2], "add-zero-int-l"@, BinOp::AddI, ShapeV::DropLeft(Value::Int(0)))
    &&& is_identity(rs[3], "add-zero-real-r"@, BinOp::AddR, ShapeV::DropRight(Value::Real(0 as real)))
    &&& is_identity(rs[4], "add-zero-real-l"@, BinOp::AddR, ShapeV::DropLeft(Value::Real(0 as real)))
    &&& is_identity(rs[5], "sub-zero-int"@, BinOp::SubI, ShapeV::DropRight(Value::Int(0)))
    &&& is_identity(rs[6], "sub-zero-real"@, BinOp::SubR, ShapeV::DropRight(Value::Real(0 as real)))
    &&& is_identity(rs[7], "mul-one-real-r"@, BinOp::MulR, ShapeV::DropRight(Value::Real(1 as real)))
    &&& is_identity(rs[8], "mul-one-real-l"@, BinOp::MulR, ShapeV::DropLeft(Value::Real(1 as real)))
    &&& is_identity(rs[9], "mul-one-int-r"@, BinOp::MulI, ShapeV::DropRight(Value::Int(1)))
    &&& is_identity(rs[10], "mul-one-int-l"@, BinOp::MulI, ShapeV::DropLeft(Value::Int(1)))
    &&& is_identity(rs[11], "mul-zero-real-r"@, BinOp::MulR, ShapeV::AbsorbRight(Value::Real(0 as real)))
    &&& is_identity(rs[12], "mul-zero-real-l"@, BinOp::MulR, ShapeV::AbsorbLeft(Value::Real(0 as real)))
    &&& is_identity(rs[13], "mul-zero-int-r"@, BinOp::MulI, ShapeV::AbsorbRight(Value::Int(0)))
    &&& is_identity(rs[14], "mul-zero-int-l"@, BinOp::MulI, ShapeV::AbsorbLeft(Value::Int(0)))
    &&& is_identity(rs[15], "div-one-real"@, BinOp::DivR, ShapeV::DropRight(Value::Real(1 as real)))
    &&& is_identity(rs[16], "div-one-int"@, BinOp::DivI, ShapeV::DropRight(Value::Int(1)))
    &&& is_identity(rs[17], "add-sub-cancel-int-r"@, BinOp::AddI, ShapeV::UndoFirst(BinOp::SubI))
    &&& is_identity(rs[18], "add-sub-cancel-int-l"@, BinOp::AddI, ShapeV::UndoSecond(BinOp::SubI))
    &&& is_identity(rs[19], "add-sub-cancel-real-r"@, BinOp::AddR, ShapeV::UndoFirst(BinOp::SubR))
    &&& is_identity(rs[20], "add-sub-cancel-real-l"@, BinOp::AddR, ShapeV::UndoSecond(BinOp::SubR))
    &&& is_identity(rs[21], "sub-add-cancel-int-r"@, BinOp::SubI, ShapeV::UndoFirst(BinOp::AddI))
    &&& is_identity(rs[22], "sub-add-cancel-int-l"@, BinOp::SubI, ShapeV::UndoSwapped(BinOp::AddI))
    &&& is_identity(rs[23], "sub-add-cancel-real-r"@, BinOp::SubR, ShapeV::UndoFirst(BinOp::AddR))
    &&& is_identity(rs[24], "sub-add-cancel-real-l"@, BinOp::SubR, ShapeV::UndoSwapped(BinOp::AddR))
    &&& is_identity(rs[25], "sub-self-int"@, BinOp::SubI, ShapeV::Reflexive(Value::Int(0)))
    &&& is_identity(rs[26], "sub-self-real"@, BinOp::SubR, ShapeV::Reflexive(Value::Real(0 as real)))
    &&& is_identity(rs[27], "lt-irrefl-real"@, BinOp::LtR, ShapeV::Reflexive(Value::Bool(false)))
    &&& is_identity(rs[28], "lt-irrefl-int"@, BinOp::LtI, ShapeV::Reflexive(Value::Bool(false)))
    &&& is_identity(rs[29], "eq-refl"@, BinOp::Eq, ShapeV::Reflexive(Value::Bool(true)))
    &&& rs[30] == Rule::EqTrueUnion
    &&& is_identity(rs[31], "eq-false-is-not-r"@, BinOp::Eq, ShapeV::NotLeft)
    &&& is_identity(rs[32], "eq-false-is-not-l"@, BinOp::Eq, ShapeV::NotRight)
    &&& is_identity(rs[33], "eq-true-is-self-r"@, BinOp::Eq, ShapeV::DropRight(Value::Bool(true)))
    &&& is_identity(rs[34], "eq-true-is-self-l"@, BinOp::Eq, ShapeV::DropLeft(Value::Bool(true)))
    &&& rs[35] == Rule::EqFalseMirror
    &&& rs[36] is ContraCongruence
    &&& rs[37] is DistinguishingObservation
    &&& (rs[38] matches Rule::EqFalseUnit(a) && a.then_side)
    &&& (rs[39] matches Rule::EqFalseUnit(a) && !a.then_side)
    &&& rs[40] == Rule::LtAsymmetry(BinOp::LtI)
    &&& rs[41] == Rule::LtAsymmetry(BinOp::LtR)
}

fn int_lit(n: i64) -> (r: Literal)
    ensures
        r@ == Value::Int(n as int),
{
    Literal::Int(Int::from_i64(n))
}

fn real_lit(n: i64) -> (r: Literal)
    ensures
        r@ == Value::Real(n as real),
{
    Literal::Real(Rat::from_int(&Int::from_i64(n)))
}

fn identity(name: &'static str, op: BinOp, shape: Shape) -> (r: Rule)
    ensures
        is_identity(r, name@, op, shape_view(shape)),
        r == Rule::Identity(Identity { name, op, shape }),
{
    Rule::Identity(Identity { name, op, shape })
}

fn units_and_zeros(rs: &mut Vec<Rule>)
    requires
        old(rs)@.len() == 1,
        old(rs)@[0] == Rule::IteReduce,
    ensures
        final(rs)@.len() == 17,
        final(rs)@[0] == Rule::IteReduce,
        is_identity(final(rs)@[1], "add-zero-int-r"@, BinOp::AddI, ShapeV::DropRight(Value::Int(0))),
        is_identity(final(rs)@[2], "add-zero-int-l"@, BinOp::AddI, ShapeV::DropLeft(Value::Int(0))),
        is_identity(final(rs)@[3], "add-zero-real-r"@, BinOp::AddR, ShapeV::DropRight(Value::Real(0 as real))),
        is_identity(final(rs)@[4], "add-zero-real-l"@, BinOp::AddR, ShapeV::DropLeft(Value::Real(0 as real))),
        is_identity(final(rs)@[5], "sub-zero-int"@, BinOp::SubI, ShapeV::DropRight(Value::Int(0))),
        is_identity(final(rs)@[6], "sub-zero-real"@, BinOp::SubR, ShapeV::DropRight(Value::Real(0 as real))),
        is_identity(final(rs)@[7], "mul-one-real-r"@, BinOp::MulR, ShapeV::DropRight(Value::Real(1 as real))),
        is_identity(final(rs)@[8], "mul-one-real-l"@, BinOp::MulR, ShapeV::DropLeft(Value::Real(1 as real))),
        is_identity(final(rs)@[9], "mul-one-int-r"@, BinOp::MulI, ShapeV::DropRight(Value::Int(1))),
        is_identity(final(rs)@[10], "mul-one-int-l"@, BinOp::MulI, ShapeV::DropLeft(Value::Int(1))),
        is_identity(final(rs)@[11], "mul-zero-real-r"@, BinOp::MulR, ShapeV::AbsorbRight(Value::Real(0 as real))),
        is_identity(final(rs)@[12], "mul-zero-real-l"@, BinOp::MulR, ShapeV::AbsorbLeft(Value::Real(0 as real))),
        is_identity(final(rs)@[13], "mul-zero-int-r"@, BinOp::MulI, ShapeV::AbsorbRight(Value::Int(0))),
        is_identity(final(rs)@[14], "mul-zero-int-l"@, BinOp::MulI, ShapeV::AbsorbLeft(Value::Int(0))),
        is_identity(final(rs)@[15], "div-one-real"@, BinOp::DivR, ShapeV::DropRight(Value::Real(1 as real))),
        is_identity(final(rs)@[16], "div-one-int"@, BinOp::DivI, ShapeV::DropRight(Value::Int(1))),
{
    rs.push(identity("add-zero-int-r", BinOp::AddI, Shape::DropRight(int_lit(0))));
    rs.push(identity("add-zero-int-l", BinOp::AddI, Shape::DropLeft(int_lit(0))));
    rs.push(identity("add-zero-real-r", BinOp::AddR, Shape::DropRight(real_lit(0))));
    rs.push(identity("add-zero-real-l", BinOp::AddR, Shape::DropLeft(real_lit(0))));
    rs.push(identity("sub-zero-int", BinOp::SubI, Shape::DropRight(int_lit(0))));
    rs.push(identity("sub-zero-real", BinOp::SubR, Shape::DropRight(real_lit(0))));
    rs.push(identity("mul-one-real-r", BinOp::MulR, Shape::DropRight(real_lit(1))));
    rs.push(identity("mul-one-real-l", BinOp::MulR, Shape::DropLeft(real_lit(1))));
    rs.push(identity("mul-one-int-r", BinOp::MulI, Shape::DropRight(int_lit(1))));
    rs.push(identity("mul-one-int-l", BinOp::MulI, Shape::DropLeft(int_lit(1))));
    rs.push(identity("mul-zero-real-r", BinOp::MulR, Shape::AbsorbRight(real_lit(0))));
    rs.push(identity("mul-zero-real-l", BinOp::MulR, Shape::AbsorbLeft(real_lit(0))));
    rs.push(identity("mul-zero-int-r", BinOp::MulI, Shape::AbsorbRight(int_lit(0))));
    rs.push(identity("mul-zero-int-l", BinOp::MulI, Shape::AbsorbLeft(int_lit(0))));
    rs.push(identity("div-one-real", BinOp::DivR, Shape::DropRight(real_lit(1))));
    rs.push(identity("div-one-int", BinOp::DivI, Shape::DropRight(int_lit(1))));
}

fn cancellations(rs: &mut Vec<Rule>)
    requires
        old(rs)@.len() == 17,
    ensures
        final(rs)@.len() == 30,
        final(rs)@.take(17) == old(rs)@,
        is_identity(final(rs)@[17], "add-sub-cancel-int-r"@, BinOp::AddI, ShapeV::UndoFirst(BinOp::SubI)),
        is_identity(final(rs)@[18], "add-sub-cancel-int-l"@, BinOp::AddI, ShapeV::UndoSecond(BinOp::SubI)),
        is_identity(final(rs)@[19], "add-sub-cancel-real-r"@, BinOp::AddR, ShapeV::UndoFirst(BinOp::SubR)),
        is_identity(final(rs)@[20], "add-sub-cancel-real-l"@, BinOp::AddR, ShapeV::UndoSecond(BinOp::SubR)),
        is_identity(final(rs)@[21], "sub-add-cancel-int-r"@, BinOp::SubI, ShapeV::UndoFirst(BinOp::AddI)),
        is_identity(final(rs)@[22], "sub-add-cancel-int-l"@, BinOp::SubI, ShapeV::UndoSwapped(BinOp::AddI)),
        is_identity(final(rs)@[23], "sub-add-cancel-real-r"@, BinOp::SubR, ShapeV::UndoFirst(BinOp::AddR)),
        is_identity(final(rs)@[24], "sub-add-cancel-real-l"@, BinOp::SubR, ShapeV::UndoSwapped(BinOp::AddR)),
        is_identity(final(rs)@[25], "sub-self-int"@, BinOp::SubI, ShapeV::Reflexive(Value::Int(0))),
        is_identity(final(rs)@[26], "sub-self-real"@, BinOp::SubR, ShapeV::Reflexive(Value::Real(0 as real))),
        is_identity(final(rs)@[27], "lt-irrefl-real"@, BinOp::LtR, ShapeV::Reflexive(Value::Bool(false))),
        is_identity(final(rs)@[28], "lt-irrefl-int"@, BinOp::LtI, ShapeV::Reflexive(Value::Bool(false))),
        is_identity(final(rs)@[29], "eq-refl"@, BinOp::Eq, ShapeV::Reflexive(Value::Bool(true))),
{
    let ghost before = rs@;
    rs.push(identity("add-sub-cancel-int-r", BinOp::AddI, Shape::UndoFirst(BinOp::SubI)));
    rs.push(identity("add-sub-cancel-int-l", BinOp::AddI, Shape::UndoSecond(BinOp::SubI)));
    rs.push(identity("add-sub-cancel-real-r", BinOp::AddR, Shape::UndoFirst(BinOp::SubR)));
    rs.push(identity("add-sub-cancel-real-l", BinOp::AddR, Shape::UndoSecond(BinOp::SubR)));
    rs.push(identity("sub-add-cancel-int-r", BinOp::SubI, Shape::UndoFirst(BinOp::AddI)));
    rs.push(identity("sub-add-cancel-int-l", BinOp::SubI, Shape::UndoSwapped(BinOp::AddI)));
    rs.push(identity("sub-add-cancel-real-r", BinOp::SubR, Shape::UndoFirst(BinOp::AddR)));
    rs.push(identity("sub-add-cancel-real-l", BinOp::SubR, Shape::UndoSwapped(BinOp::AddR)));
    rs.push(identity("sub-self-int", BinOp::SubI, Shape::Reflexive(int_lit(0))));
    rs.push(identity("sub-self-real", BinOp::SubR, Shape::Reflexive(real_lit(0))));
    rs.push(identity("lt-irrefl-real", BinOp::LtR, Shape::Reflexive(Literal::Bool(false))));
    rs.push(identity("lt-irrefl-int", BinOp::LtI, Shape::Reflexive(Literal::Bool(false))));
    rs.push(identity("eq-refl", BinOp::Eq, Shape::Reflexive(Literal::Bool(true))));
    proof {
        assert(rs@.take(17) =~= before);
    }
}

fn equalities(rs: &mut Vec<Rule>)
    requires
        old(rs)@.len() == 30,
    ensures
        final(rs)@.len() == 42,
        final(rs)@.take(30) == old(rs)@,
        final(rs)@[30] == Rule::EqTrueUnion,
        is_identity(final(rs)@[31], "eq-false-is-not-r"@, BinOp::Eq, ShapeV::NotLeft),
        is_identity(final(rs)@[32], "eq-false-is-not-l"@, BinOp::Eq, ShapeV::NotRight),
        is_identity(final(rs)@[33], "eq-true-is-self-r"@, BinOp::Eq, ShapeV::DropRight(Value::Bool(true))),
        is_identity(final(rs)@[34], "eq-true-is-self-l"@, BinOp::Eq, ShapeV::DropLeft(Value::Bool(true))),
        final(rs)@[35] == Rule::EqFalseMirror,
        final(rs)@[36] is ContraCongruence,
        final(rs)@[37] is DistinguishingObservation,
        (final(rs)@[38] matches Rule::EqFalseUnit(a) && a.then_side),
        (final(rs)@[39] matches Rule::EqFalseUnit(a) && !a.then_side),
        final(rs)@[40] == Rule::LtAsymmetry(BinOp::LtI),
        final(rs)@[41] == Rule::LtAsymmetry(BinOp::LtR),
{
    let ghost before = rs@;
    rs.push(Rule::EqTrueUnion);
    rs.push(identity("eq-false-is-not-r", BinOp::Eq, Shape::NotLeft));
    rs.push(identity("eq-false-is-not-l", BinOp::Eq, Shape::NotRight));
    rs.push(identity("eq-true-is-self-r", BinOp::Eq, Shape::DropRight(Literal::Bool(true))));
    rs.push(identity("eq-true-is-self-l", BinOp::Eq, Shape::DropLeft(Literal::Bool(true))));
    rs.push(Rule::EqFalseMirror);
    rs.push(Rule::ContraCongruence(ContraCongruenceApplier { memo: Memo::new() }));
    rs.push(Rule::DistinguishingObservation(DistinguishingObsApplier { memo: Memo::new() }));
    rs.push(Rule::EqFalseUnit(EqFalseUnitApplier { then_side: true, memo: Memo::new() }));
    rs.push(Rule::EqFalseUnit(EqFalseUnitApplier { then_side: false, memo: Memo::new() }));
    rs.push(Rule::LtAsymmetry(BinOp::LtI));
    rs.push(Rule::LtAsymmetry(BinOp::LtR));
    proof {
        assert(rs@.take(30) =~= before);
    }
}

/// The static rules.
pub fn static_rules() -> (rs: Vec<Rule>)
    ensures
        static_table(rs@),
{
    let mut rs = terminating_ite_rules();
    units_and_zeros(&mut rs);
    let ghost a = rs@;
    cancellations(&mut rs);
    let ghost b = rs@;
    equalities(&mut rs);
    proof {
        assert forall|i: int| 0 <= i < 17 implies b[i] == a[i] by {
            assert(b.take(17)[i] == a[i]);
        }
        assert forall|i: int| 0 <= i < 30 implies rs@[i] == b[i] by {
            assert(rs@.take(30)[i] == b[i]);
        }
    }
    rs
}

/// The rules that cannot fail to terminate.
pub fn terminating_ite_rules() -> (rs: Vec<Rule>)
    ensures
        rs@ == seq![Rule::IteReduce],
{
    let mut rs: Vec<Rule> = Vec::new();
    rs.push(Rule::IteReduce);
    proof {
        assert(rs@ =~= seq![Rule::IteReduce]);
    }
    rs
}

/// Every static rule holds in every model that tells constructors apart.
pub proof fn law_static_rules_sound(rs: Seq<Rule>, cs: Seq<Ctor>, table: Seq<QuantRecipe>, m: Model, i: int)
    requires
        static_table(rs),
        distinct_variants(cs, m),
        0 <= i < rs.len(),
    ensures
        rs[i].holds(cs, table, m),
{
}

} // verus!
