//! The verifier's intermediate representation: types, operators, literals and
//! operands.

use crate::nums::{Int, Rat};
use vstd::prelude::*;

verus! {

/// A declaration's index in its program.
pub type MemberId = usize;

/// An interned location-group name.
pub type GroupId = u32;

/// The most permission a location can carry.
#[derive(Debug, PartialEq, Eq, Hash)]
pub enum Bound {
    Unbounded,
    Bounded(Rat),
}

#[derive(Debug, PartialEq, Eq, Hash)]
pub enum Type {
    Int,
    Bool,
    Real,
    Ref,
    /// A declared domain or ADT, with its type arguments.
    Domain(MemberId, Vec<Type>),
    /// The type parameter of a generic ADT, by position.
    Generic(usize),
    /// The builtin parametric option type.
    Option(Box<Type>),
    /// The snapshot of a predicate.
    Snap(MemberId),
    /// The address of a heap location: its group, the held type and the bound.
    Addr { group: GroupId, value: Box<Type>, bound: Bound },
}

/// What a [`Bound`] says: `None` where there is no bound.
pub type BoundV = Option<real>;

/// What a [`Type`] says.
#[verifier::ext_equal]
pub ghost enum TypeV {
    Int,
    Bool,
    Real,
    Ref,
    Domain(nat, Seq<TypeV>),
    Generic(nat),
    Option(Box<TypeV>),
    Snap(nat),
    Addr(u32, Box<TypeV>, BoundV),
}

impl View for Bound {
    type V = BoundV;

    open spec fn view(&self) -> BoundV {
        match self {
            Bound::Unbounded => None,
            Bound::Bounded(b) => Some(b@),
        }
    }
}

/// The view of a list of types, element by element.
pub open spec fn types_view(ts: Seq<Type>) -> Seq<TypeV>
    decreases ts,
{
    if ts.len() == 0 {
        Seq::empty()
    } else {
        types_view(ts.drop_last()).push(type_view(ts.last()))
    }
}

pub open spec fn type_view(t: Type) -> TypeV
    decreases t,
{
    match t {
        Type::Int => TypeV::Int,
        Type::Bool => TypeV::Bool,
        Type::Real => TypeV::Real,
        Type::Ref => TypeV::Ref,
        Type::Domain(id, args) => TypeV::Domain(id as nat, types_view(args@)),
        Type::Generic(i) => TypeV::Generic(i as nat),
        Type::Option(e) => TypeV::Option(Box::new(type_view(*e))),
        Type::Snap(id) => TypeV::Snap(id as nat),
        Type::Addr { group, value, bound } => TypeV::Addr(
            group,
            Box::new(type_view(*value)),
            bound@,
        ),
    }
}

impl View for Type {
    type V = TypeV;

    open spec fn view(&self) -> TypeV {
        type_view(*self)
    }
}

pub proof fn lemma_types_view(ts: Seq<Type>)
    ensures
        types_view(ts).len() == ts.len(),
        forall|i: int| 0 <= i < ts.len() ==> #[trigger] types_view(ts)[i] == ts[i]@,
    decreases ts.len(),
{
    if ts.len() > 0 {
        lemma_types_view(ts.drop_last());
    }
}

impl Clone for Bound {
    fn clone(&self) -> (r: Self)
        ensures
            r@ == self@,
    {
        match self {
            Bound::Unbounded => Bound::Unbounded,
            Bound::Bounded(b) => Bound::Bounded(b.clone()),
        }
    }
}

impl Bound {
    pub fn same(&self, other: &Bound) -> (r: bool)
        ensures
            r == (self@ == other@),
    {
        match (self, other) {
            (Bound::Unbounded, Bound::Unbounded) => true,
            (Bound::Bounded(a), Bound::Bounded(b)) => a.same(b),
            _ => false,
        }
    }
}

/// A copy of a list of types.
pub fn clone_types(ts: &Vec<Type>) -> (r: Vec<Type>)
    ensures
        types_view(r@) == types_view(ts@),
    decreases ts,
{
    let mut out: Vec<Type> = Vec::new();
    let mut i: usize = 0;
    while i < ts.len()
        invariant
            i <= ts.len(),
            out@.len() == i,
            forall|k: int| 0 <= k < i ==> (#[trigger] out@[k])@ == ts@[k]@,
        decreases ts.len() - i,
    {
        assert(decreases_to!(ts => ts@[i as int]));
        out.push(ts[i].clone());
        i += 1;
    }
    proof {
        lemma_types_view(out@);
        lemma_types_view(ts@);
        assert(types_view(out@) =~= types_view(ts@));
    }
    out
}

/// Whether two lists of types are equal.
pub fn same_types(a: &Vec<Type>, b: &Vec<Type>) -> (r: bool)
    ensures
        r == (types_view(a@) == types_view(b@)),
    decreases a,
{
    proof {
        lemma_types_view(a@);
        lemma_types_view(b@);
    }
    if a.len() != b.len() {
        return false;
    }
    let mut i: usize = 0;
    while i < a.len()
        invariant
            i <= a.len(),
            a.len() == b.len(),
            types_view(a@).len() == a.len(),
            types_view(b@).len() == b.len(),
            forall|k: int| 0 <= k < a.len() ==> #[trigger] types_view(a@)[k] == a@[k]@,
            forall|k: int| 0 <= k < b.len() ==> #[trigger] types_view(b@)[k] == b@[k]@,
            forall|k: int| 0 <= k < i ==> (#[trigger] a@[k])@ == b@[k]@,
        decreases a.len() - i,
    {
        assert(decreases_to!(a => a@[i as int]));
        if !a[i].same(&b[i]) {
            assert(types_view(a@)[i as int] != types_view(b@)[i as int]);
            return false;
        }
        i += 1;
    }
    proof {
        assert(types_view(a@) =~= types_view(b@));
    }
    true
}

impl Clone for Type {
    fn clone(&self) -> (r: Self)
        ensures
            r@ == self@,
        decreases self,
    {
        match self {
            Type::Int => Type::Int,
            Type::Bool => Type::Bool,
            Type::Real => Type::Real,
            Type::Ref => Type::Ref,
            Type::Domain(id, args) => Type::Domain(*id, clone_types(args)),
            Type::Generic(i) => Type::Generic(*i),
            Type::Option(e) => {
                let inner: Type = (&**e).clone();
                Type::Option(Box::new(inner))
            },
            Type::Snap(id) => Type::Snap(*id),
            Type::Addr { group, value, bound } => {
                let inner: Type = (&**value).clone();
                Type::Addr { group: *group, value: Box::new(inner), bound: bound.clone() }
            },
        }
    }
}

impl Type {
    pub fn same(&self, other: &Type) -> (r: bool)
        ensures
            r == (self@ == other@),
        decreases self,
    {
        match (self, other) {
            (Type::Int, Type::Int) => true,
            (Type::Bool, Type::Bool) => true,
            (Type::Real, Type::Real) => true,
            (Type::Ref, Type::Ref) => true,
            (Type::Domain(i, a), Type::Domain(j, b)) => *i == *j && same_types(a, b),
            (Type::Generic(i), Type::Generic(j)) => *i == *j,
            (Type::Option(a), Type::Option(b)) => (&**a).same(&**b),
            (Type::Snap(i), Type::Snap(j)) => *i == *j,
            (
                Type::Addr { group: g, value: v, bound: b },
                Type::Addr { group: h, value: w, bound: c },
            ) => *g == *h && (&**v).same(&**w) && b.same(c),
            _ => false,
        }
    }

    /// The address type of a location group.
    pub fn addr(group: GroupId, value: Type, bound: Bound) -> (r: Type)
        ensures
            r@ == TypeV::Addr(group, Box::new(value@), bound@),
    {
        Type::Addr { group, value: Box::new(value), bound }
    }
}

/// A binary operator. Arithmetic and order are tagged with the operand sort.
#[derive(Debug, Clone, Copy, PartialEq, Eq, Hash, Structural)]
pub enum BinOp {
    AddI,
    AddR,
    SubI,
    SubR,
    MulI,
    MulR,
    DivI,
    DivR,
    Mod,
    LtI,
    LtR,
    Eq,
}

/// The sign of a literal in a path condition.
#[derive(Debug, Clone, Copy, PartialEq, Eq, Hash, Structural)]
pub enum Polarity {
    Positive,
    Negative,
}

/// A value of the verified program.
pub ghost enum Value {
    Null,
    Bool(bool),
    Int(int),
    Real(real),
    /// Anything else: a reference, an ADT or domain value, a snapshot, an address.
    Obj(int),
}

#[derive(Debug, PartialEq, Eq, Hash)]
pub enum Literal {
    Null,
    Bool(bool),
    Int(Int),
    Real(Rat),
}

impl View for Literal {
    type V = Value;

    open spec fn view(&self) -> Value {
        match self {
            Literal::Null => Value::Null,
            Literal::Bool(b) => Value::Bool(*b),
            Literal::Int(n) => Value::Int(n@),
            Literal::Real(q) => Value::Real(q@),
        }
    }
}

impl Clone for Literal {
    fn clone(&self) -> (r: Self)
        ensures
            r@ == self@,
    {
        match self {
            Literal::Null => Literal::Null,
            Literal::Bool(b) => Literal::Bool(*b),
            Literal::Int(n) => Literal::Int(n.clone()),
            Literal::Real(q) => Literal::Real(q.clone()),
        }
    }
}

impl Literal {
    pub fn same(&self, other: &Literal) -> (r: bool)
        ensures
            r == (self@ == other@),
    {
        match (self, other) {
            (Literal::Null, Literal::Null) => true,
            (Literal::Bool(a), Literal::Bool(b)) => *a == *b,
            (Literal::Int(a), Literal::Int(b)) => a.same(b),
            (Literal::Real(a), Literal::Real(b)) => a.same(b),
            _ => false,
        }
    }
}

/// An operand of an instruction: the value of an earlier instruction, by its slot,
/// or a literal.
#[derive(Debug, PartialEq, Eq, Hash)]
pub enum Val {
    Temp(usize),
    Literal(Literal),
}

pub ghost enum ValV {
    Temp(nat),
    Literal(Value),
}

impl View for Val {
    type V = ValV;

    open spec fn view(&self) -> ValV {
        match self {
            Val::Temp(n) => ValV::Temp(*n as nat),
            Val::Literal(l) => ValV::Literal(l@),
        }
    }
}

impl Clone for Val {
    fn clone(&self) -> (r: Self)
        ensures
            r@ == self@,
    {
        match self {
            Val::Temp(n) => Val::Temp(*n),
            Val::Literal(l) => Val::Literal(l.clone()),
        }
    }
}

} // verus!
