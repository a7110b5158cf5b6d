//! Programs: declarations, and the instructions of their bodies.

use crate::interner::Interner;
use crate::vmir::{BinOp, MemberId, Polarity, Type, Val};
use vstd::prelude::*;

verus! {

/// A heap that an instruction reads.
#[derive(Debug, Clone, Copy, PartialEq, Eq, Hash, Structural)]
pub enum HeapVal {
    Empty,
    Temp(usize),
}

/// The conditions under which an instruction runs, the outermost first.
#[derive(Debug)]
pub struct PathConds {
    pub conds: Vec<(Val, Polarity)>,
}

/// A function applied to type arguments and values.
#[derive(Debug)]
pub struct FuncCall {
    pub function: MemberId,
    pub types: Vec<Type>,
    pub args: Vec<Val>,
}

/// A resource applied to values.
#[derive(Debug)]
pub struct ResourceCall {
    pub resource: MemberId,
    pub args: Vec<Val>,
}

/// A pattern over the binders of a quantifier and the values around it.
#[derive(Debug)]
pub enum TrigTerm {
    Val(Val),
    App { function: MemberId, types: Vec<Type>, args: Vec<TrigTerm> },
}

/// Patterns that must match together.
#[derive(Debug)]
pub struct Trigger {
    pub terms: Vec<TrigTerm>,
}

/// Instructions and the value that they compute.
#[derive(Debug)]
pub struct PureBody {
    pub insts: Vec<Inst>,
    pub res: Val,
}

/// A quantifier. Its body shares the slots of what is around it: slots below
/// `binder_base` are read from there, the binders come next, then one slot per
/// instruction. The label tells the quantifiers of a program apart.
#[derive(Debug)]
pub struct Forall {
    pub label: usize,
    pub binder_base: usize,
    pub bound: Vec<Type>,
    pub triggers: Vec<Trigger>,
    pub body: PureBody,
}

#[derive(Debug)]
pub enum PureInst {
    Fresh,
    Binary(BinOp, Val, Val),
    Ternary(Val, Val, Val),
    RealCast(Val),
    /// The value held at a location.
    Deref(HeapVal, Val),
    FunctionCall(FuncCall),
    /// The permission held at a location.
    Perm(HeapVal, Val),
    Forall(Box<Forall>),
}

/// Whether permission is put in or taken out.
#[derive(Debug, Clone, Copy, PartialEq, Eq, Hash, Structural)]
pub enum Sign {
    Add,
    Sub,
}

#[derive(Debug)]
pub enum Target {
    Loc(Val),
    Resource(ResourceCall),
}

#[derive(Debug)]
pub struct Assign {
    pub loc: Val,
    pub val: Val,
}

#[derive(Debug)]
pub enum HeapInst {
    /// `base` with the permission of a target put in or taken out.
    Combine { base: HeapVal, sign: Sign, target: Target, perm: Val },
    Fold { base: HeapVal, call: ResourceCall, perm: Val },
    Unfold { base: HeapVal, call: ResourceCall, perm: Val },
    Assign(HeapVal, Assign),
}

#[derive(Debug)]
pub enum InstKind {
    Pure(Type, PureInst),
    Heap(HeapInst),
    Assume(Val),
    Assert(Val),
}

#[derive(Debug)]
pub struct Inst {
    pub pc: PathConds,
    pub kind: InstKind,
}

/// A constructor of an ADT: its function, its tag, and the functions that read its
/// fields.
#[derive(Debug)]
pub struct AdtCtor {
    pub ctor_fn: MemberId,
    pub tag: usize,
    pub projections: Vec<MemberId>,
}

/// The declared functions of an ADT.
#[derive(Debug)]
pub struct AdtOps {
    pub tag_fn: MemberId,
    pub constructors: Vec<AdtCtor>,
}

/// A variant of an ADT: the key of its name, where it has one, and its fields.
#[derive(Debug)]
pub struct AdtVariant {
    pub name: Option<usize>,
    pub field_types: Vec<Type>,
}

/// An algebraic datatype. Its functions are declared, or minted on first use.
#[derive(Debug)]
pub struct Adt {
    pub variants: Vec<AdtVariant>,
    pub ops: Option<AdtOps>,
}

#[derive(Debug)]
pub struct Function {
    pub params: Vec<Type>,
    pub ret: Type,
    pub body: Option<PureBody>,
}

/// The functions of a predicate: its address, and the constructor and the
/// projections of its snapshot.
#[derive(Debug)]
pub struct PredMeta {
    pub addr_fn: MemberId,
    pub snap_cons: MemberId,
    pub snap_projs: Vec<MemberId>,
}

/// The body of a resource: the heap that it asks for, and a boolean.
#[derive(Debug)]
pub struct ResourceBody {
    pub insts: Vec<Inst>,
    pub res: (HeapVal, Val),
}

#[derive(Debug)]
pub struct Resource {
    pub params: Vec<Type>,
    pub body: Option<ResourceBody>,
    pub pred: Option<PredMeta>,
    /// The shape of the snapshot, where the body gives one.
    pub snapshot: Option<Adt>,
}

#[derive(Debug)]
pub struct Method {
    pub insts: Vec<Inst>,
}

#[derive(Debug)]
pub enum Declaration {
    Domain,
    Adt(Adt),
    Function(Function),
    Resource(Resource),
    Method(Method),
    Axiom(PureBody),
}

/// A program: its declarations, and the names of the first of them.
pub struct Program {
    pub interner: Interner,
    pub decls: Vec<Declaration>,
}

impl Program {
    /// The name of a declaration; empty where it has none.
    pub fn name(&self, id: MemberId) -> (r: String)
        ensures
            r@ == self.name_of(id as nat),
    {
        match self.interner.name(id) {
            Some(t) => t,
            None => {
                proof {
                    reveal_strlit("");
                    assert(""@ =~= Seq::empty());
                }
                crate::text::copy_text("")
            },
        }
    }

    /// The name of a declaration; empty where it has none.
    pub open spec fn name_of(self, id: nat) -> Seq<char> {
        if id < self.interner@.len() {
            self.interner@[id as int]
        } else {
            Seq::empty()
        }
    }
}

} // verus!
