//! The terms of the e-graph.

use crate::nums::{parsed_int, parsed_rat, Int, Rat};
use crate::text::{concat, copy_text, decimal, number, same_text};
use crate::vmir::{clone_types, same_types, types_view, BinOp, Literal, Type, TypeV, Value};
use vstd::prelude::*;

verus! {

/// The name of an equivalence class.
pub type Id = u32;

/// A function of the e-graph. A plain function reuses its declaration's index; the
/// operations of an ADT get one freshly minted index per concept.
#[derive(Debug, Clone, Copy, PartialEq, Eq, Hash, Structural)]
pub struct FuncId(pub usize);

/// A compiled quantifier body.
#[derive(Debug, Clone, Copy, PartialEq, Eq, Hash, Structural)]
pub struct RecipeId(pub usize);

/// A term over classes.
#[derive(Debug, PartialEq, Eq, Hash)]
pub enum Symbolic {
    Fresh(u32),
    Lit(Literal),
    Binary(BinOp, [Id; 2]),
    Ite([Id; 3]),
    /// A function applied to its ground type arguments and its values. The type
    /// arguments belong to the operator, not to the children.
    FuncApp(FuncId, Vec<Type>, Vec<Id>),
    RealCast(Id),
    /// A quantifier: its compiled body, over the outer terms that it captures.
    Forall(RecipeId, Vec<Id>),
}

/// What a term applies to its children.
#[derive(Debug, PartialEq, Eq, Hash)]
pub enum Op {
    Fresh(u32),
    Lit(Literal),
    Binary(BinOp),
    Ite,
    FuncApp(FuncId, Vec<Type>),
    RealCast,
    Forall(RecipeId),
}

#[verifier::ext_equal]
pub ghost enum OpV {
    Fresh(u32),
    Lit(Value),
    Binary(BinOp),
    Ite,
    FuncApp(FuncId, Seq<TypeV>),
    RealCast,
    Forall(RecipeId),
}

impl View for Op {
    type V = OpV;

    open spec fn view(&self) -> OpV {
        match self {
            Op::Fresh(n) => OpV::Fresh(*n),
            Op::Lit(l) => OpV::Lit(l@),
            Op::Binary(op) => OpV::Binary(*op),
            Op::Ite => OpV::Ite,
            Op::FuncApp(f, tys) => OpV::FuncApp(*f, types_view(tys@)),
            Op::RealCast => OpV::RealCast,
            Op::Forall(r) => OpV::Forall(*r),
        }
    }
}

/// A term, as its operator and its children.
#[verifier::ext_equal]
pub ghost struct Node {
    pub op: OpV,
    pub args: Seq<Id>,
}

impl View for Symbolic {
    type V = Node;

    open spec fn view(&self) -> Node {
        match self {
            Symbolic::Fresh(n) => Node { op: OpV::Fresh(*n), args: Seq::empty() },
            Symbolic::Lit(l) => Node { op: OpV::Lit(l@), args: Seq::empty() },
            Symbolic::Binary(op, ids) => Node { op: OpV::Binary(*op), args: ids@ },
            Symbolic::Ite(ids) => Node { op: OpV::Ite, args: ids@ },
            Symbolic::FuncApp(f, tys, ids) => Node {
                op: OpV::FuncApp(*f, types_view(tys@)),
                args: ids@,
            },
            Symbolic::RealCast(id) => Node { op: OpV::RealCast, args: seq![*id] },
            Symbolic::Forall(r, caps) => Node { op: OpV::Forall(*r), args: caps@ },
        }
    }
}

/// The number of children that an operator takes, where it is fixed.
pub open spec fn arity_ok(n: Node) -> bool {
    match n.op {
        OpV::Fresh(_) => n.args.len() == 0,
        OpV::Lit(_) => n.args.len() == 0,
        OpV::Binary(_) => n.args.len() == 2,
        OpV::Ite => n.args.len() == 3,
        OpV::FuncApp(_, _) => true,
        OpV::RealCast => n.args.len() == 1,
        OpV::Forall(_) => true,
    }
}

impl Clone for Op {
    fn clone(&self) -> (r: Self)
        ensures
            r@ == self@,
    {
        match self {
            Op::Fresh(n) => Op::Fresh(*n),
            Op::Lit(l) => Op::Lit(l.clone()),
            Op::Binary(op) => Op::Binary(*op),
            Op::Ite => Op::Ite,
            Op::FuncApp(f, tys) => Op::FuncApp(*f, clone_types(tys)),
            Op::RealCast => Op::RealCast,
            Op::Forall(r) => Op::Forall(*r),
        }
    }
}

impl Op {
    pub fn same(&self, other: &Op) -> (r: bool)
        ensures
            r == (self@ == other@),
    {
        match (self, other) {
            (Op::Fresh(a), Op::Fresh(b)) => *a == *b,
            (Op::Lit(a), Op::Lit(b)) => a.same(b),
            (Op::Binary(a), Op::Binary(b)) => *a == *b,
            (Op::Ite, Op::Ite) => true,
            (Op::FuncApp(f, a), Op::FuncApp(g, b)) => *f == *g && same_types(a, b),
            (Op::RealCast, Op::RealCast) => true,
            (Op::Forall(a), Op::Forall(b)) => *a == *b,
            _ => false,
        }
    }
}

impl Symbolic {
    /// The operator of a term.
    pub fn operator(&self) -> (r: Op)
        ensures
            r@ == self@.op,
    {
        match self {
            Symbolic::Fresh(n) => Op::Fresh(*n),
            Symbolic::Lit(l) => Op::Lit(l.clone()),
            Symbolic::Binary(op, _) => Op::Binary(*op),
            Symbolic::Ite(_) => Op::Ite,
            Symbolic::FuncApp(f, tys, _) => Op::FuncApp(*f, clone_types(tys)),
            Symbolic::RealCast(_) => Op::RealCast,
            Symbolic::Forall(r, _) => Op::Forall(*r),
        }
    }

    /// The children of a term. Type arguments and quantifier bodies belong to the
    /// operator: only values are children.
    pub fn children(&self) -> (r: Vec<Id>)
        ensures
            r@ == self@.args,
    {
        let mut out: Vec<Id> = Vec::new();
        match self {
            Symbolic::Fresh(_) => {},
            Symbolic::Lit(_) => {},
            Symbolic::Binary(_, ids) => {
                out.push(ids[0]);
                out.push(ids[1]);
            },
            Symbolic::Ite(ids) => {
                out.push(ids[0]);
                out.push(ids[1]);
                out.push(ids[2]);
            },
            Symbolic::FuncApp(_, _, ids) => {
                out = ids.clone();
            },
            Symbolic::RealCast(id) => {
                out.push(*id);
            },
            Symbolic::Forall(_, caps) => {
                out = caps.clone();
            },
        }
        proof {
            assert(out@ =~= self@.args);
        }
        out
    }

    /// The term that an operator makes of its children.
    pub fn build(op: &Op, args: &Vec<Id>) -> (r: Symbolic)
        requires
            arity_ok(Node { op: op@, args: args@ }),
        ensures
            r@ == (Node { op: op@, args: args@ }),
    {
        let r = match op {
            Op::Fresh(n) => Symbolic::Fresh(*n),
            Op::Lit(l) => Symbolic::Lit(l.clone()),
            Op::Binary(op) => Symbolic::Binary(*op, [args[0], args[1]]),
            Op::Ite => Symbolic::Ite([args[0], args[1], args[2]]),
            Op::FuncApp(f, tys) => Symbolic::FuncApp(*f, clone_types(tys), args.clone()),
            Op::RealCast => Symbolic::RealCast(args[0]),
            Op::Forall(r) => Symbolic::Forall(*r, args.clone()),
        };
        proof {
            assert(r@.args =~= args@);
        }
        r
    }
}

/// What a term is found by: its operator without type arguments and quantifier bodies.
#[derive(Debug, PartialEq, Eq, Hash)]
pub enum Discriminant {
    Fresh(u32),
    Lit(Literal),
    Binary(BinOp),
    Ite,
    FuncApp(FuncId),
    RealCast,
    Forall,
}

#[verifier::ext_equal]
pub ghost enum DiscriminantV {
    Fresh(u32),
    Lit(Value),
    Binary(BinOp),
    Ite,
    FuncApp(FuncId),
    RealCast,
    Forall,
}

impl View for Discriminant {
    type V = DiscriminantV;

    open spec fn view(&self) -> DiscriminantV {
        match self {
            Discriminant::Fresh(n) => DiscriminantV::Fresh(*n),
            Discriminant::Lit(l) => DiscriminantV::Lit(l@),
            Discriminant::Binary(op) => DiscriminantV::Binary(*op),
            Discriminant::Ite => DiscriminantV::Ite,
            Discriminant::FuncApp(f) => DiscriminantV::FuncApp(*f),
            Discriminant::RealCast => DiscriminantV::RealCast,
            Discriminant::Forall => DiscriminantV::Forall,
        }
    }
}

/// What a term with an operator is found by.
pub open spec fn found_by(op: OpV) -> DiscriminantV {
    match op {
        OpV::Fresh(n) => DiscriminantV::Fresh(n),
        OpV::Lit(v) => DiscriminantV::Lit(v),
        OpV::Binary(op) => DiscriminantV::Binary(op),
        OpV::Ite => DiscriminantV::Ite,
        OpV::FuncApp(f, _) => DiscriminantV::FuncApp(f),
        OpV::RealCast => DiscriminantV::RealCast,
        OpV::Forall(_) => DiscriminantV::Forall,
    }
}

/// Whether two terms apply one operator to as many children. Type arguments do not
/// count.
pub open spec fn same_operator(a: Node, b: Node) -> bool {
    match (a.op, b.op) {
        (OpV::FuncApp(f, _), OpV::FuncApp(g, _)) => f == g && a.args.len() == b.args.len(),
        (OpV::Forall(r), OpV::Forall(q)) => r == q && a.args.len() == b.args.len(),
        _ => a.op == b.op,
    }
}

/// Terms with one operator are found by the same.
pub proof fn law_same_operator(a: Node, b: Node)
    requires
        same_operator(a, b),
    ensures
        found_by(a.op) == found_by(b.op),
{
}

impl Symbolic {
    pub fn discriminant(&self) -> (r: Discriminant)
        ensures
            r@ == found_by(self@.op),
    {
        match self {
            Symbolic::Fresh(n) => Discriminant::Fresh(*n),
            Symbolic::Lit(l) => Discriminant::Lit(l.clone()),
            Symbolic::Binary(op, _) => Discriminant::Binary(*op),
            Symbolic::Ite(_) => Discriminant::Ite,
            Symbolic::FuncApp(f, _, _) => Discriminant::FuncApp(*f),
            Symbolic::RealCast(_) => Discriminant::RealCast,
            Symbolic::Forall(_, _) => Discriminant::Forall,
        }
    }

    /// Whether two terms apply one operator to as many children.
    pub fn matches(&self, other: &Symbolic) -> (r: bool)
        ensures
            r == same_operator(self@, other@),
    {
        match (self, other) {
            (Symbolic::Fresh(a), Symbolic::Fresh(b)) => *a == *b,
            (Symbolic::Lit(a), Symbolic::Lit(b)) => a.same(b),
            (Symbolic::Binary(a, _), Symbolic::Binary(b, _)) => *a == *b,
            (Symbolic::Ite(_), Symbolic::Ite(_)) => true,
            (Symbolic::RealCast(_), Symbolic::RealCast(_)) => true,
            (Symbolic::FuncApp(f, _, xs), Symbolic::FuncApp(g, _, ys)) => *f == *g && xs.len()
                == ys.len(),
            (Symbolic::Forall(p, xs), Symbolic::Forall(q, ys)) => *p == *q && xs.len()
                == ys.len(),
            _ => false,
        }
    }
}

/// Why a token of a rewrite pattern is no operator.
#[derive(Debug)]
pub struct FromOpError(pub String);

impl FromOpError {
    /// The text that describes the error.
    pub fn text(&self) -> (r: String)
        ensures
            r@ == self.0@,
    {
        copy_text(self.0.as_str())
    }
}

/// The binary operation that a token names. Arithmetic names its sort.
pub open spec fn binop_of(op: Seq<char>) -> Option<BinOp> {
    if op == "+i"@ {
        Some(BinOp::AddI)
    } else if op == "+r"@ {
        Some(BinOp::AddR)
    } else if op == "-i"@ {
        Some(BinOp::SubI)
    } else if op == "-r"@ {
        Some(BinOp::SubR)
    } else if op == "*i"@ {
        Some(BinOp::MulI)
    } else if op == "*r"@ {
        Some(BinOp::MulR)
    } else if op == "/i"@ {
        Some(BinOp::DivI)
    } else if op == "/r"@ {
        Some(BinOp::DivR)
    } else if op == "mod"@ {
        Some(BinOp::Mod)
    } else if op == "<i"@ {
        Some(BinOp::LtI)
    } else if op == "<r"@ {
        Some(BinOp::LtR)
    } else if op == "=="@ {
        Some(BinOp::Eq)
    } else {
        None
    }
}

/// A token of arithmetic that does not name a sort.
pub open spec fn ambiguous(op: Seq<char>) -> bool {
    op == "+"@ || op == "-"@ || op == "*"@ || op == "/"@ || op == "<"@
}

/// A literal term.
pub open spec fn lit_node(v: Value) -> Node {
    Node { op: OpV::Lit(v), args: Seq::empty() }
}

/// What a token and its children say.
pub ghost enum Reading {
    Term(Node),
    Refused(Seq<char>),
}

/// What a leaf says, where a text may denote an integer or else a rational.
pub open spec fn read_leaf(op: Seq<char>, n: Option<int>, q: Option<real>) -> Reading {
    match (n, q) {
        (Some(n), _) => Reading::Term(lit_node(Value::Int(n))),
        (None, Some(q)) => Reading::Term(lit_node(Value::Real(q))),
        (None, None) => Reading::Refused("unknown leaf `"@ + op + "`"@),
    }
}

/// What a token and its children say.
pub open spec fn read_op(op: Seq<char>, args: Seq<Id>) -> Reading {
    if op == "true"@ && args.len() == 0 {
        Reading::Term(lit_node(Value::Bool(true)))
    } else if op == "false"@ && args.len() == 0 {
        Reading::Term(lit_node(Value::Bool(false)))
    } else if op == "null"@ && args.len() == 0 {
        Reading::Term(lit_node(Value::Null))
    } else if op == "ite"@ && args.len() == 3 {
        Reading::Term(Node { op: OpV::Ite, args })
    } else if op == "real"@ && args.len() == 1 {
        Reading::Term(Node { op: OpV::RealCast, args })
    } else if binop_of(op) is Some {
        if args.len() == 2 {
            Reading::Term(Node { op: OpV::Binary(binop_of(op).unwrap()), args })
        } else {
            Reading::Refused("`"@ + op + "` expects 2 children"@)
        }
    } else if ambiguous(op) {
        Reading::Refused(
            "`"@ + op + "` is sort-ambiguous — write `"@ + op + "i` (Int) or `"@ + op
                + "r` (Real)"@,
        )
    } else if args.len() == 0 {
        read_leaf(op, parsed_int(op), parsed_rat(op))
    } else {
        Reading::Refused("unknown op `"@ + op + "`/"@ + decimal(args.len()))
    }
}

/// A result says what was read.
pub open spec fn says(r: Result<Symbolic, FromOpError>, read: Reading) -> bool {
    match (r, read) {
        (Ok(t), Reading::Term(n)) => t@ == n,
        (Err(e), Reading::Refused(text)) => e.0@ == text,
        _ => false,
    }
}

/// The binary operation that a token names.
fn find_binop(op: &str) -> (r: Option<BinOp>)
    ensures
        r == binop_of(op@),
{
    if same_text(op, "+i") {
        Some(BinOp::AddI)
    } else if same_text(op, "+r") {
        Some(BinOp::AddR)
    } else if same_text(op, "-i") {
        Some(BinOp::SubI)
    } else if same_text(op, "-r") {
        Some(BinOp::SubR)
    } else if same_text(op, "*i") {
        Some(BinOp::MulI)
    } else if same_text(op, "*r") {
        Some(BinOp::MulR)
    } else if same_text(op, "/i") {
        Some(BinOp::DivI)
    } else if same_text(op, "/r") {
        Some(BinOp::DivR)
    } else if same_text(op, "mod") {
        Some(BinOp::Mod)
    } else if same_text(op, "<i") {
        Some(BinOp::LtI)
    } else if same_text(op, "<r") {
        Some(BinOp::LtR)
    } else if same_text(op, "==") {
        Some(BinOp::Eq)
    } else {
        None
    }
}

/// Three texts in a row.
fn joined(a: &str, b: &str, c: &str) -> (r: String)
    ensures
        r@ == a@ + b@ + c@,
{
    let front = concat(a, b);
    concat(front.as_str(), c)
}

/// The literal that a leaf says, where its text may denote an integer or else a
/// rational.
pub fn leaf_of(op: &str, n: Option<Int>, q: Option<Rat>) -> (r: Result<Symbolic, FromOpError>)
    ensures
        says(
            r,
            read_leaf(
                op@,
                match n {
                    Some(n) => Some(n@),
                    None => None,
                },
                match q {
                    Some(q) => Some(q@),
                    None => None,
                },
            ),
        ),
{
    match (n, q) {
        (Some(n), _) => Ok(Symbolic::Lit(Literal::Int(n))),
        (None, Some(q)) => Ok(Symbolic::Lit(Literal::Real(q))),
        (None, None) => Err(FromOpError(joined("unknown leaf `", op, "`"))),
    }
}

impl Symbolic {
    /// The term that a token of a rewrite pattern says of its children.
    pub fn from_op(op: &str, children: Vec<Id>) -> (r: Result<Symbolic, FromOpError>)
        ensures
            says(r, read_op(op@, children@)),
    {
        if same_text(op, "true") && children.len() == 0 {
            return Ok(Symbolic::Lit(Literal::Bool(true)));
        }
        if same_text(op, "false") && children.len() == 0 {
            return Ok(Symbolic::Lit(Literal::Bool(false)));
        }
        if same_text(op, "null") && children.len() == 0 {
            return Ok(Symbolic::Lit(Literal::Null));
        }
        if same_text(op, "ite") && children.len() == 3 {
            let t = Symbolic::Ite([children[0], children[1], children[2]]);
            proof {
                assert(t@.args =~= children@);
            }
            return Ok(t);
        }
        if same_text(op, "real") && children.len() == 1 {
            let t = Symbolic::RealCast(children[0]);
            proof {
                assert(t@.args =~= children@);
            }
            return Ok(t);
        }
        if let Some(b) = find_binop(op) {
            if children.len() == 2 {
                let t = Symbolic::Binary(b, [children[0], children[1]]);
                proof {
                    assert(t@.args =~= children@);
                }
                return Ok(t);
            }
            return Err(FromOpError(joined("`", op, "` expects 2 children")));
        }
        if same_text(op, "+") || same_text(op, "-") || same_text(op, "*") || same_text(op, "/")
            || same_text(op, "<") {
            let front = joined("`", op, "` is sort-ambiguous — write `");
            let mid = joined(front.as_str(), op, "i` (Int) or `");
            return Err(FromOpError(joined(mid.as_str(), op, "r` (Real)")));
        }
        if children.len() == 0 {
            let n = Int::parse(op);
            let q = match &n {
                Some(_) => None,
                None => Rat::parse(op),
            };
            return leaf_of(op, n, q);
        }
        let front = joined("unknown op `", op, "`/");
        let count = number(children.len());
        Err(FromOpError(concat(front.as_str(), count.as_str())))
    }
}

} // verus!
