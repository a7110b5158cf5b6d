//! The types of classes, recovered from their terms.

use crate::graph::{lemma_canon_in, lemma_terms_in, Graph};
use crate::lang::{Id, Node, OpV, Symbolic};
use crate::rewrite::proj::lemma_distinct_below;
use crate::vmir::{BinOp, Literal, Type, TypeV, Value};
use std::collections::HashMap;
use vstd::prelude::*;

verus! {

broadcast use vstd::std_specs::hash::group_hash_axioms;

/// The types that terms do not show: those of symbols and of functions.
#[derive(Debug)]
pub struct Oracle {
    pub fresh_types: HashMap<u32, Type>,
    pub func_ret_types: HashMap<usize, Type>,
}

impl Oracle {
    pub fn new() -> (r: Oracle)
        ensures
            r.fresh_types@ == Map::<u32, Type>::empty(),
            r.func_ret_types@ == Map::<usize, Type>::empty(),
    {
        Oracle { fresh_types: HashMap::new(), func_ret_types: HashMap::new() }
    }
}

/// The type of a literal.
pub open spec fn value_type(v: Value) -> TypeV {
    match v {
        Value::Bool(_) => TypeV::Bool,
        Value::Int(_) => TypeV::Int,
        Value::Real(_) => TypeV::Real,
        _ => TypeV::Ref,
    }
}

/// The type of a literal.
pub fn lit_type(lit: &Literal) -> (r: Type)
    ensures
        r@ == value_type(lit@),
{
    match lit {
        Literal::Null => Type::Ref,
        Literal::Bool(_) => Type::Bool,
        Literal::Int(_) => Type::Int,
        Literal::Real(_) => Type::Real,
    }
}

/// The type that a term shows by itself.
pub open spec fn own_type(o: Oracle, n: Node) -> Option<TypeV> {
    match n.op {
        OpV::Lit(v) => Some(value_type(v)),
        OpV::RealCast => Some(TypeV::Real),
        OpV::Fresh(u) => if o.fresh_types@.dom().contains(u) {
            Some(o.fresh_types@[u]@)
        } else {
            None
        },
        OpV::FuncApp(f, _) => if o.func_ret_types@.dom().contains(f.0) {
            Some(o.func_ret_types@[f.0]@)
        } else {
            None
        },
        OpV::Binary(op) => match op {
            BinOp::Eq | BinOp::LtI | BinOp::LtR => Some(TypeV::Bool),
            _ => None,
        },
        OpV::Forall(_) => Some(TypeV::Bool),
        OpV::Ite => None,
    }
}

/// The child whose type a term has: the left operand, or the first branch.
pub open spec fn typed_like(n: Node) -> Option<Id> {
    match n.op {
        OpV::Binary(op) => match op {
            BinOp::Eq | BinOp::LtI | BinOp::LtR => None,
            _ => Some(n.args[0]),
        },
        OpV::Ite => Some(n.args[1]),
        _ => None,
    }
}

/// Whether a class has a type by a chain of at most `depth` terms.
pub open spec fn has_type(g: Graph, o: Oracle, class: Id, t: TypeV, depth: nat) -> bool
    decreases depth,
{
    depth > 0 && exists|k: int|
        #![trigger g.terms(class)[k]]
        0 <= k < g.terms(class).len() && (own_type(o, g.terms(class)[k]) == Some(t) || (typed_like(
            g.terms(class)[k],
        ) is Some && has_type(
            g,
            o,
            typed_like(g.terms(class)[k]).unwrap(),
            t,
            (depth - 1) as nat,
        )))
}

/// Whether the terms of a class show a type.
pub open spec fn typable(g: Graph, o: Oracle, class: Id, t: TypeV) -> bool {
    exists|depth: nat| #[trigger] has_type(g, o, class, t, depth)
}

/// No term of a class shows a type by itself, and those that have a child's type
/// have that child in the list.
spec fn closed_at(g: Graph, o: Oracle, class: Id, seen: Seq<Id>, n: int) -> bool {
    forall|k: int|
        0 <= k < n ==> own_type(o, #[trigger] g.terms(class)[k]) is None && (typed_like(
            g.terms(class)[k],
        ) matches Some(x) ==> seen.contains(g.canon(x)))
}

/// The classes of a list from an index on are closed.
spec fn closed_from(g: Graph, o: Oracle, seen: Seq<Id>, from: int) -> bool {
    forall|i: int|
        from <= i < seen.len() ==> closed_at(
            g,
            o,
            #[trigger] seen[i],
            seen,
            g.terms(seen[i]).len() as int,
        )
}

/// A closed list of classes shows no type.
proof fn lemma_closed(g: Graph, o: Oracle, seen: Seq<Id>, class: Id, t: TypeV, depth: nat)
    requires
        g.wf(),
        g.has(class),
        closed_from(g, o, seen, 0),
        seen.contains(g.canon(class)),
    ensures
        !has_type(g, o, class, t, depth),
    decreases depth,
{
    if has_type(g, o, class, t, depth) {
        lemma_canon_in(g, class);
        let k = choose|k: int|
            #![trigger g.terms(class)[k]]
            0 <= k < g.terms(class).len() && (own_type(o, g.terms(class)[k]) == Some(t) || (
            typed_like(g.terms(class)[k]) is Some && has_type(
                g,
                o,
                typed_like(g.terms(class)[k]).unwrap(),
                t,
                (depth - 1) as nat,
            )));
        let i = choose|i: int| 0 <= i < seen.len() && seen[i] == g.canon(class);
        assert(closed_at(g, o, seen[i], seen, g.terms(seen[i]).len() as int));
        assert(g.terms(seen[i])[k] == g.terms(class)[k]);
        let x = typed_like(g.terms(class)[k]).unwrap();
        lemma_terms_in(g, class, k);
        lemma_closed(g, o, seen, x, t, (depth - 1) as nat);
    }
}

fn lists_id(seen: &Vec<Id>, class: Id) -> (r: bool)
    ensures
        r == seen@.contains(class),
{
    let mut i: usize = 0;
    while i < seen.len()
        invariant
            i <= seen@.len(),
            forall|k: int| 0 <= k < i ==> seen@[k] != class,
        decreases seen.len() - i,
    {
        if seen[i] == class {
            return true;
        }
        i += 1;
    }
    false
}

fn shown_type(o: &Oracle, n: &Symbolic) -> (r: Option<Type>)
    ensures
        r is Some == own_type(*o, n@) is Some,
        r matches Some(t) ==> own_type(*o, n@) == Some(t@),
{
    match n {
        Symbolic::Lit(l) => Some(lit_type(l)),
        Symbolic::RealCast(_) => Some(Type::Real),
        Symbolic::Fresh(u) => match o.fresh_types.get(u) {
            Some(t) => Some(t.clone()),
            None => None,
        },
        Symbolic::FuncApp(f, _, _) => match o.func_ret_types.get(&f.0) {
            Some(t) => Some(t.clone()),
            None => None,
        },
        Symbolic::Binary(op, _) => match op {
            BinOp::Eq | BinOp::LtI | BinOp::LtR => Some(Type::Bool),
            _ => None,
        },
        Symbolic::Ite(_) => None,
        Symbolic::Forall(_, _) => Some(Type::Bool),
    }
}

fn like_child(n: &Symbolic) -> (r: Option<Id>)
    ensures
        r == typed_like(n@),
{
    match n {
        Symbolic::Binary(op, ids) => match op {
            BinOp::Eq | BinOp::LtI | BinOp::LtR => None,
            _ => Some(ids[0]),
        },
        Symbolic::Ite(ids) => Some(ids[1]),
        _ => None,
    }
}

/// The type that the terms of a class show, searched through classes not seen yet.
fn search_type(g: &Graph, o: &Oracle, class: Id, seen: &mut Vec<Id>) -> (r: Option<Type>)
    requires
        g.wf(),
        g.has(class),
        old(seen)@.no_duplicates(),
        forall|i: int| 0 <= i < old(seen)@.len() ==> g.has(#[trigger] old(seen)@[i]),
    ensures
        r matches Some(t) ==> typable(*g, *o, class, t@),
        r is None ==> {
            &&& final(seen)@.no_duplicates()
            &&& forall|i: int| 0 <= i < final(seen)@.len() ==> g.has(#[trigger] final(seen)@[i])
            &&& old(seen)@.is_prefix_of(final(seen)@)
            &&& final(seen)@.contains(g.canon(class))
            &&& closed_from(*g, *o, final(seen)@, old(seen)@.len() as int)
        },
    decreases g.len() - old(seen)@.len(),
{
    let c = g.find(class);
    let ghost before = seen@;
    proof {
        lemma_canon_in(*g, class);
    }
    if lists_id(seen, c) {
        return None;
    }
    seen.push(c);
    proof {
        assert(seen@[before.len() as int] == c);
        assert(seen@.no_duplicates());
        assert forall|i: int| 0 <= i < seen@.len() implies g.has(#[trigger] seen@[i]) by {
            if i < before.len() {
                assert(seen@[i] == before[i]);
            }
        }
        lemma_distinct_below(seen@, g.len());
    }
    let ts = g.terms_of(c);
    let ghost start = seen@;
    let mut i: usize = 0;
    while i < ts.len()
        invariant
            g.wf(),
            g.has(class),
            g.has(c),
            c == g.canon(class),
            g.terms(c) == g.terms(class),
            before.len() < g.len(),
            i <= ts@.len(),
            ts@.len() == g.terms(c).len(),
            forall|k: int| 0 <= k < ts@.len() ==> (#[trigger] ts@[k])@ == g.terms(c)[k],
            start == before.push(c),
            start.is_prefix_of(seen@),
            seen@.no_duplicates(),
            forall|k: int| 0 <= k < seen@.len() ==> g.has(#[trigger] seen@[k]),
            closed_at(*g, *o, c, seen@, i as int),
            closed_from(*g, *o, seen@, before.len() as int + 1),
            before == old(seen)@,
        decreases ts.len() - i,
    {
        proof {
            assert(ts@[i as int]@ == g.terms(c)[i as int]);
            lemma_terms_in(*g, c, i as int);
        }
        if let Some(t) = shown_type(o, &ts[i]) {
            proof {
                assert(g.terms(class)[i as int] == ts@[i as int]@);
                assert(has_type(*g, *o, class, t@, 1));
            }
            return Some(t);
        }
        let ghost mid = seen@;
        if let Some(x) = like_child(&ts[i]) {
            proof {
                assert(g.has(x));
                assert(start.len() <= seen@.len());
                lemma_distinct_below(seen@, g.len());
            }
            match search_type(g, o, x, seen) {
                Some(t) => {
                    proof {
                        let d = choose|d: nat| #[trigger] has_type(*g, *o, x, t@, d);
                        assert(g.terms(class)[i as int] == ts@[i as int]@);
                        assert(has_type(*g, *o, class, t@, d + 1));
                    }
                    return Some(t);
                },
                None => {},
            }
            proof {
                lemma_closed_grow(*g, *o, mid, seen@, c, i as int, before.len() as int + 1);
            }
        }
        i += 1;
    }
    proof {
        assert(seen@[before.len() as int] == start[before.len() as int]);
        assert(before.is_prefix_of(seen@)) by {
            assert forall|k: int| 0 <= k < before.len() implies before[k] == seen@[k] by {
                assert(start[k] == seen@[k]);
            }
            assert(before =~= seen@.subrange(0, before.len() as int));
        }
        assert forall|k: int| before.len() <= k < seen@.len() implies closed_at(
            *g,
            *o,
            #[trigger] seen@[k],
            seen@,
            g.terms(seen@[k]).len() as int,
        ) by {}
        assert(seen@.contains(c));
    }
    None
}

proof fn lemma_closed_grow(
    g: Graph,
    o: Oracle,
    a: Seq<Id>,
    b: Seq<Id>,
    c: Id,
    n: int,
    from: int,
)
    requires
        0 <= from <= a.len(),
        a.is_prefix_of(b),
        closed_at(g, o, c, a, n),
        closed_from(g, o, a, from),
        closed_from(g, o, b, a.len() as int),
    ensures
        closed_at(g, o, c, b, n),
        closed_from(g, o, b, from),
{
    assert forall|x: Id| a.contains(x) implies #[trigger] b.contains(x) by {
        let i = choose|i: int| 0 <= i < a.len() && a[i] == x;
        assert(b[i] == x);
    }
    assert forall|i: int| from <= i < b.len() implies closed_at(
        g,
        o,
        #[trigger] b[i],
        b,
        g.terms(b[i]).len() as int,
    ) by {
        if i < a.len() {
            assert(a[i] == b[i]);
            assert(closed_at(g, o, a[i], a, g.terms(a[i]).len() as int));
        }
    }
}

/// A type that the terms of a class show: of a literal its own, of a cast `Real`, of
/// a comparison and a quantifier `Bool`, of other operations that of the left
/// operand, of a choice that of the first branch, of symbols and functions the
/// recorded one. `None` where no term shows one.
pub fn infer_type(g: &Graph, o: &Oracle, class: Id) -> (r: Option<Type>)
    requires
        g.wf(),
        g.has(class),
    ensures
        r matches Some(t) ==> typable(*g, *o, class, t@),
        r is None ==> forall|t: TypeV| !typable(*g, *o, class, t),
{
    let mut seen: Vec<Id> = Vec::new();
    let r = search_type(g, o, class, &mut seen);
    proof {
        if r is None {
            assert forall|t: TypeV| !typable(*g, *o, class, t) by {
                if typable(*g, *o, class, t) {
                    let d = choose|d: nat| #[trigger] has_type(*g, *o, class, t, d);
                    lemma_closed(*g, *o, seen@, class, t, d);
                }
            }
        }
    }
    r
}

} // verus!
