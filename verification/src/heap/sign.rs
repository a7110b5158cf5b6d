//! Amounts that are positive by their shape.

use crate::graph::{congruent, lemma_class_terms, lemma_term_value, Graph};
use crate::lang::{Id, Node, OpV, Symbolic};
use crate::method::merge::amount;
use crate::model::Model;
use crate::nums::{Int, Rat};
use crate::terms::lemma_known;
use crate::vmir::{BinOp, Literal, Value};
use vstd::prelude::*;

verus! {

/// An amount is positive, or at least not negative.
pub open spec fn signed(m: Model, id: Id, strict: bool) -> bool {
    if strict {
        amount(m.at(id)) > 0 as real
    } else {
        amount(m.at(id)) >= 0 as real
    }
}

/// In every model an amount is positive, or at least not negative.
pub open spec fn sign_holds(g: Graph, id: Id, strict: bool) -> bool {
    g.full() || forall|m: Model| #[trigger] g.models(m) ==> signed(m, id, strict)
}

/// The comparison of zero with a class.
pub open spec fn above_zero(id: Id, zero: Id) -> Node {
    Node { op: OpV::Binary(BinOp::LtR), args: seq![zero, id] }
}

/// Some class lists that a class is above zero, and is known to be true.
pub open spec fn lists_positive(g: Graph, id: Id) -> bool {
    exists|z: Id, c: Id|
        {
            &&& #[trigger] g.has(z)
            &&& #[trigger] g.has(c)
            &&& g.terms(z).contains(
                Node { op: OpV::Lit(Value::Real(0 as real)), args: Seq::empty() },
            )
            &&& g.terms(c).contains(g.canon_term(above_zero(id, z)))
            &&& g.known_truth(c) == Some(true)
        }
}

/// In a congruent graph, whichever classes list zero and the comparison with it, the
/// comparison is known to be true.
proof fn lemma_lists_positive(g: Graph, id: Id)
    requires
        g.wf(),
        g.has(id),
        congruent(g),
        lists_positive(g, id),
    ensures
        g.lists(Node { op: OpV::Lit(Value::Real(0 as real)), args: Seq::empty() }),
        forall|z: Id| #[trigger]
            g.has(z) && g.terms(z).contains(
                Node { op: OpV::Lit(Value::Real(0 as real)), args: Seq::empty() },
            ) ==> g.lists(g.canon_term(above_zero(id, z))),
        forall|z: Id, c: Id| #[trigger]
            g.has(z) && #[trigger] g.has(c) && g.terms(z).contains(
                Node { op: OpV::Lit(Value::Real(0 as real)), args: Seq::empty() },
            ) && g.terms(c).contains(g.canon_term(above_zero(id, z))) ==> g.known_truth(c) == Some(
                true,
            ),
{
    let zn = Node { op: OpV::Lit(Value::Real(0 as real)), args: Seq::empty() };
    let (y, b) = choose|z: Id, c: Id|
        {
            &&& #[trigger] g.has(z)
            &&& #[trigger] g.has(c)
            &&& g.terms(z).contains(zn)
            &&& g.terms(c).contains(g.canon_term(above_zero(id, z)))
            &&& g.known_truth(c) == Some(true)
        };
    assert forall|z: Id| #[trigger] g.has(z) && g.terms(z).contains(zn) implies g.canon_term(
        above_zero(id, z),
    ) == g.canon_term(above_zero(id, y)) by {
        assert(g.canon(z) == g.canon(y));
        assert(g.canon_term(above_zero(id, z)).args =~= g.canon_term(above_zero(id, y)).args);
    }
    assert forall|z: Id, c: Id| #[trigger]
        g.has(z) && #[trigger] g.has(c) && g.terms(z).contains(zn) && g.terms(c).contains(
            g.canon_term(above_zero(id, z)),
        ) implies g.known_truth(c) == Some(true) by {
        assert(g.terms(b).contains(g.canon_term(above_zero(id, z))));
        assert(g.canon(c) == g.canon(b));
        lemma_class_terms(g, c, b);
    }
}

/// Whether the graph lists that a class is positive, and knows it to be true.
pub fn positivity_known(g: &Graph, id: Id) -> (r: bool)
    requires
        g.wf(),
        g.has(id),
    ensures
        r ==> sign_holds(*g, id, true),
        r ==> lists_positive(*g, id),
        congruent(*g) ==> r == lists_positive(*g, id),
{
    proof {
        if congruent(*g) && lists_positive(*g, id) {
            lemma_lists_positive(*g, id);
        }
    }
    let zero = Symbolic::Lit(Literal::Real(Rat::from_int(&Int::from_i64(0))));
    let ghost zn = Node { op: OpV::Lit(Value::Real(0 as real)), args: Seq::empty() };
    proof {
        assert(zero@.args =~= Seq::empty());
        assert(g.canon_term(zero@).args =~= Seq::empty());
        assert(g.canon_term(zero@) == zn);
    }
    let z = match g.lookup(&zero) {
        Some(z) => z,
        None => {
            return false;
        },
    };
    let lt = Symbolic::Binary(BinOp::LtR, [z, g.find(id)]);
    proof {
        assert(lt@.args =~= seq![z, g.canon(id)]);
        assert forall|j: int| 0 <= j < lt@.args.len() implies g.has(#[trigger] lt@.args[j]) by {}
        crate::graph::lemma_canon_in(*g, id);
        assert(g.canon_term(lt@).args =~= g.canon_term(above_zero(id, z)).args);
    }
    let c = match g.lookup(&lt) {
        Some(c) => c,
        None => {
            return false;
        },
    };
    let r = g.known_bool(c) == Some(true);
    proof {
        let n = g.canon_term(lt@);
        assert(n.args =~= g.canon_term(above_zero(id, z)).args);
        if r && !g.full() {
            assert forall|m: Model| #[trigger] g.models(m) implies signed(m, id, true) by {
                let k = choose|k: int| 0 <= k < g.terms(c).len() && g.terms(c)[k] == n;
                lemma_term_value(*g, m, c, k);
                lemma_known(*g, m, c);
                let j = choose|j: int| 0 <= j < g.terms(z).len() && g.terms(z)[j] == zn;
                lemma_term_value(*g, m, z, j);
                assert(m.all(zn.args) =~= Seq::empty());
                assert(n.args =~= seq![g.canon(z), g.canon(id)]);
                assert(m.all(n.args) =~= seq![m.at(g.canon(z)), m.at(g.canon(id))]);
                crate::graph::lemma_canon_value(*g, m, id);
            }
        }
    }
    r
}

/// What a term of a class says of its sign.
proof fn lemma_term_sign(g: Graph, m: Model, id: Id, k: int, strict: bool)
    requires
        g.wf(),
        g.models(m),
        g.has(id),
        0 <= k < g.terms(id).len(),
        ({
            let n = g.terms(id)[k];
            match n.op {
                OpV::Ite => n.args.len() == 3 && signed(m, n.args[1], strict) && signed(
                    m,
                    n.args[2],
                    strict,
                ),
                OpV::Binary(BinOp::AddR) => n.args.len() == 2 && if strict {
                    (signed(m, n.args[0], true) && signed(m, n.args[1], false)) || (signed(
                        m,
                        n.args[1],
                        true,
                    ) && signed(m, n.args[0], false))
                } else {
                    signed(m, n.args[0], false) && signed(m, n.args[1], false)
                },
                OpV::Binary(BinOp::MulR) => n.args.len() == 2 && signed(m, n.args[0], strict)
                    && signed(m, n.args[1], strict),
                _ => false,
            }
        }),
    ensures
        signed(m, id, strict),
{
    let n = g.terms(id)[k];
    lemma_term_value(g, m, id, k);
    if n.op == OpV::Ite {
        assert(m.all(n.args) =~= seq![m.at(n.args[0]), m.at(n.args[1]), m.at(n.args[2])]);
    } else {
        assert(m.all(n.args) =~= seq![m.at(n.args[0]), m.at(n.args[1])]);
        let x = amount(m.at(n.args[0]));
        let y = amount(m.at(n.args[1]));
        if strict {
            if x > 0 as real && y > 0 as real {
                assert(x * y > 0 as real) by (nonlinear_arith)
                    requires
                        x > 0 as real,
                        y > 0 as real,
                ;
            }
        } else if x >= 0 as real && y >= 0 as real {
            assert(x * y >= 0 as real) by (nonlinear_arith)
                requires
                    x >= 0 as real,
                    y >= 0 as real,
            ;
        }
    }
}

fn in_progress(seen: &Vec<(Id, bool)>, id: Id, strict: bool) -> (r: bool)
    ensures
        r == seen@.contains((id, strict)),
{
    let mut i: usize = 0;
    while i < seen.len()
        invariant
            i <= seen@.len(),
            forall|k: int| 0 <= k < i ==> #[trigger] seen@[k] != (id, strict),
        decreases seen.len() - i,
    {
        if seen[i].0 == id && seen[i].1 == strict {
            proof {
                assert(seen@[i as int] == (id, strict));
            }
            return true;
        }
        i += 1;
    }
    false
}

/// Whether the shape of a class gives its sign. A class that is being looked at gives
/// none.
fn perm_sign(g: &Graph, id: Id, strict: bool, seen: &mut Vec<(Id, bool)>, fuel: u64) -> (r: bool)
    requires
        g.wf(),
        g.has(id),
    ensures
        r ==> sign_holds(*g, id, strict),
        final(seen)@ == old(seen)@,
        g.known_value(id) matches Some(Value::Real(q)) ==> (fuel > 0 && !old(seen)@.contains(
            (g.canon(id), strict),
        ) ==> r == (if strict {
            q > 0 as real
        } else {
            q >= 0 as real
        })),
    decreases fuel,
{
    if fuel == 0 {
        return false;
    }
    let c = g.find(id);
    if in_progress(seen, c, strict) {
        return false;
    }
    if let Some(q) = g.known_real(id) {
        let zero = Rat::from_int(&Int::from_i64(0));
        let r = if strict {
            zero.less(&q)
        } else {
            !q.less(&zero)
        };
        proof {
            assert forall|m: Model| #[trigger] g.models(m) && r implies signed(m, id, strict) by {
                lemma_known(*g, m, id);
            }
        }
        return r;
    }
    if strict && positivity_known(g, id) {
        return true;
    }
    let ghost before = seen@;
    seen.push((c, strict));
    let ts = g.terms_of(id);
    let mut found = false;
    let mut i: usize = 0;
    while i < ts.len() && !found
        invariant
            i <= ts@.len(),
            g.wf(),
            g.has(id),
            fuel > 0,
            ts@.len() == g.terms(id).len(),
            forall|k: int| 0 <= k < ts@.len() ==> (#[trigger] ts@[k])@ == g.terms(id)[k],
            forall|k: int| 0 <= k < ts@.len() ==> g.has_all((#[trigger] ts@[k])@.args),
            seen@ == before.push((c, strict)),
            found ==> sign_holds(*g, id, strict),
        decreases ts.len() - i,
    {
        let ghost n = g.terms(id)[i as int];
        proof {
            assert(ts@[i as int]@ == n);
            assert(g.has_all(ts@[i as int]@.args));
        }
        match &ts[i] {
            Symbolic::Ite(arms) => {
                let t = arms[1];
                let e = arms[2];
                proof {
                    assert(n.args =~= seq![arms[0], t, e]);
                    assert(g.has(n.args[1]) && g.has(n.args[2]));
                }
                let yes = perm_sign(g, t, strict, seen, fuel - 1);
                found = yes && perm_sign(g, e, strict, seen, fuel - 1);
            },
            Symbolic::Binary(op, arms) => {
                let x = arms[0];
                let y = arms[1];
                proof {
                    assert(n.args =~= seq![x, y]);
                    assert(g.has(n.args[0]) && g.has(n.args[1]));
                }
                if *op == BinOp::AddR {
                    if strict {
                        let px = perm_sign(g, x, true, seen, fuel - 1);
                        found = px && perm_sign(g, y, false, seen, fuel - 1);
                        if !found {
                            let py = perm_sign(g, y, true, seen, fuel - 1);
                            found = py && perm_sign(g, x, false, seen, fuel - 1);
                        }
                    } else {
                        let px = perm_sign(g, x, false, seen, fuel - 1);
                        found = px && perm_sign(g, y, false, seen, fuel - 1);
                    }
                } else if *op == BinOp::MulR {
                    let px = perm_sign(g, x, strict, seen, fuel - 1);
                    found = px && perm_sign(g, y, strict, seen, fuel - 1);
                }
            },
            _ => {},
        }
        proof {
            if found && !g.full() {
                assert forall|m: Model| #[trigger] g.models(m) implies signed(m, id, strict) by {
                    lemma_term_sign(*g, m, id, i as int, strict);
                }
            }
        }
        i += 1;
    }
    let _ = seen.pop();
    proof {
        assert(seen@ =~= before);
    }
    found
}

/// Whether the shape of a class makes it positive.
pub fn perm_known_positive(g: &Graph, id: Id) -> (r: bool)
    requires
        g.wf(),
        g.has(id),
    ensures
        r ==> sign_holds(*g, id, true),
        g.known_value(id) matches Some(Value::Real(q)) ==> r == (q > 0 as real),
{
    let mut seen: Vec<(Id, bool)> = Vec::new();
    proof {
        crate::graph::lemma_len_bound(*g);
    }
    let n: u64 = g.size() as u64;
    perm_sign(g, id, true, &mut seen, 2 * n + 1)
}

} // verus!
