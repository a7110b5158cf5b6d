//! Guard cubes: conjunctions of literals over classes.

use crate::context::{cube_holds, cube_in, lit_holds};
use crate::graph::{lemma_same_class, Graph};
use crate::lang::Id;
use crate::model::Model;
use crate::prove::{copy_cube, lemma_cube_push_holds, lemma_cube_push_in};
use crate::vmir::Polarity;
use vstd::prelude::*;

verus! {

/// The polarity with which the first literal over a class occurs in a cube.
pub open spec fn polarity_of(g: Graph, cube: Seq<(Id, Polarity)>, id: Id) -> Option<Polarity>
    decreases cube.len(),
{
    if cube.len() == 0 {
        None
    } else if g.canon(cube[0].0) == g.canon(id) {
        Some(cube[0].1)
    } else {
        polarity_of(g, cube.drop_first(), id)
    }
}

/// Whether a cube holds a literal, classes taken as they are.
pub open spec fn has_literal(g: Graph, cube: Seq<(Id, Polarity)>, lit: (Id, Polarity)) -> bool {
    exists|i: int|
        0 <= i < cube.len() && (#[trigger] cube[i]).1 == lit.1 && g.canon(cube[i].0) == g.canon(
            lit.0,
        )
}

/// The conjunction of two cubes; `None` where a literal of one contradicts the other.
pub open spec fn meet(g: Graph, a: Seq<(Id, Polarity)>, b: Seq<(Id, Polarity)>) -> Option<
    Seq<(Id, Polarity)>,
>
    decreases b.len(),
{
    if b.len() == 0 {
        Some(a)
    } else {
        match meet(g, a, b.drop_last()) {
            None => None,
            Some(c) => match polarity_of(g, c, b.last().0) {
                Some(p) => if p == b.last().1 {
                    Some(c)
                } else {
                    None
                },
                None => Some(c.push(b.last())),
            },
        }
    }
}

/// Whether every literal of `sub` is in `cube`.
pub open spec fn entails(g: Graph, cube: Seq<(Id, Polarity)>, sub: Seq<(Id, Polarity)>) -> bool {
    forall|i: int| 0 <= i < sub.len() ==> has_literal(g, cube, #[trigger] sub[i])
}

/// A cube with a literal, unless it is there already.
pub open spec fn pushed(g: Graph, cube: Seq<(Id, Polarity)>, lit: (Id, Polarity)) -> Seq<
    (Id, Polarity),
> {
    if has_literal(g, cube, lit) {
        cube
    } else {
        cube.push(lit)
    }
}

fn find_polarity(g: &Graph, cube: &Vec<(Id, Polarity)>, id: Id) -> (r: Option<Polarity>)
    requires
        g.wf(),
        g.has(id),
        cube_in(*g, cube@),
    ensures
        r == polarity_of(*g, cube@, id),
{
    let c = g.find(id);
    let mut i: usize = 0;
    proof {
        assert(cube@.skip(0) =~= cube@);
    }
    while i < cube.len()
        invariant
            g.wf(),
            cube_in(*g, cube@),
            c == g.canon(id),
            i <= cube@.len(),
            polarity_of(*g, cube@, id) == polarity_of(*g, cube@.skip(i as int), id),
        decreases cube.len() - i,
    {
        proof {
            assert(g.has(cube@[i as int].0));
            assert(cube@.skip(i as int)[0] == cube@[i as int]);
            assert(cube@.skip(i as int).drop_first() =~= cube@.skip(i + 1));
        }
        if g.find(cube[i].0) == c {
            return Some(cube[i].1);
        }
        i += 1;
    }
    None
}

fn holds_literal(g: &Graph, cube: &Vec<(Id, Polarity)>, lit: (Id, Polarity)) -> (r: bool)
    requires
        g.wf(),
        g.has(lit.0),
        cube_in(*g, cube@),
    ensures
        r == has_literal(*g, cube@, lit),
{
    let c = g.find(lit.0);
    let mut i: usize = 0;
    while i < cube.len()
        invariant
            g.wf(),
            cube_in(*g, cube@),
            c == g.canon(lit.0),
            i <= cube@.len(),
            forall|k: int|
                0 <= k < i ==> !((#[trigger] cube@[k]).1 == lit.1 && g.canon(cube@[k].0) == c),
        decreases cube.len() - i,
    {
        proof {
            assert(g.has(cube@[i as int].0));
        }
        if cube[i].1 == lit.1 && g.find(cube[i].0) == c {
            assert(cube@[i as int].1 == lit.1);
            return true;
        }
        i += 1;
    }
    false
}

/// The conjunction of two cubes; `None` where they contradict each other.
pub fn cube_meet(g: &Graph, a: &Vec<(Id, Polarity)>, b: &Vec<(Id, Polarity)>) -> (r: Option<
    Vec<(Id, Polarity)>,
>)
    requires
        g.wf(),
        cube_in(*g, a@),
        cube_in(*g, b@),
    ensures
        r is Some == meet(*g, a@, b@) is Some,
        r matches Some(c) ==> meet(*g, a@, b@) == Some(c@) && cube_in(*g, c@),
{
    let mut out = copy_cube(a);
    let mut i: usize = 0;
    proof {
        assert(b@.take(0) =~= Seq::empty());
    }
    while i < b.len()
        invariant
            g.wf(),
            cube_in(*g, b@),
            cube_in(*g, out@),
            i <= b@.len(),
            meet(*g, a@, b@.take(i as int)) == Some(out@),
        decreases b.len() - i,
    {
        let ghost had = out@;
        proof {
            assert(g.has(b@[i as int].0));
            assert(b@.take(i + 1).drop_last() =~= b@.take(i as int));
            assert(b@.take(i + 1).last() == b@[i as int]);
        }
        match find_polarity(g, &out, b[i].0) {
            Some(p) => {
                if p != b[i].1 {
                    proof {
                        lemma_meet_prefix(*g, a@, b@, i + 1);
                    }
                    return None;
                }
            },
            None => {
                proof {
                    lemma_cube_push_in(*g, had, b@[i as int]);
                }
                out.push(b[i]);
            },
        }
        i += 1;
    }
    proof {
        assert(b@.take(b@.len() as int) =~= b@);
    }
    Some(out)
}

proof fn lemma_meet_prefix(g: Graph, a: Seq<(Id, Polarity)>, b: Seq<(Id, Polarity)>, n: int)
    requires
        0 <= n <= b.len(),
        meet(g, a, b.take(n)) is None,
    ensures
        meet(g, a, b) is None,
    decreases b.len() - n,
{
    if n < b.len() {
        assert(b.take(n + 1).drop_last() =~= b.take(n));
        lemma_meet_prefix(g, a, b, n + 1);
    } else {
        assert(b.take(n) =~= b);
    }
}

/// Whether every literal of `sub` is in `cube`.
pub fn cube_entails(g: &Graph, cube: &Vec<(Id, Polarity)>, sub: &Vec<(Id, Polarity)>) -> (r: bool)
    requires
        g.wf(),
        cube_in(*g, cube@),
        cube_in(*g, sub@),
    ensures
        r == entails(*g, cube@, sub@),
{
    let mut i: usize = 0;
    while i < sub.len()
        invariant
            g.wf(),
            cube_in(*g, cube@),
            cube_in(*g, sub@),
            i <= sub@.len(),
            forall|k: int| 0 <= k < i ==> has_literal(*g, cube@, #[trigger] sub@[k]),
        decreases sub.len() - i,
    {
        proof {
            assert(g.has(sub@[i as int].0));
        }
        if !holds_literal(g, cube, sub[i]) {
            assert(!has_literal(*g, cube@, sub@[i as int]));
            return false;
        }
        i += 1;
    }
    true
}

/// Two cubes have the same literals.
pub open spec fn same_cube(g: Graph, a: Seq<(Id, Polarity)>, b: Seq<(Id, Polarity)>) -> bool {
    entails(g, a, b) && entails(g, b, a)
}

/// The literals of a cube, as a set over representatives.
pub open spec fn literals(g: Graph, cube: Seq<(Id, Polarity)>) -> Set<(Id, Polarity)> {
    Set::new(
        |l: (Id, Polarity)|
            exists|i: int|
                0 <= i < cube.len() && (#[trigger] cube[i]).1 == l.1 && g.canon(cube[i].0) == l.0,
    )
}

/// Cubes are the same just where their sets of literals are, in whatever order and
/// however often a literal stands in one.
pub proof fn law_same_cube(g: Graph, a: Seq<(Id, Polarity)>, b: Seq<(Id, Polarity)>)
    ensures
        same_cube(g, a, b) == (literals(g, a) == literals(g, b)),
        same_cube(g, a, b) == same_cube(g, b, a),
{
    let (x, y) = (literals(g, a), literals(g, b));
    if same_cube(g, a, b) {
        assert forall|l: (Id, Polarity)| x.contains(l) == y.contains(l) by {
            if x.contains(l) {
                let i = choose|i: int|
                    0 <= i < a.len() && (#[trigger] a[i]).1 == l.1 && g.canon(a[i].0) == l.0;
                assert(has_literal(g, b, a[i]));
            }
            if y.contains(l) {
                let i = choose|i: int|
                    0 <= i < b.len() && (#[trigger] b[i]).1 == l.1 && g.canon(b[i].0) == l.0;
                assert(has_literal(g, a, b[i]));
            }
        }
        assert(x =~= y);
    }
    if x == y {
        assert forall|i: int| 0 <= i < b.len() implies has_literal(g, a, #[trigger] b[i]) by {
            assert(y.contains((g.canon(b[i].0), b[i].1)));
            assert(x.contains((g.canon(b[i].0), b[i].1)));
        }
        assert forall|i: int| 0 <= i < a.len() implies has_literal(g, b, #[trigger] a[i]) by {
            assert(x.contains((g.canon(a[i].0), a[i].1)));
            assert(y.contains((g.canon(a[i].0), a[i].1)));
        }
    }
}

/// Whether two cubes have the same literals.
pub fn cube_eq(g: &Graph, a: &Vec<(Id, Polarity)>, b: &Vec<(Id, Polarity)>) -> (r: bool)
    requires
        g.wf(),
        cube_in(*g, a@),
        cube_in(*g, b@),
    ensures
        r == same_cube(*g, a@, b@),
{
    cube_entails(g, a, b) && cube_entails(g, b, a)
}

/// A cube with a literal, unless it is there already.
pub fn cube_push(g: &Graph, base: &Vec<(Id, Polarity)>, lit: (Id, Polarity)) -> (r: Vec<
    (Id, Polarity),
>)
    requires
        g.wf(),
        g.has(lit.0),
        cube_in(*g, base@),
    ensures
        r@ == pushed(*g, base@, lit),
        cube_in(*g, r@),
{
    let mut out = copy_cube(base);
    if !holds_literal(g, base, lit) {
        out.push(lit);
        proof {
            lemma_cube_push_in(*g, base@, lit);
        }
    }
    out
}

proof fn lemma_literal_holds(g: Graph, m: Model, cube: Seq<(Id, Polarity)>, lit: (Id, Polarity))
    requires
        g.wf(),
        g.models(m),
        cube_in(g, cube),
        g.has(lit.0),
        has_literal(g, cube, lit),
        cube_holds(m, cube),
    ensures
        lit_holds(m, lit),
{
    let i = choose|i: int|
        0 <= i < cube.len() && (#[trigger] cube[i]).1 == lit.1 && g.canon(cube[i].0) == g.canon(
            lit.0,
        );
    assert(g.has(cube[i].0));
    assert(lit_holds(m, cube[i]));
    lemma_same_class(g, m, cube[i].0, lit.0);
}

/// A cube that entails another holds only where the other does.
pub proof fn law_entails(g: Graph, m: Model, cube: Seq<(Id, Polarity)>, sub: Seq<(Id, Polarity)>)
    requires
        g.wf(),
        g.models(m),
        cube_in(g, cube),
        cube_in(g, sub),
        entails(g, cube, sub),
        cube_holds(m, cube),
    ensures
        cube_holds(m, sub),
{
    assert forall|i: int| 0 <= i < sub.len() implies lit_holds(m, #[trigger] sub[i]) by {
        assert(g.has(sub[i].0));
        assert(has_literal(g, cube, sub[i]));
        lemma_literal_holds(g, m, cube, sub[i]);
    }
}

/// A pushed literal narrows a cube to where the literal holds.
pub proof fn law_pushed(g: Graph, m: Model, cube: Seq<(Id, Polarity)>, lit: (Id, Polarity))
    requires
        g.wf(),
        g.models(m),
        cube_in(g, cube),
        g.has(lit.0),
    ensures
        cube_holds(m, pushed(g, cube, lit)) == (cube_holds(m, cube) && lit_holds(m, lit)),
{
    if has_literal(g, cube, lit) {
        if cube_holds(m, cube) {
            lemma_literal_holds(g, m, cube, lit);
        }
    } else {
        lemma_cube_push_holds(m, cube, lit);
    }
}

proof fn lemma_polarity(g: Graph, m: Model, cube: Seq<(Id, Polarity)>, id: Id)
    requires
        g.wf(),
        g.models(m),
        cube_in(g, cube),
        g.has(id),
        polarity_of(g, cube, id) is Some,
        cube_holds(m, cube),
    ensures
        lit_holds(m, (id, polarity_of(g, cube, id).unwrap())),
    decreases cube.len(),
{
    assert(lit_holds(m, cube[0]));
    assert(g.has(cube[0].0));
    if g.canon(cube[0].0) == g.canon(id) {
        lemma_same_class(g, m, cube[0].0, id);
    } else {
        let rest = cube.drop_first();
        assert forall|i: int| 0 <= i < rest.len() implies g.has((#[trigger] rest[i]).0)
            && lit_holds(m, rest[i]) by {
            assert(g.has(cube[i + 1].0));
            assert(lit_holds(m, cube[i + 1]));
        }
        lemma_polarity(g, m, rest, id);
    }
}

/// The conjunction of two cubes holds where both do; cubes without one never hold
/// together.
pub proof fn law_meet(g: Graph, m: Model, a: Seq<(Id, Polarity)>, b: Seq<(Id, Polarity)>)
    requires
        g.wf(),
        g.models(m),
        cube_in(g, a),
        cube_in(g, b),
    ensures
        meet(g, a, b) matches Some(c) ==> cube_in(g, c) && cube_holds(m, c) == (cube_holds(m, a)
            && cube_holds(m, b)),
        meet(g, a, b) is None ==> !(cube_holds(m, a) && cube_holds(m, b)),
    decreases b.len(),
{
    if b.len() > 0 {
        let front = b.drop_last();
        assert forall|i: int| 0 <= i < front.len() implies g.has((#[trigger] front[i]).0) by {
            assert(g.has(b[i].0));
        }
        assert(g.has(b[b.len() - 1].0));
        law_meet(g, m, a, front);
        lemma_cube_push_holds(m, front, b.last());
        assert(front.push(b.last()) =~= b);
        if let Some(c) = meet(g, a, front) {
            match polarity_of(g, c, b.last().0) {
                Some(p) => {
                    if cube_holds(m, c) {
                        lemma_polarity(g, m, c, b.last().0);
                    }
                },
                None => {
                    lemma_cube_push_in(g, c, b.last());
                    lemma_cube_push_holds(m, c, b.last());
                },
            }
        }
    }
}

} // verus!
