//! The values of local variables.

use crate::symex::term::{Term, TermV};
use crate::text::{copy_text, same_text};
use vstd::prelude::*;

verus! {

/// A local variable.
#[derive(Debug, Clone, PartialEq, Eq, Hash)]
pub struct LocalVar(pub String);

/// The terms that local variables are bound to. No variable is listed twice.
#[derive(Debug)]
pub struct Store {
    bindings: Vec<(LocalVar, Term)>,
}

/// The bindings of a list. A later one of a variable wins.
pub open spec fn bindings_view(bs: Seq<(LocalVar, Term)>) -> Map<Seq<char>, TermV>
    decreases bs.len(),
{
    if bs.len() == 0 {
        Map::empty()
    } else {
        bindings_view(bs.drop_last()).insert(bs.last().0.0@, bs.last().1@)
    }
}

spec fn names_differ(bs: Seq<(LocalVar, Term)>) -> bool {
    forall|i: int, j: int| 0 <= i < j < bs.len() ==> (#[trigger] bs[i]).0.0@ != (#[trigger] bs[j]).0.0@
}

proof fn lemma_bindings(bs: Seq<(LocalVar, Term)>)
    requires
        names_differ(bs),
    ensures
        forall|i: int|
            0 <= i < bs.len() ==> bindings_view(bs).dom().contains((#[trigger] bs[i]).0.0@)
                && bindings_view(bs)[bs[i].0.0@] == bs[i].1@,
        forall|x: Seq<char>|
            #[trigger] bindings_view(bs).dom().contains(x) ==> exists|i: int|
                0 <= i < bs.len() && (#[trigger] bs[i]).0.0@ == x,
    decreases bs.len(),
{
    if bs.len() > 0 {
        let front = bs.drop_last();
        assert(names_differ(front)) by {
            assert forall|i: int, j: int| 0 <= i < j < front.len() implies (
            #[trigger] front[i]).0.0@ != (#[trigger] front[j]).0.0@ by {
                assert(bs[i].0.0@ != bs[j].0.0@);
            }
        }
        lemma_bindings(front);
        assert forall|i: int| 0 <= i < bs.len() implies bindings_view(bs).dom().contains(
            (#[trigger] bs[i]).0.0@,
        ) && bindings_view(bs)[bs[i].0.0@] == bs[i].1@ by {
            if i < bs.len() - 1 {
                assert(front[i] == bs[i]);
                assert(bs[i].0.0@ != bs[bs.len() - 1].0.0@);
            }
        }
        assert forall|x: Seq<char>| #[trigger] bindings_view(bs).dom().contains(x) implies exists|i: int|
            0 <= i < bs.len() && (#[trigger] bs[i]).0.0@ == x by {
            if x == bs.last().0.0@ {
                assert(bs[bs.len() - 1].0.0@ == x);
            } else {
                assert(bindings_view(front).dom().contains(x));
                let i = choose|i: int| 0 <= i < front.len() && (#[trigger] front[i]).0.0@ == x;
                assert(bs[i].0.0@ == x);
            }
        }
    }
}

proof fn lemma_rebound(bs: Seq<(LocalVar, Term)>, cs: Seq<(LocalVar, Term)>, k: int)
    requires
        names_differ(bs),
        0 <= k < bs.len(),
        cs.len() == bs.len(),
        cs[k].0.0@ == bs[k].0.0@,
        forall|i: int| 0 <= i < bs.len() && i != k ==> #[trigger] cs[i] == bs[i],
    ensures
        names_differ(cs),
        bindings_view(cs) == bindings_view(bs).insert(bs[k].0.0@, cs[k].1@),
{
    assert forall|i: int, j: int| 0 <= i < j < cs.len() implies (#[trigger] cs[i]).0.0@ != (
    #[trigger] cs[j]).0.0@ by {
        assert(bs[i].0.0@ != bs[j].0.0@);
        assert(i != k ==> cs[i] == bs[i]);
        assert(j != k ==> cs[j] == bs[j]);
    }
    lemma_bindings(bs);
    lemma_bindings(cs);
    let a = bindings_view(cs);
    let b = bindings_view(bs).insert(bs[k].0.0@, cs[k].1@);
    assert forall|x: Seq<char>| #[trigger] a.dom().contains(x) == b.dom().contains(x) by {
        if a.dom().contains(x) {
            let i = choose|i: int| 0 <= i < cs.len() && (#[trigger] cs[i]).0.0@ == x;
            assert(i != k ==> cs[i] == bs[i]);
            assert(bindings_view(bs).dom().contains(bs[i].0.0@));
        }
        if bindings_view(bs).dom().contains(x) {
            let i = choose|i: int| 0 <= i < bs.len() && (#[trigger] bs[i]).0.0@ == x;
            assert(i != k ==> cs[i] == bs[i]);
            assert(a.dom().contains(cs[i].0.0@));
        } else if x == bs[k].0.0@ {
            assert(a.dom().contains(cs[k].0.0@));
        }
    }
    assert forall|x: Seq<char>| #[trigger] a.dom().contains(x) implies a[x] == b[x] by {
        let i = choose|i: int| 0 <= i < cs.len() && (#[trigger] cs[i]).0.0@ == x;
        assert(a[x] == cs[i].1@);
        if i != k {
            assert(cs[i] == bs[i]);
            assert(bindings_view(bs)[bs[i].0.0@] == bs[i].1@);
            if i < k {
                assert(bs[i].0.0@ != bs[k].0.0@);
            } else {
                assert(bs[k].0.0@ != bs[i].0.0@);
            }
        }
    }
    assert(a =~= b);
}

impl View for Store {
    type V = Map<Seq<char>, TermV>;

    closed spec fn view(&self) -> Map<Seq<char>, TermV> {
        bindings_view(self.bindings@)
    }
}

impl Store {
    #[verifier::type_invariant]
    spec fn inv(self) -> bool {
        names_differ(self.bindings@)
    }

    /// A store without bindings.
    pub fn new() -> (r: Store)
        ensures
            r@ == Map::<Seq<char>, TermV>::empty(),
    {
        Store { bindings: Vec::new() }
    }

    fn position(&self, var: &LocalVar) -> (r: Option<usize>)
        ensures
            r matches Some(i) ==> i < self.bindings@.len() && self.bindings@[i as int].0.0@
                == var.0@,
            r is None ==> forall|i: int|
                0 <= i < self.bindings@.len() ==> (#[trigger] self.bindings@[i]).0.0@ != var.0@,
    {
        let mut i: usize = 0;
        while i < self.bindings.len()
            invariant
                i <= self.bindings@.len(),
                forall|k: int| 0 <= k < i ==> (#[trigger] self.bindings@[k]).0.0@ != var.0@,
            decreases self.bindings.len() - i,
        {
            if same_text(self.bindings[i].0.0.as_str(), var.0.as_str()) {
                return Some(i);
            }
            i += 1;
        }
        None
    }

    /// Binds a variable to a term.
    pub fn bind(&mut self, var: LocalVar, term: Term)
        ensures
            final(self)@ == old(self)@.insert(var.0@, term@),
    {
        proof {
            use_type_invariant(&*self);
        }
        let at = self.position(&var);
        let mut bs: Vec<(LocalVar, Term)> = Vec::new();
        std::mem::swap(&mut bs, &mut self.bindings);
        let ghost before = bs@;
        match at {
            Some(i) => {
                bs.set(i, (var, term));
                proof {
                    lemma_rebound(before, bs@, i as int);
                }
            },
            None => {
                bs.push((var, term));
                proof {
                    assert(bs@.drop_last() =~= before);
                    assert(names_differ(bs@)) by {
                        assert forall|i: int, j: int| 0 <= i < j < bs@.len() implies (
                        #[trigger] bs@[i]).0.0@ != (#[trigger] bs@[j]).0.0@ by {
                            assert(bs@[i] == before[i]);
                            if j < before.len() {
                                assert(bs@[j] == before[j]);
                            }
                        }
                    }
                }
            },
        }
        self.bindings = bs;
    }

    /// The term of a variable.
    pub fn get(&self, var: &LocalVar) -> (r: Option<&Term>)
        ensures
            r is Some == self@.dom().contains(var.0@),
            r matches Some(t) ==> t@ == self@[var.0@],
    {
        proof {
            use_type_invariant(self);
            lemma_bindings(self.bindings@);
        }
        match self.position(var) {
            Some(i) => Some(&self.bindings[i].1),
            None => None,
        }
    }

    /// Whether a variable is bound.
    pub fn contains(&self, var: &LocalVar) -> (r: bool)
        ensures
            r == self@.dom().contains(var.0@),
    {
        self.get(var).is_some()
    }

    /// A copy of the store with one more binding. The store itself stays as it is.
    pub fn with_binding(&self, var: LocalVar, term: Term) -> (r: Store)
        ensures
            r@ == self@.insert(var.0@, term@),
    {
        let mut out = self.copy();
        out.bind(var, term);
        out
    }

    /// A copy of the store.
    pub fn copy(&self) -> (r: Store)
        ensures
            r@ == self@,
    {
        proof {
            use_type_invariant(self);
        }
        let bs = copy_bindings(&self.bindings);
        Store { bindings: bs }
    }

    /// All bindings, in the order in which their variables were first bound.
    pub fn bindings(&self) -> (r: &Vec<(LocalVar, Term)>)
        ensures
            bindings_view(r@) == self@,
    {
        &self.bindings
    }
}

fn copy_bindings(bs: &Vec<(LocalVar, Term)>) -> (r: Vec<(LocalVar, Term)>)
    requires
        names_differ(bs@),
    ensures
        names_differ(r@),
        bindings_view(r@) == bindings_view(bs@),
{
    let mut out: Vec<(LocalVar, Term)> = Vec::new();
    let mut i: usize = 0;
    proof {
        assert(bs@.take(0) =~= Seq::empty());
    }
    while i < bs.len()
        invariant
            i <= bs@.len(),
            out@.len() == i,
            forall|k: int|
                0 <= k < i ==> (#[trigger] out@[k]).0.0@ == bs@[k].0.0@ && out@[k].1@ == bs@[k].1@,
            bindings_view(out@) == bindings_view(bs@.take(i as int)),
        decreases bs.len() - i,
    {
        let ghost before = out@;
        proof {
            assert(bs@.take(i + 1).drop_last() =~= bs@.take(i as int));
        }
        out.push((LocalVar(copy_text(bs[i].0.0.as_str())), bs[i].1.copy()));
        proof {
            assert(out@.drop_last() =~= before);
        }
        i += 1;
    }
    proof {
        assert(bs@.take(bs@.len() as int) =~= bs@);
        assert forall|i: int, j: int| 0 <= i < j < out@.len() implies (#[trigger] out@[i]).0.0@ != (
        #[trigger] out@[j]).0.0@ by {
            assert(bs@[i].0.0@ != bs@[j].0.0@);
        }
    }
    out
}

} // verus!
