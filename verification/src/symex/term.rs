//! Terms of symbolic execution, without simplification.

use crate::nums::{Int, Rat};
use crate::text::{
    concat, copy_text, decimal, lemma_decimal_digits, lemma_decimal_injective, number,
    same_text,
};
use vstd::prelude::*;

verus! {

/// The name of a symbolic value.
#[derive(Debug, Clone, PartialEq, Eq, Hash, PartialOrd, Ord)]
pub struct Identifier(pub String);

/// The sort of a term.
#[derive(Debug, Clone, Copy, PartialEq, Eq, Hash, Structural)]
pub enum Sort {
    Bool,
    Int,
    Ref,
    Perm,
    /// An opaque snapshot.
    Snap,
}

#[derive(Debug, PartialEq, Eq, Hash)]
pub enum Term {
    Var(Identifier, Sort),
    IntLit(Int),
    BoolLit(bool),
    Null,
    Plus(Box<Term>, Box<Term>),
    Minus(Box<Term>, Box<Term>),
    Times(Box<Term>, Box<Term>),
    Not(Box<Term>),
    And(Vec<Term>),
    Or(Vec<Term>),
    Implies(Box<Term>, Box<Term>),
    Eq(Box<Term>, Box<Term>),
    Lt(Box<Term>, Box<Term>),
    Le(Box<Term>, Box<Term>),
    /// The permission `0`.
    NoPerm,
    /// The permission `1`.
    FullPerm,
    FracPerm(Rat),
    PermPlus(Box<Term>, Box<Term>),
    PermMinus(Box<Term>, Box<Term>),
    PermTimes(Box<Term>, Box<Term>),
    PermLt(Box<Term>, Box<Term>),
    PermLe(Box<Term>, Box<Term>),
    Ite(Box<Term>, Box<Term>, Box<Term>),
}

/// What joins the parts of a term.
pub ghost enum Head {
    Var(Seq<char>, Sort),
    IntLit(int),
    BoolLit(bool),
    Null,
    Plus,
    Minus,
    Times,
    Not,
    And,
    Or,
    Implies,
    Eq,
    Lt,
    Le,
    NoPerm,
    FullPerm,
    FracPerm(real),
    PermPlus,
    PermMinus,
    PermTimes,
    PermLt,
    PermLe,
    Ite,
}

/// What a [`Term`] says: its head and its parts.
#[verifier::ext_equal]
pub ghost struct TermV {
    pub head: Head,
    pub parts: Seq<TermV>,
}

pub open spec fn terms_view(ts: Seq<Term>) -> Seq<TermV>
    decreases ts,
{
    if ts.len() == 0 {
        Seq::empty()
    } else {
        terms_view(ts.drop_last()).push(term_view(ts.last()))
    }
}

pub open spec fn leaf(head: Head) -> TermV {
    TermV { head, parts: Seq::empty() }
}

pub open spec fn term_view(t: Term) -> TermV
    decreases t,
{
    match t {
        Term::Var(x, s) => leaf(Head::Var(x.0@, s)),
        Term::IntLit(n) => leaf(Head::IntLit(n@)),
        Term::BoolLit(b) => leaf(Head::BoolLit(b)),
        Term::Null => leaf(Head::Null),
        Term::Plus(a, b) => TermV { head: Head::Plus, parts: seq![term_view(*a), term_view(*b)] },
        Term::Minus(a, b) => TermV { head: Head::Minus, parts: seq![term_view(*a), term_view(*b)] },
        Term::Times(a, b) => TermV { head: Head::Times, parts: seq![term_view(*a), term_view(*b)] },
        Term::Not(a) => TermV { head: Head::Not, parts: seq![term_view(*a)] },
        Term::And(ts) => TermV { head: Head::And, parts: terms_view(ts@) },
        Term::Or(ts) => TermV { head: Head::Or, parts: terms_view(ts@) },
        Term::Implies(a, b) => TermV {
            head: Head::Implies,
            parts: seq![term_view(*a), term_view(*b)],
        },
        Term::Eq(a, b) => TermV { head: Head::Eq, parts: seq![term_view(*a), term_view(*b)] },
        Term::Lt(a, b) => TermV { head: Head::Lt, parts: seq![term_view(*a), term_view(*b)] },
        Term::Le(a, b) => TermV { head: Head::Le, parts: seq![term_view(*a), term_view(*b)] },
        Term::NoPerm => leaf(Head::NoPerm),
        Term::FullPerm => leaf(Head::FullPerm),
        Term::FracPerm(q) => leaf(Head::FracPerm(q@)),
        Term::PermPlus(a, b) => TermV {
            head: Head::PermPlus,
            parts: seq![term_view(*a), term_view(*b)],
        },
        Term::PermMinus(a, b) => TermV {
            head: Head::PermMinus,
            parts: seq![term_view(*a), term_view(*b)],
        },
        Term::PermTimes(a, b) => TermV {
            head: Head::PermTimes,
            parts: seq![term_view(*a), term_view(*b)],
        },
        Term::PermLt(a, b) => TermV { head: Head::PermLt, parts: seq![term_view(*a), term_view(*b)] },
        Term::PermLe(a, b) => TermV { head: Head::PermLe, parts: seq![term_view(*a), term_view(*b)] },
        Term::Ite(c, a, b) => TermV {
            head: Head::Ite,
            parts: seq![term_view(*c), term_view(*a), term_view(*b)],
        },
    }
}

impl View for Term {
    type V = TermV;

    open spec fn view(&self) -> TermV {
        term_view(*self)
    }
}

pub proof fn lemma_terms_view(ts: Seq<Term>)
    ensures
        terms_view(ts).len() == ts.len(),
        forall|i: int| 0 <= i < ts.len() ==> #[trigger] terms_view(ts)[i] == ts[i]@,
    decreases ts.len(),
{
    if ts.len() > 0 {
        lemma_terms_view(ts.drop_last());
    }
}

/// The sort of a term, by its head; that of a conditional is the sort of its first
/// branch.
pub open spec fn sort_of(t: TermV) -> Sort
    decreases t,
{
    match t.head {
        Head::Var(_, s) => s,
        Head::IntLit(_) | Head::Plus | Head::Minus | Head::Times => Sort::Int,
        Head::Null => Sort::Ref,
        Head::NoPerm | Head::FullPerm | Head::FracPerm(_) | Head::PermPlus | Head::PermMinus
        | Head::PermTimes => Sort::Perm,
        Head::Ite => if t.parts.len() == 3 {
            sort_of(t.parts[1])
        } else {
            Sort::Bool
        },
        _ => Sort::Bool,
    }
}

/// Names for symbolic values that were not given out before.
#[derive(Debug)]
pub struct FreshNames {
    pub next: usize,
}

impl FreshNames {
    pub fn new() -> (r: FreshNames)
        ensures
            r.next == 0,
    {
        FreshNames { next: 0 }
    }
}

/// The name of symbolic value `n`, after a base name.
pub open spec fn fresh_text(name: Seq<char>, n: nat) -> Seq<char> {
    seq!['$'] + name + seq!['_'] + decimal(n)
}

impl Term {
    /// The sort of the term.
    pub fn sort(&self) -> (r: Sort)
        ensures
            r == sort_of(self@),
        decreases self,
    {
        match self {
            Term::Var(_, s) => *s,
            Term::IntLit(_) => Sort::Int,
            Term::BoolLit(_) => Sort::Bool,
            Term::Null => Sort::Ref,
            Term::Plus(..) | Term::Minus(..) | Term::Times(..) => Sort::Int,
            Term::Not(..) | Term::And(..) | Term::Or(..) | Term::Implies(..) => Sort::Bool,
            Term::Eq(..) | Term::Lt(..) | Term::Le(..) => Sort::Bool,
            Term::NoPerm | Term::FullPerm | Term::FracPerm(..) => Sort::Perm,
            Term::PermPlus(..) | Term::PermMinus(..) | Term::PermTimes(..) => Sort::Perm,
            Term::PermLt(..) | Term::PermLe(..) => Sort::Bool,
            Term::Ite(_, a, _) => {
                proof {
                    assert(self@.parts[1] == a@);
                }
                (&**a).sort()
            },
        }
    }

    /// A symbolic value of its own: no two calls on one counter give the same name.
    pub fn fresh(names: &mut FreshNames, name: &str, sort: Sort) -> (r: Term)
        requires
            old(names).next < usize::MAX,
        ensures
            final(names).next == old(names).next + 1,
            r@ == leaf(Head::Var(fresh_text(name@, old(names).next as nat), sort)),
    {
        let n: usize = names.next;
        names.next = n + 1;
        let front = concat("$", name);
        let joint = concat(front.as_str(), "_");
        let id = concat(joint.as_str(), number(n).as_str());
        proof {
            reveal_strlit("$");
            reveal_strlit("_");
            assert("$"@ =~= seq!['$']);
            assert("_"@ =~= seq!['_']);
            assert(id@ =~= fresh_text(name@, n as nat));
        }
        Term::Var(Identifier(id), sort)
    }

    pub fn fresh_int(names: &mut FreshNames, name: &str) -> (r: Term)
        requires
            old(names).next < usize::MAX,
        ensures
            final(names).next == old(names).next + 1,
            r@ == leaf(Head::Var(fresh_text(name@, old(names).next as nat), Sort::Int)),
    {
        Term::fresh(names, name, Sort::Int)
    }

    pub fn fresh_ref(names: &mut FreshNames, name: &str) -> (r: Term)
        requires
            old(names).next < usize::MAX,
        ensures
            final(names).next == old(names).next + 1,
            r@ == leaf(Head::Var(fresh_text(name@, old(names).next as nat), Sort::Ref)),
    {
        Term::fresh(names, name, Sort::Ref)
    }

    pub fn fresh_perm(names: &mut FreshNames, name: &str) -> (r: Term)
        requires
            old(names).next < usize::MAX,
        ensures
            final(names).next == old(names).next + 1,
            r@ == leaf(Head::Var(fresh_text(name@, old(names).next as nat), Sort::Perm)),
    {
        Term::fresh(names, name, Sort::Perm)
    }

    pub fn fresh_snap(names: &mut FreshNames, name: &str) -> (r: Term)
        requires
            old(names).next < usize::MAX,
        ensures
            final(names).next == old(names).next + 1,
            r@ == leaf(Head::Var(fresh_text(name@, old(names).next as nat), Sort::Snap)),
    {
        Term::fresh(names, name, Sort::Snap)
    }

    /// Whether two terms are equal.
    pub fn same(&self, other: &Term) -> (r: bool)
        ensures
            r == (self@ == other@),
        decreases self,
    {
        let r = match (self, other) {
            (Term::Var(x, s), Term::Var(y, t)) => same_text(x.0.as_str(), y.0.as_str()) && *s == *t,
            (Term::IntLit(a), Term::IntLit(b)) => a.same(b),
            (Term::BoolLit(a), Term::BoolLit(b)) => *a == *b,
            (Term::Null, Term::Null) => true,
            (Term::Plus(a, b), Term::Plus(c, d)) => (&**a).same(&**c) && (&**b).same(&**d),
            (Term::Minus(a, b), Term::Minus(c, d)) => (&**a).same(&**c) && (&**b).same(&**d),
            (Term::Times(a, b), Term::Times(c, d)) => (&**a).same(&**c) && (&**b).same(&**d),
            (Term::Not(a), Term::Not(c)) => (&**a).same(&**c),
            (Term::And(a), Term::And(c)) => same_terms(a, c),
            (Term::Or(a), Term::Or(c)) => same_terms(a, c),
            (Term::Implies(a, b), Term::Implies(c, d)) => (&**a).same(&**c) && (&**b).same(&**d),
            (Term::Eq(a, b), Term::Eq(c, d)) => (&**a).same(&**c) && (&**b).same(&**d),
            (Term::Lt(a, b), Term::Lt(c, d)) => (&**a).same(&**c) && (&**b).same(&**d),
            (Term::Le(a, b), Term::Le(c, d)) => (&**a).same(&**c) && (&**b).same(&**d),
            (Term::NoPerm, Term::NoPerm) => true,
            (Term::FullPerm, Term::FullPerm) => true,
            (Term::FracPerm(p), Term::FracPerm(q)) => p.same(q),
            (Term::PermPlus(a, b), Term::PermPlus(c, d)) => (&**a).same(&**c) && (&**b).same(&**d),
            (Term::PermMinus(a, b), Term::PermMinus(c, d)) => (&**a).same(&**c) && (&**b).same(&**d),
            (Term::PermTimes(a, b), Term::PermTimes(c, d)) => (&**a).same(&**c) && (&**b).same(&**d),
            (Term::PermLt(a, b), Term::PermLt(c, d)) => (&**a).same(&**c) && (&**b).same(&**d),
            (Term::PermLe(a, b), Term::PermLe(c, d)) => (&**a).same(&**c) && (&**b).same(&**d),
            (Term::Ite(c, a, b), Term::Ite(d, x, y)) => (&**c).same(&**d) && (&**a).same(&**x)
                && (&**b).same(&**y),
            _ => false,
        };
        proof {
            let p = self@.parts;
            let q = other@.parts;
            if p.len() == 1 && q.len() == 1 {
                assert(p =~= q <==> p[0] == q[0]);
            }
            if p.len() == 2 && q.len() == 2 {
                assert(p =~= q <==> p[0] == q[0] && p[1] == q[1]);
            }
            if p.len() == 3 && q.len() == 3 {
                assert(p =~= q <==> p[0] == q[0] && p[1] == q[1] && p[2] == q[2]);
            }
        }
        r
    }

    /// A copy of the term.
    pub fn copy(&self) -> (r: Term)
        ensures
            r@ == self@,
        decreases self,
    {
        match self {
            Term::Var(x, s) => Term::Var(Identifier(copy_text(x.0.as_str())), *s),
            Term::IntLit(n) => Term::IntLit(n.clone()),
            Term::BoolLit(b) => Term::BoolLit(*b),
            Term::Null => Term::Null,
            Term::Plus(a, b) => Term::Plus(Box::new((&**a).copy()), Box::new((&**b).copy())),
            Term::Minus(a, b) => Term::Minus(Box::new((&**a).copy()), Box::new((&**b).copy())),
            Term::Times(a, b) => Term::Times(Box::new((&**a).copy()), Box::new((&**b).copy())),
            Term::Not(a) => Term::Not(Box::new((&**a).copy())),
            Term::And(ts) => Term::And(copy_terms(ts)),
            Term::Or(ts) => Term::Or(copy_terms(ts)),
            Term::Implies(a, b) => Term::Implies(
                Box::new((&**a).copy()),
                Box::new((&**b).copy()),
            ),
            Term::Eq(a, b) => Term::Eq(Box::new((&**a).copy()), Box::new((&**b).copy())),
            Term::Lt(a, b) => Term::Lt(Box::new((&**a).copy()), Box::new((&**b).copy())),
            Term::Le(a, b) => Term::Le(Box::new((&**a).copy()), Box::new((&**b).copy())),
            Term::NoPerm => Term::NoPerm,
            Term::FullPerm => Term::FullPerm,
            Term::FracPerm(q) => Term::FracPerm(q.clone()),
            Term::PermPlus(a, b) => Term::PermPlus(
                Box::new((&**a).copy()),
                Box::new((&**b).copy()),
            ),
            Term::PermMinus(a, b) => Term::PermMinus(
                Box::new((&**a).copy()),
                Box::new((&**b).copy()),
            ),
            Term::PermTimes(a, b) => Term::PermTimes(
                Box::new((&**a).copy()),
                Box::new((&**b).copy()),
            ),
            Term::PermLt(a, b) => Term::PermLt(Box::new((&**a).copy()), Box::new((&**b).copy())),
            Term::PermLe(a, b) => Term::PermLe(Box::new((&**a).copy()), Box::new((&**b).copy())),
            Term::Ite(c, a, b) => Term::Ite(
                Box::new((&**c).copy()),
                Box::new((&**a).copy()),
                Box::new((&**b).copy()),
            ),
        }
    }
}

/// A copy of a list of terms.
pub fn copy_terms(ts: &Vec<Term>) -> (r: Vec<Term>)
    ensures
        terms_view(r@) == terms_view(ts@),
    decreases ts,
{
    let mut out: Vec<Term> = Vec::new();
    let mut i: usize = 0;
    while i < ts.len()
        invariant
            i <= ts.len(),
            out@.len() == i,
            forall|k: int| 0 <= k < i ==> (#[trigger] out@[k])@ == ts@[k]@,
        decreases ts.len() - i,
    {
        assert(decreases_to!(ts => ts@[i as int]));
        out.push(ts[i].copy());
        i += 1;
    }
    proof {
        lemma_terms_view(out@);
        lemma_terms_view(ts@);
        assert(terms_view(out@) =~= terms_view(ts@));
    }
    out
}

/// Whether two lists of terms are equal.
pub fn same_terms(a: &Vec<Term>, b: &Vec<Term>) -> (r: bool)
    ensures
        r == (terms_view(a@) == terms_view(b@)),
    decreases a,
{
    proof {
        lemma_terms_view(a@);
        lemma_terms_view(b@);
    }
    if a.len() != b.len() {
        return false;
    }
    let mut i: usize = 0;
    while i < a.len()
        invariant
            i <= a.len(),
            a.len() == b.len(),
            terms_view(a@).len() == a.len(),
            terms_view(b@).len() == b.len(),
            forall|k: int| 0 <= k < a.len() ==> #[trigger] terms_view(a@)[k] == a@[k]@,
            forall|k: int| 0 <= k < b.len() ==> #[trigger] terms_view(b@)[k] == b@[k]@,
            forall|k: int| 0 <= k < i ==> (#[trigger] a@[k])@ == b@[k]@,
        decreases a.len() - i,
    {
        assert(decreases_to!(a => a@[i as int]));
        if !a[i].same(&b[i]) {
            assert(terms_view(a@)[i as int] != terms_view(b@)[i as int]);
            return false;
        }
        i += 1;
    }
    proof {
        assert(terms_view(a@) =~= terms_view(b@));
    }
    true
}

/// Symbolic values with different numbers have different names.
pub proof fn law_fresh_distinct(a: Seq<char>, b: Seq<char>, i: nat, j: nat)
    requires
        i != j,
    ensures
        fresh_text(a, i) != fresh_text(b, j),
{
    let s = fresh_text(a, i);
    let t = fresh_text(b, j);
    let di = decimal(i);
    let dj = decimal(j);
    lemma_decimal_digits(i);
    lemma_decimal_digits(j);
    assert(s.subrange(s.len() - di.len(), s.len() as int) =~= di);
    assert(t.subrange(t.len() - dj.len(), t.len() as int) =~= dj);
    assert(s[s.len() - di.len() - 1] == '_');
    assert(t[t.len() - dj.len() - 1] == '_');
    if s == t {
        if di.len() == dj.len() {
            lemma_decimal_injective(i, j);
        } else if di.len() < dj.len() {
            let k = dj.len() - di.len() - 1;
            assert(t[t.len() - di.len() - 1] == dj[k]);
        } else {
            let k = di.len() - dj.len() - 1;
            assert(s[s.len() - dj.len() - 1] == di[k]);
        }
    }
}

} // verus!
