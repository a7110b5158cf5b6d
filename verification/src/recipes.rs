//! When two compiled quantifiers are the same.

use crate::lang::{FuncId, RecipeId};
use crate::rewrite::instantiate::QuantRecipe;
use crate::rewrite::quantified::PreparedTerm;
use crate::rewrite::recipe::{AxiomInst, AxiomPure};
use crate::vmir::{same_types, types_view, BinOp, Literal, Polarity, TypeV, Val, ValV, Value};
use vstd::prelude::*;

verus! {

/// What a trigger pattern says.
#[verifier::ext_equal]
pub ghost enum PatternV {
    Bound(usize),
    Capture(usize),
    Lit(Value),
    App(FuncId, Seq<TypeV>, Seq<PatternV>),
}

pub open spec fn pattern_view(t: PreparedTerm) -> PatternV
    decreases t,
{
    match t {
        PreparedTerm::Bound(i) => PatternV::Bound(i),
        PreparedTerm::Capture(i) => PatternV::Capture(i),
        PreparedTerm::Lit(l) => PatternV::Lit(l@),
        PreparedTerm::App { func, type_args, args } => PatternV::App(
            func,
            types_view(type_args@),
            patterns_view(args@),
        ),
    }
}

pub open spec fn patterns_view(ts: Seq<PreparedTerm>) -> Seq<PatternV>
    decreases ts,
{
    if ts.len() == 0 {
        Seq::empty()
    } else {
        patterns_view(ts.drop_last()).push(pattern_view(ts.last()))
    }
}

proof fn lemma_patterns_view(ts: Seq<PreparedTerm>)
    ensures
        patterns_view(ts).len() == ts.len(),
        forall|i: int| 0 <= i < ts.len() ==> #[trigger] patterns_view(ts)[i] == pattern_view(ts[i]),
    decreases ts.len(),
{
    if ts.len() > 0 {
        lemma_patterns_view(ts.drop_last());
    }
}

/// What a step says: its operation, its operands and its guards.
#[verifier::ext_equal]
pub ghost enum StepV {
    Binary(BinOp, ValV, ValV),
    Ternary(ValV, ValV, ValV),
    RealCast(ValV),
    App(FuncId, Seq<TypeV>, Seq<ValV>),
    Assume(ValV),
    Forall(RecipeId, Seq<ValV>),
    Token(FuncId, Seq<ValV>, Seq<(ValV, Polarity)>),
}

pub open spec fn vals_view(vs: Seq<Val>) -> Seq<ValV> {
    Seq::new(vs.len(), |i: int| vs[i]@)
}

pub open spec fn guards_view(gs: Seq<(Val, Polarity)>) -> Seq<(ValV, Polarity)> {
    Seq::new(gs.len(), |i: int| (gs[i].0@, gs[i].1))
}

pub open spec fn step_view(inst: AxiomInst) -> StepV {
    match inst {
        AxiomInst::Val(p) => match p {
            AxiomPure::Binary(op, l, r) => StepV::Binary(op, l@, r@),
            AxiomPure::Ternary(c, t, e) => StepV::Ternary(c@, t@, e@),
            AxiomPure::RealCast(v) => StepV::RealCast(v@),
            AxiomPure::App { func, type_args, args } => StepV::App(
                func,
                types_view(type_args@),
                vals_view(args@),
            ),
        },
        AxiomInst::Assume(v) => StepV::Assume(v@),
        AxiomInst::Forall { recipe, caps } => StepV::Forall(recipe, vals_view(caps@)),
        AxiomInst::Token { func, args, guards } => StepV::Token(
            func,
            vals_view(args@),
            guards_view(guards@),
        ),
    }
}

/// What a compiled quantifier says: its arities, its triggers, its steps and its
/// result.
#[verifier::ext_equal]
pub ghost struct RecipeV {
    pub n_caps: usize,
    pub n_bound: usize,
    pub groups: Seq<Seq<PatternV>>,
    pub steps: Seq<StepV>,
    pub res: ValV,
}

pub open spec fn groups_view(gs: Seq<Vec<PreparedTerm>>) -> Seq<Seq<PatternV>> {
    Seq::new(gs.len(), |i: int| patterns_view(gs[i]@))
}

pub open spec fn steps_view(insts: Seq<AxiomInst>) -> Seq<StepV> {
    Seq::new(insts.len(), |i: int| step_view(insts[i]))
}

impl View for QuantRecipe {
    type V = RecipeV;

    open spec fn view(&self) -> RecipeV {
        RecipeV {
            n_caps: self.n_caps,
            n_bound: self.n_bound,
            groups: groups_view(self.groups@),
            steps: steps_view(self.insts@),
            res: self.res@,
        }
    }
}

impl Val {
    /// Whether two operands are equal.
    pub fn same(&self, other: &Val) -> (r: bool)
        ensures
            r == (self@ == other@),
    {
        match (self, other) {
            (Val::Temp(a), Val::Temp(b)) => *a == *b,
            (Val::Literal(a), Val::Literal(b)) => a.same(b),
            _ => false,
        }
    }
}

/// Whether two lists of operands are equal.
pub fn same_vals(a: &Vec<Val>, b: &Vec<Val>) -> (r: bool)
    ensures
        r == (vals_view(a@) == vals_view(b@)),
{
    if a.len() != b.len() {
        proof {
            assert(vals_view(a@).len() != vals_view(b@).len());
        }
        return false;
    }
    let mut i: usize = 0;
    while i < a.len()
        invariant
            i <= a@.len(),
            a@.len() == b@.len(),
            forall|k: int| 0 <= k < i ==> (#[trigger] a@[k])@ == b@[k]@,
        decreases a.len() - i,
    {
        if !a[i].same(&b[i]) {
            proof {
                assert(vals_view(a@)[i as int] != vals_view(b@)[i as int]);
            }
            return false;
        }
        i += 1;
    }
    proof {
        assert(vals_view(a@) =~= vals_view(b@));
    }
    true
}

fn same_guards(a: &Vec<(Val, Polarity)>, b: &Vec<(Val, Polarity)>) -> (r: bool)
    ensures
        r == (guards_view(a@) == guards_view(b@)),
{
    if a.len() != b.len() {
        proof {
            assert(guards_view(a@).len() != guards_view(b@).len());
        }
        return false;
    }
    let mut i: usize = 0;
    while i < a.len()
        invariant
            i <= a@.len(),
            a@.len() == b@.len(),
            forall|k: int| 0 <= k < i ==> (#[trigger] a@[k]).0@ == b@[k].0@ && a@[k].1 == b@[k].1,
        decreases a.len() - i,
    {
        if !a[i].0.same(&b[i].0) || a[i].1 != b[i].1 {
            proof {
                assert(guards_view(a@)[i as int] != guards_view(b@)[i as int]);
            }
            return false;
        }
        i += 1;
    }
    proof {
        assert(guards_view(a@) =~= guards_view(b@));
    }
    true
}

/// Whether two steps are equal.
pub fn same_step(a: &AxiomInst, b: &AxiomInst) -> (r: bool)
    ensures
        r == (step_view(*a) == step_view(*b)),
{
    match (a, b) {
        (AxiomInst::Val(p), AxiomInst::Val(q)) => match (p, q) {
            (AxiomPure::Binary(o, l, r), AxiomPure::Binary(u, x, y)) => *o == *u && l.same(x)
                && r.same(y),
            (AxiomPure::Ternary(c, t, e), AxiomPure::Ternary(x, y, z)) => c.same(x) && t.same(y)
                && e.same(z),
            (AxiomPure::RealCast(v), AxiomPure::RealCast(x)) => v.same(x),
            (
                AxiomPure::App { func: f, type_args: t, args: vs },
                AxiomPure::App { func: g, type_args: u, args: xs },
            ) => *f == *g && same_types(t, u) && same_vals(vs, xs),
            _ => false,
        },
        (AxiomInst::Assume(v), AxiomInst::Assume(x)) => v.same(x),
        (
            AxiomInst::Forall { recipe: r, caps: vs },
            AxiomInst::Forall { recipe: q, caps: xs },
        ) => *r == *q && same_vals(vs, xs),
        (
            AxiomInst::Token { func: f, args: vs, guards: gs },
            AxiomInst::Token { func: g, args: xs, guards: hs },
        ) => *f == *g && same_vals(vs, xs) && same_guards(gs, hs),
        _ => false,
    }
}

fn same_steps(a: &Vec<AxiomInst>, b: &Vec<AxiomInst>) -> (r: bool)
    ensures
        r == (steps_view(a@) == steps_view(b@)),
{
    if a.len() != b.len() {
        proof {
            assert(steps_view(a@).len() != steps_view(b@).len());
        }
        return false;
    }
    let mut i: usize = 0;
    while i < a.len()
        invariant
            i <= a@.len(),
            a@.len() == b@.len(),
            forall|k: int| 0 <= k < i ==> step_view(#[trigger] a@[k]) == step_view(b@[k]),
        decreases a.len() - i,
    {
        if !same_step(&a[i], &b[i]) {
            proof {
                assert(steps_view(a@)[i as int] != steps_view(b@)[i as int]);
            }
            return false;
        }
        i += 1;
    }
    proof {
        assert(steps_view(a@) =~= steps_view(b@));
    }
    true
}

/// Whether two patterns are equal.
pub fn same_pattern(a: &PreparedTerm, b: &PreparedTerm) -> (r: bool)
    ensures
        r == (pattern_view(*a) == pattern_view(*b)),
    decreases a,
{
    match (a, b) {
        (PreparedTerm::Bound(i), PreparedTerm::Bound(j)) => *i == *j,
        (PreparedTerm::Capture(i), PreparedTerm::Capture(j)) => *i == *j,
        (PreparedTerm::Lit(l), PreparedTerm::Lit(m)) => l.same(m),
        (
            PreparedTerm::App { func: f, type_args: t, args: vs },
            PreparedTerm::App { func: g, type_args: u, args: xs },
        ) => *f == *g && same_types(t, u) && same_patterns(vs, xs),
        _ => false,
    }
}

fn same_patterns(a: &Vec<PreparedTerm>, b: &Vec<PreparedTerm>) -> (r: bool)
    ensures
        r == (patterns_view(a@) == patterns_view(b@)),
    decreases a,
{
    proof {
        lemma_patterns_view(a@);
        lemma_patterns_view(b@);
    }
    if a.len() != b.len() {
        return false;
    }
    let mut i: usize = 0;
    while i < a.len()
        invariant
            i <= a.len(),
            a.len() == b.len(),
            patterns_view(a@).len() == a.len(),
            patterns_view(b@).len() == b.len(),
            forall|k: int|
                0 <= k < a.len() ==> #[trigger] patterns_view(a@)[k] == pattern_view(a@[k]),
            forall|k: int|
                0 <= k < b.len() ==> #[trigger] patterns_view(b@)[k] == pattern_view(b@[k]),
            forall|k: int| 0 <= k < i ==> pattern_view(#[trigger] a@[k]) == pattern_view(b@[k]),
        decreases a.len() - i,
    {
        assert(decreases_to!(a => a@[i as int]));
        if !same_pattern(&a[i], &b[i]) {
            assert(patterns_view(a@)[i as int] != patterns_view(b@)[i as int]);
            return false;
        }
        i += 1;
    }
    proof {
        assert(patterns_view(a@) =~= patterns_view(b@));
    }
    true
}

fn same_groups(a: &Vec<Vec<PreparedTerm>>, b: &Vec<Vec<PreparedTerm>>) -> (r: bool)
    ensures
        r == (groups_view(a@) == groups_view(b@)),
{
    if a.len() != b.len() {
        proof {
            assert(groups_view(a@).len() != groups_view(b@).len());
        }
        return false;
    }
    let mut i: usize = 0;
    while i < a.len()
        invariant
            i <= a@.len(),
            a@.len() == b@.len(),
            forall|k: int|
                0 <= k < i ==> patterns_view((#[trigger] a@[k])@) == patterns_view(b@[k]@),
        decreases a.len() - i,
    {
        if !same_patterns(&a[i], &b[i]) {
            proof {
                assert(groups_view(a@)[i as int] != groups_view(b@)[i as int]);
            }
            return false;
        }
        i += 1;
    }
    proof {
        assert(groups_view(a@) =~= groups_view(b@));
    }
    true
}

/// Whether two compiled quantifiers are the same: same body and same triggers.
pub fn same_recipe(a: &QuantRecipe, b: &QuantRecipe) -> (r: bool)
    ensures
        r == (a@ == b@),
{
    a.n_caps == b.n_caps && a.n_bound == b.n_bound && same_groups(&a.groups, &b.groups)
        && same_steps(&a.insts, &b.insts) && a.res.same(&b.res)
}

} // verus!
