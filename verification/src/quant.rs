//! Compiling quantifiers into recipes.
//!
//! A quantifier's body shares the slots of what is around it; a recipe has slots of
//! its own: the captured values, the binders, and one for each step. So the same
//! quantifier stated at two places is one recipe.

use crate::lang::{FuncId, RecipeId};
use crate::method::error::VerifyError;
use crate::model::Tm;
use crate::program::{Declaration, Forall, Inst, InstKind, Program, PureInst, TrigTerm, Trigger};
use crate::recipes::{
    groups_view, pattern_view, patterns_view, same_recipe, steps_view, vals_view, PatternV, RecipeV,
};
use crate::rewrite::instantiate::{table_wf, QuantRecipe};
use crate::rewrite::quantified::{pattern_ok, patterns_ok, PreparedTerm};
use crate::rewrite::recipe::{
    guards_ok, inst_fact, inst_facts, inst_ok, inst_vals, insts_ok, pure_tm, slots, val_ok, val_tm,
    val_tms, vals_ok, AxiomInst, AxiomPure,
};
use crate::vmir::{clone_types, types_view, Polarity, Val, ValV};
use std::rc::Rc;
use vstd::prelude::*;

verus! {

/// An operand in the slots of a recipe: a captured slot by its place in the list,
/// binders and steps after the captures.
pub open spec fn renamed(v: ValV, base: usize, free: Seq<usize>) -> ValV {
    match v {
        ValV::Temp(k) => if k < base {
            ValV::Temp(place(free, k as usize))
        } else {
            ValV::Temp((free.len() + (k - base)) as nat)
        },
        ValV::Literal(l) => ValV::Literal(l),
    }
}

/// Operands renamed one by one.
pub open spec fn renamed_all(a: Seq<Val>, b: Seq<Val>, base: usize, free: Seq<usize>) -> bool {
    &&& a.len() == b.len()
    &&& forall|i: int| 0 <= i < a.len() ==> (#[trigger] b[i])@ == renamed(a[i]@, base, free)
}

/// A step with its operands renamed.
pub open spec fn inst_renamed(a: AxiomInst, b: AxiomInst, base: usize, free: Seq<usize>) -> bool {
    match (a, b) {
        (AxiomInst::Val(p), AxiomInst::Val(q)) => match (p, q) {
            (AxiomPure::Binary(o, l, r), AxiomPure::Binary(u, x, y)) => o == u && x@ == renamed(
                l@,
                base,
                free,
            ) && y@ == renamed(r@, base, free),
            (AxiomPure::Ternary(c, t, e), AxiomPure::Ternary(x, y, z)) => x@ == renamed(
                c@,
                base,
                free,
            ) && y@ == renamed(t@, base, free) && z@ == renamed(e@, base, free),
            (AxiomPure::RealCast(v), AxiomPure::RealCast(x)) => x@ == renamed(v@, base, free),
            (
                AxiomPure::App { func: f, type_args: t, args: vs },
                AxiomPure::App { func: g, type_args: u, args: xs },
            ) => f == g && types_view(t@) == types_view(u@) && renamed_all(vs@, xs@, base, free),
            _ => false,
        },
        (AxiomInst::Assume(v), AxiomInst::Assume(x)) => x@ == renamed(v@, base, free),
        (
            AxiomInst::Forall { recipe: r, caps: vs },
            AxiomInst::Forall { recipe: q, caps: xs },
        ) => r == q && renamed_all(vs@, xs@, base, free),
        _ => false,
    }
}

/// Steps with their operands renamed.
pub open spec fn insts_renamed(
    a: Seq<AxiomInst>,
    b: Seq<AxiomInst>,
    base: usize,
    free: Seq<usize>,
) -> bool {
    &&& a.len() == b.len()
    &&& forall|i: int| 0 <= i < a.len() ==> inst_renamed(a[i], #[trigger] b[i], base, free)
}

/// The place of the first occurrence of a slot in a list; its length where there is
/// none.
pub open spec fn place(free: Seq<usize>, k: usize) -> nat
    decreases free.len(),
{
    if free.len() == 0 {
        0
    } else if free[0] == k {
        0
    } else {
        1 + place(free.drop_first(), k)
    }
}

pub proof fn lemma_place(free: Seq<usize>, k: usize)
    ensures
        place(free, k) <= free.len(),
        place(free, k) < free.len() ==> free[place(free, k) as int] == k,
        free.contains(k) ==> place(free, k) < free.len(),
    decreases free.len(),
{
    if free.len() > 0 && free[0] != k {
        lemma_place(free.drop_first(), k);
        if free.contains(k) {
            let i = choose|i: int| 0 <= i < free.len() && free[i] == k;
            assert(free.drop_first()[i - 1] == k);
        }
    }
}

fn find_place(free: &Vec<usize>, k: usize) -> (r: usize)
    ensures
        r == place(free@, k),
{
    let mut i: usize = 0;
    proof {
        assert(free@.skip(0) =~= free@);
    }
    while i < free.len()
        invariant
            i <= free@.len(),
            place(free@, k) == i + place(free@.skip(i as int), k),
        decreases free.len() - i,
    {
        proof {
            assert(free@.skip(i as int)[0] == free@[i as int]);
            assert(free@.skip(i as int).drop_first() =~= free@.skip(i + 1));
        }
        if free[i] == k {
            return i;
        }
        i += 1;
    }
    i
}

/// A list with a slot below the base, unless it is there already.
pub open spec fn noted(free: Seq<usize>, base: usize, v: ValV) -> Seq<usize> {
    match v {
        ValV::Temp(k) => if k < base && !free.contains(k as usize) {
            free.push(k as usize)
        } else {
            free
        },
        _ => free,
    }
}

/// A list with the slots of operands, in order.
pub open spec fn noted_all(free: Seq<usize>, base: usize, vs: Seq<Val>) -> Seq<usize>
    decreases vs.len(),
{
    if vs.len() == 0 {
        free
    } else {
        noted(noted_all(free, base, vs.drop_last()), base, vs.last()@)
    }
}

fn note(free: &mut Vec<usize>, base: usize, v: &Val)
    ensures
        final(free)@ == noted(old(free)@, base, v@),
{
    if let Val::Temp(k) = v {
        if *k < base {
            let at = find_place(free, *k);
            proof {
                lemma_place(free@, *k);
            }
            if at == free.len() {
                free.push(*k);
            }
        }
    }
}

/// The operands of a prepared step, from the left.
pub open spec fn operands(inst: AxiomInst) -> Seq<Val> {
    match inst {
        AxiomInst::Val(p) => match p {
            AxiomPure::Binary(_, l, r) => seq![l, r],
            AxiomPure::Ternary(c, t, e) => seq![c, t, e],
            AxiomPure::RealCast(v) => seq![v],
            AxiomPure::App { func, type_args, args } => args@,
        },
        AxiomInst::Assume(v) => seq![v],
        AxiomInst::Forall { recipe, caps } => caps@,
        AxiomInst::Token { func, args, guards } => args@,
    }
}

/// A list with the slots of steps, in order.
pub open spec fn noted_insts(free: Seq<usize>, base: usize, insts: Seq<AxiomInst>) -> Seq<usize>
    decreases insts.len(),
{
    if insts.len() == 0 {
        free
    } else {
        noted_all(noted_insts(free, base, insts.drop_last()), base, operands(insts.last()))
    }
}

/// The slots that a trigger reads, in order.
pub open spec fn noted_trig(free: Seq<usize>, base: usize, t: TrigTerm) -> Seq<usize>
    decreases t,
{
    match t {
        TrigTerm::Val(v) => noted(free, base, v@),
        TrigTerm::App { function, types, args } => noted_trigs(free, base, args@),
    }
}

pub open spec fn noted_trigs(free: Seq<usize>, base: usize, ts: Seq<TrigTerm>) -> Seq<usize>
    decreases ts,
{
    if ts.len() == 0 {
        free
    } else {
        noted_trig(noted_trigs(free, base, ts.drop_last()), base, ts.last())
    }
}

fn note_all(free: &mut Vec<usize>, base: usize, vs: &Vec<Val>)
    ensures
        final(free)@ == noted_all(old(free)@, base, vs@),
{
    let ghost start = free@;
    let mut i: usize = 0;
    proof {
        assert(vs@.take(0) =~= Seq::empty());
    }
    while i < vs.len()
        invariant
            i <= vs@.len(),
            free@ == noted_all(start, base, vs@.take(i as int)),
        decreases vs.len() - i,
    {
        proof {
            assert(vs@.take(i + 1).drop_last() =~= vs@.take(i as int));
        }
        note(free, base, &vs[i]);
        i += 1;
    }
    proof {
        assert(vs@.take(vs@.len() as int) =~= vs@);
    }
}

fn note_inst(free: &mut Vec<usize>, base: usize, inst: &AxiomInst)
    ensures
        final(free)@ == noted_all(old(free)@, base, operands(*inst)),
{
    let ghost ops = operands(*inst);
    let ghost f0 = free@;
    proof {
        reveal_with_fuel(noted_all, 4);
    }
    match inst {
        AxiomInst::Val(p) => match p {
            AxiomPure::Binary(_, l, r) => {
                note(free, base, l);
                note(free, base, r);
                proof {
                    assert(ops.drop_last() =~= seq![*l]);
                    assert(ops.drop_last().drop_last() =~= Seq::empty());
                }
            },
            AxiomPure::Ternary(c, t, e) => {
                note(free, base, c);
                note(free, base, t);
                note(free, base, e);
                proof {
                    assert(ops.drop_last() =~= seq![*c, *t]);
                    assert(ops.drop_last().drop_last() =~= seq![*c]);
                    assert(ops.drop_last().drop_last().drop_last() =~= Seq::empty());
                }
            },
            AxiomPure::RealCast(v) => {
                note(free, base, v);
                proof {
                    assert(ops.drop_last() =~= Seq::empty());
                }
            },
            AxiomPure::App { func, type_args, args } => {
                note_all(free, base, args);
            },
        },
        AxiomInst::Assume(v) => {
            note(free, base, v);
            proof {
                assert(ops.drop_last() =~= Seq::empty());
            }
        },
        AxiomInst::Forall { recipe, caps } => {
            note_all(free, base, caps);
        },
        AxiomInst::Token { func, args, guards } => {
            note_all(free, base, args);
        },
    }
}

fn note_insts(free: &mut Vec<usize>, base: usize, insts: &Vec<AxiomInst>)
    ensures
        final(free)@ == noted_insts(old(free)@, base, insts@),
{
    let ghost start = free@;
    let mut i: usize = 0;
    proof {
        assert(insts@.take(0) =~= Seq::empty());
    }
    while i < insts.len()
        invariant
            i <= insts@.len(),
            free@ == noted_insts(start, base, insts@.take(i as int)),
        decreases insts.len() - i,
    {
        proof {
            assert(insts@.take(i + 1).drop_last() =~= insts@.take(i as int));
        }
        note_inst(free, base, &insts[i]);
        i += 1;
    }
    proof {
        assert(insts@.take(insts@.len() as int) =~= insts@);
    }
}

fn note_trig(free: &mut Vec<usize>, base: usize, t: &TrigTerm)
    ensures
        final(free)@ == noted_trig(old(free)@, base, *t),
    decreases t,
{
    match t {
        TrigTerm::Val(v) => {
            note(free, base, v);
        },
        TrigTerm::App { function, types, args } => {
            note_trigs(free, base, args);
        },
    }
}

fn note_trigs(free: &mut Vec<usize>, base: usize, ts: &Vec<TrigTerm>)
    ensures
        final(free)@ == noted_trigs(old(free)@, base, ts@),
    decreases ts,
{
    let ghost start = free@;
    let mut i: usize = 0;
    proof {
        assert(ts@.take(0) =~= Seq::empty());
    }
    while i < ts.len()
        invariant
            i <= ts@.len(),
            free@ == noted_trigs(start, base, ts@.take(i as int)),
        decreases ts.len() - i,
    {
        proof {
            assert(ts@.take(i + 1).drop_last() =~= ts@.take(i as int));
        }
        assert(decreases_to!(ts => ts@[i as int]));
        note_trig(free, base, &ts[i]);
        i += 1;
    }
    proof {
        assert(ts@.take(ts@.len() as int) =~= ts@);
    }
}

/// The slot that an operand gets fits its width.
pub open spec fn val_fits(v: ValV, base: usize, free: Seq<usize>) -> bool {
    renamed(v, base, free) matches ValV::Temp(k) ==> k <= usize::MAX
}

pub open spec fn vals_fit(vs: Seq<Val>, base: usize, free: Seq<usize>) -> bool {
    forall|i: int| 0 <= i < vs.len() ==> val_fits((#[trigger] vs[i])@, base, free)
}

/// A step that has a place in a recipe: no presence token, and its operands fit.
pub open spec fn inst_fits(inst: AxiomInst, base: usize, free: Seq<usize>) -> bool {
    !(inst is Token) && vals_fit(operands(inst), base, free)
}

pub open spec fn insts_fit(insts: Seq<AxiomInst>, base: usize, free: Seq<usize>) -> bool {
    forall|i: int| 0 <= i < insts.len() ==> inst_fits(#[trigger] insts[i], base, free)
}

fn rename(v: &Val, base: usize, free: &Vec<usize>) -> (r: Option<Val>)
    ensures
        r is Some == val_fits(v@, base, free@),
        r matches Some(x) ==> x@ == renamed(v@, base, free@),
{
    match v {
        Val::Temp(k) => if *k < base {
            Some(Val::Temp(find_place(free, *k)))
        } else {
            match free.len().checked_add(*k - base) {
                Some(n) => Some(Val::Temp(n)),
                None => None,
            }
        },
        Val::Literal(l) => Some(Val::Literal(l.clone())),
    }
}

/// Up to three operands, one by one.
proof fn lemma_vals_fit(vs: Seq<Val>, base: usize, free: Seq<usize>)
    ensures
        vs.len() == 1 ==> vals_fit(vs, base, free) == val_fits(vs[0]@, base, free),
        vs.len() == 2 ==> vals_fit(vs, base, free) == (val_fits(vs[0]@, base, free) && val_fits(
            vs[1]@,
            base,
            free,
        )),
        vs.len() == 3 ==> vals_fit(vs, base, free) == (val_fits(vs[0]@, base, free) && val_fits(
            vs[1]@,
            base,
            free,
        ) && val_fits(vs[2]@, base, free)),
{
}

fn rename_all(vs: &Vec<Val>, base: usize, free: &Vec<usize>) -> (r: Option<Vec<Val>>)
    ensures
        r is Some == vals_fit(vs@, base, free@),
        r matches Some(xs) ==> renamed_all(vs@, xs@, base, free@),
{
    let mut out: Vec<Val> = Vec::new();
    let mut i: usize = 0;
    while i < vs.len()
        invariant
            i <= vs@.len(),
            out@.len() == i,
            forall|k: int|
                0 <= k < i ==> (#[trigger] out@[k])@ == renamed(vs@[k]@, base, free@),
            forall|k: int| 0 <= k < i ==> val_fits((#[trigger] vs@[k])@, base, free@),
        decreases vs.len() - i,
    {
        match rename(&vs[i], base, free) {
            Some(x) => {
                out.push(x);
            },
            None => {
                assert(!val_fits(vs@[i as int]@, base, free@));
                return None;
            },
        }
        i += 1;
    }
    Some(out)
}

fn rename_pure(p: &AxiomPure, base: usize, free: &Vec<usize>) -> (r: Option<AxiomPure>)
    ensures
        r is Some == inst_fits(AxiomInst::Val(*p), base, free@),
        r matches Some(q) ==> inst_renamed(AxiomInst::Val(*p), AxiomInst::Val(q), base, free@),
{
    let ghost ops = operands(AxiomInst::Val(*p));
    proof {
        lemma_vals_fit(ops, base, free@);
    }
    match p {
        AxiomPure::Binary(op, l, r) => match (rename(l, base, free), rename(r, base, free)) {
            (Some(x), Some(y)) => Some(AxiomPure::Binary(*op, x, y)),
            _ => None,
        },
        AxiomPure::Ternary(c, t, e) => match (
            rename(c, base, free),
            rename(t, base, free),
            rename(e, base, free),
        ) {
            (Some(x), Some(y), Some(z)) => Some(AxiomPure::Ternary(x, y, z)),
            _ => None,
        },
        AxiomPure::RealCast(v) => match rename(v, base, free) {
            Some(x) => Some(AxiomPure::RealCast(x)),
            None => None,
        },
        AxiomPure::App { func, type_args, args } => match rename_all(args, base, free) {
            Some(xs) => Some(
                AxiomPure::App { func: *func, type_args: clone_types(type_args), args: xs },
            ),
            None => None,
        },
    }
}

/// A step in the slots of a recipe. Presence tokens have no place in a quantifier.
pub fn rename_inst(inst: &AxiomInst, base: usize, free: &Vec<usize>) -> (r: Option<AxiomInst>)
    ensures
        r is Some == inst_fits(*inst, base, free@),
        r matches Some(q) ==> inst_renamed(*inst, q, base, free@),
{
    proof {
        lemma_vals_fit(operands(*inst), base, free@);
    }
    match inst {
        AxiomInst::Val(p) => match rename_pure(p, base, free) {
            Some(q) => Some(AxiomInst::Val(q)),
            None => None,
        },
        AxiomInst::Assume(v) => match rename(v, base, free) {
            Some(x) => Some(AxiomInst::Assume(x)),
            None => None,
        },
        AxiomInst::Forall { recipe, caps } => match rename_all(caps, base, free) {
            Some(xs) => Some(AxiomInst::Forall { recipe: *recipe, caps: xs }),
            None => None,
        },
        AxiomInst::Token { func, args, guards } => None,
    }
}

fn rename_insts(insts: &Vec<AxiomInst>, base: usize, free: &Vec<usize>) -> (r: Option<
    Vec<AxiomInst>,
>)
    ensures
        r is Some == insts_fit(insts@, base, free@),
        r matches Some(xs) ==> insts_renamed(insts@, xs@, base, free@),
{
    let mut out: Vec<AxiomInst> = Vec::new();
    let mut i: usize = 0;
    while i < insts.len()
        invariant
            i <= insts@.len(),
            out@.len() == i,
            forall|k: int|
                0 <= k < i ==> inst_renamed(insts@[k], #[trigger] out@[k], base, free@),
            forall|k: int| 0 <= k < i ==> inst_fits(#[trigger] insts@[k], base, free@),
        decreases insts.len() - i,
    {
        match rename_inst(&insts[i], base, free) {
            Some(x) => {
                out.push(x);
            },
            None => {
                assert(!inst_fits(insts@[i as int], base, free@));
                return None;
            },
        }
        i += 1;
    }
    Some(out)
}

/// A quantifier of the program: its recipe, and the slots that it captures.
pub struct Entry {
    pub label: usize,
    pub recipe: RecipeId,
    pub free: Vec<usize>,
}

/// The compiled quantifiers of a program. No two recipes are the same.
pub struct RecipeTable {
    pub recipes: Vec<QuantRecipe>,
    pub entries: Vec<Entry>,
}

/// The place of the first entry with a label.
pub open spec fn entry_at(es: Seq<Entry>, label: usize) -> Option<int>
    decreases es.len(),
{
    if es.len() == 0 {
        None
    } else {
        match entry_at(es.drop_last(), label) {
            Some(i) => Some(i),
            None => if es.last().label == label {
                Some(es.len() - 1)
            } else {
                None
            },
        }
    }
}

proof fn lemma_entry_at(es: Seq<Entry>, label: usize)
    ensures
        entry_at(es, label) matches Some(i) ==> 0 <= i < es.len() && es[i].label == label,
        entry_at(es, label) is None ==> forall|i: int|
            0 <= i < es.len() ==> (#[trigger] es[i]).label != label,
    decreases es.len(),
{
    if es.len() > 0 {
        lemma_entry_at(es.drop_last(), label);
        if entry_at(es, label) is None {
            assert forall|i: int| 0 <= i < es.len() implies (#[trigger] es[i]).label != label by {
                if i < es.len() - 1 {
                    assert(es.drop_last()[i].label != label);
                }
            }
        }
    }
}

/// What an entry says of its quantifier: the label and the slots that it captures. Which
/// recipe it has depends on those that were compiled before, and is stated where one is
/// entered.
pub ghost struct EntryV {
    pub label: usize,
    pub free: Seq<usize>,
}

/// What entries say of their quantifiers.
pub open spec fn entries_view(es: Seq<Entry>) -> Seq<EntryV> {
    Seq::new(es.len(), |i: int| EntryV { label: es[i].label, free: es[i].free@ })
}

/// The place of the first entry with a label.
pub open spec fn label_at(es: Seq<EntryV>, label: usize) -> Option<int>
    decreases es.len(),
{
    if es.len() == 0 {
        None
    } else {
        match label_at(es.drop_last(), label) {
            Some(i) => Some(i),
            None => if es.last().label == label {
                Some(es.len() - 1)
            } else {
                None
            },
        }
    }
}

proof fn lemma_label_at(es: Seq<Entry>, label: usize)
    ensures
        label_at(entries_view(es), label) == entry_at(es, label),
    decreases es.len(),
{
    if es.len() > 0 {
        lemma_label_at(es.drop_last(), label);
        assert(entries_view(es).drop_last() =~= entries_view(es.drop_last()));
    }
}

impl RecipeTable {
    pub open spec fn wf(self) -> bool {
        &&& table_wf(self.recipes@)
        &&& forall|i: int|
            0 <= i < self.entries@.len() ==> (#[trigger] self.entries@[i]).recipe.0
                < self.recipes@.len() && self.entries@[i].free@.len()
                == self.recipes@[self.entries@[i].recipe.0 as int].n_caps
        &&& forall|i: int, j: int|
            0 <= i < j < self.recipes@.len() ==> (#[trigger] self.recipes@[i])@ != (
            #[trigger] self.recipes@[j])@
    }

    /// `other` has the recipes and entries of `self`, and maybe more.
    pub open spec fn extends_to(self, other: RecipeTable) -> bool {
        &&& self.recipes@.is_prefix_of(other.recipes@)
        &&& self.entries@.is_prefix_of(other.entries@)
    }

    pub fn new() -> (r: RecipeTable)
        ensures
            r.wf(),
            r.recipes@.len() == 0,
            r.entries@.len() == 0,
    {
        RecipeTable { recipes: Vec::new(), entries: Vec::new() }
    }

    pub fn get(&self, id: RecipeId) -> (r: &QuantRecipe)
        requires
            id.0 < self.recipes@.len(),
        ensures
            *r == self.recipes@[id.0 as int],
    {
        &self.recipes[id.0]
    }

    pub fn is_empty(&self) -> (r: bool)
        ensures
            r == (self.recipes@.len() == 0),
    {
        self.recipes.len() == 0
    }

    /// The entry of a quantifier.
    pub fn entry_of(&self, label: usize) -> (r: Result<&Entry, VerifyError>)
        ensures
            found_entry(self.entries@, label, r),
    {
        lookup_entry(&self.entries, label)
    }

    /// The recipes, to be shared, and the entries.
    pub fn share(self) -> (r: Quantifiers)
        requires
            self.wf(),
        ensures
            r.wf(),
            r.recipes@ == self.recipes@,
            r.entries@ == self.entries@,
    {
        Quantifiers { recipes: Rc::new(self.recipes), entries: self.entries }
    }
}

/// The compiled quantifiers of a program, as verification reads them.
pub struct Quantifiers {
    pub recipes: Rc<Vec<QuantRecipe>>,
    pub entries: Vec<Entry>,
}

impl Quantifiers {
    pub open spec fn wf(self) -> bool {
        &&& table_wf(self.recipes@)
        &&& forall|i: int|
            0 <= i < self.entries@.len() ==> (#[trigger] self.entries@[i]).recipe.0
                < self.recipes@.len() && self.entries@[i].free@.len()
                == self.recipes@[self.entries@[i].recipe.0 as int].n_caps
    }

    /// The compiled quantifiers of a program without any.
    pub fn none() -> (r: Quantifiers)
        ensures
            r.wf(),
            r.entries@.len() == 0,
            r.recipes@.len() == 0,
    {
        Quantifiers { recipes: Rc::new(Vec::new()), entries: Vec::new() }
    }
}

/// The first entry with a label, or the error that there is none.
pub open spec fn found_entry(es: Seq<Entry>, label: usize, r: Result<&Entry, VerifyError>) -> bool {
    match entry_at(es, label) {
        Some(i) => r == Ok::<&Entry, VerifyError>(&es[i]),
        None => r matches Err(e) && e == VerifyError::Unimplemented("forall recipe not interned"),
    }
}

/// The entry of a quantifier.
pub fn lookup_entry(es: &Vec<Entry>, label: usize) -> (r: Result<&Entry, VerifyError>)
    ensures
        found_entry(es@, label, r),
{
    let mut i: usize = 0;
    proof {
        assert(es@.take(0) =~= Seq::empty());
    }
    while i < es.len()
        invariant
            i <= es@.len(),
            entry_at(es@.take(i as int), label) is None,
        decreases es.len() - i,
    {
        proof {
            assert(es@.take(i + 1).drop_last() =~= es@.take(i as int));
        }
        if es[i].label == label {
            proof {
                lemma_entry_prefix(es@, i + 1, label);
            }
            return Ok(&es[i]);
        }
        i += 1;
    }
    proof {
        assert(es@.take(es@.len() as int) =~= es@);
    }
    Err(VerifyError::Unimplemented("forall recipe not interned"))
}

proof fn lemma_entry_prefix(es: Seq<Entry>, n: int, label: usize)
    requires
        0 <= n <= es.len(),
        entry_at(es.take(n), label) is Some,
    ensures
        entry_at(es, label) == entry_at(es.take(n), label),
    decreases es.len() - n,
{
    if n < es.len() {
        assert(es.take(n + 1).drop_last() =~= es.take(n));
        lemma_entry_prefix(es, n + 1, label);
    } else {
        assert(es.take(n) =~= es);
    }
}

/// The step that an instruction is prepared as.
pub open spec fn prepared(inst: Inst, a: AxiomInst, es: Seq<Entry>) -> bool {
    match inst.kind {
        InstKind::Pure(_, pi) => match (pi, a) {
            (PureInst::Binary(op, l, r), AxiomInst::Val(AxiomPure::Binary(o, x, y))) => op == o
                && l@ == x@ && r@ == y@,
            (PureInst::Ternary(c, t, e), AxiomInst::Val(AxiomPure::Ternary(x, y, z))) => c@ == x@
                && t@ == y@ && e@ == z@,
            (PureInst::RealCast(v), AxiomInst::Val(AxiomPure::RealCast(x))) => v@ == x@,
            (
                PureInst::FunctionCall(fc),
                AxiomInst::Val(AxiomPure::App { func, type_args, args }),
            ) => func == FuncId(fc.function) && types_view(type_args@) == types_view(fc.types@)
                && vals_view(args@) == vals_view(fc.args@),
            (PureInst::Forall(q), AxiomInst::Forall { recipe, caps }) => entry_at(
                es,
                q.label,
            ) matches Some(i) && recipe == es[i].recipe && vals_view(caps@) == temps_view(
                es[i].free@,
            ),
            _ => false,
        },
        InstKind::Assume(v) => a matches AxiomInst::Assume(x) && v@ == x@,
        _ => false,
    }
}

/// Whether an instruction can stand in a quantifier.
pub open spec fn preparable(inst: Inst, es: Seq<EntryV>) -> bool {
    match inst.kind {
        InstKind::Pure(_, pi) => match pi {
            PureInst::Fresh | PureInst::Deref(_, _) | PureInst::Perm(_, _) => false,
            PureInst::Forall(q) => label_at(es, q.label) is Some,
            _ => true,
        },
        InstKind::Assume(_) => true,
        _ => false,
    }
}

pub open spec fn temps_view(ks: Seq<usize>) -> Seq<ValV> {
    Seq::new(ks.len(), |i: int| ValV::Temp(ks[i] as nat))
}

fn clone_vals(vs: &Vec<Val>) -> (r: Vec<Val>)
    ensures
        vals_view(r@) == vals_view(vs@),
{
    let mut out: Vec<Val> = Vec::new();
    let mut i: usize = 0;
    while i < vs.len()
        invariant
            i <= vs@.len(),
            out@.len() == i,
            forall|k: int| 0 <= k < i ==> (#[trigger] out@[k])@ == vs@[k]@,
        decreases vs.len() - i,
    {
        out.push(vs[i].clone());
        i += 1;
    }
    proof {
        assert(vals_view(out@) =~= vals_view(vs@));
    }
    out
}

fn temps(ks: &Vec<usize>) -> (r: Vec<Val>)
    ensures
        vals_view(r@) == temps_view(ks@),
{
    let mut out: Vec<Val> = Vec::new();
    let mut i: usize = 0;
    while i < ks.len()
        invariant
            i <= ks@.len(),
            out@.len() == i,
            forall|k: int| 0 <= k < i ==> (#[trigger] out@[k])@ == ValV::Temp(ks@[k] as nat),
        decreases ks.len() - i,
    {
        out.push(Val::Temp(ks[i]));
        i += 1;
    }
    proof {
        assert(vals_view(out@) =~= temps_view(ks@));
    }
    out
}

/// Why an instruction cannot stand in a quantifier.
pub open spec fn refusal(inst: Inst, es: Seq<EntryV>) -> Option<VerifyError> {
    if preparable(inst, es) {
        None
    } else {
        Some(
            VerifyError::Unimplemented(
                match inst.kind {
                    InstKind::Pure(_, PureInst::Forall(_)) => "forall recipe not interned",
                    InstKind::Pure(_, _) => "impure inst in quantifier body",
                    _ => "effectful inst in quantifier body",
                },
            ),
        )
    }
}

/// Why the first instruction that cannot stand in a quantifier cannot.
pub open spec fn first_refusal(insts: Seq<Inst>, es: Seq<EntryV>) -> Option<VerifyError>
    decreases insts.len(),
{
    if insts.len() == 0 {
        None
    } else {
        match first_refusal(insts.drop_last(), es) {
            Some(e) => Some(e),
            None => refusal(insts.last(), es),
        }
    }
}

proof fn lemma_refusal_prefix(insts: Seq<Inst>, n: int, es: Seq<EntryV>)
    requires
        0 <= n <= insts.len(),
        first_refusal(insts.take(n), es) is Some,
    ensures
        first_refusal(insts, es) == first_refusal(insts.take(n), es),
    decreases insts.len() - n,
{
    if n < insts.len() {
        assert(insts.take(n + 1).drop_last() =~= insts.take(n));
        lemma_refusal_prefix(insts, n + 1, es);
    } else {
        assert(insts.take(n) =~= insts);
    }
}

/// Prepares an instruction of a quantifier.
pub fn prepare_inst(inst: &Inst, table: &RecipeTable) -> (r: Result<AxiomInst, VerifyError>)
    ensures
        r is Ok == preparable(*inst, entries_view(table.entries@)),
        r matches Err(e) ==> refusal(*inst, entries_view(table.entries@)) == Some(e),
        r matches Ok(a) ==> prepared(*inst, a, table.entries@),
{
    proof {
        if let InstKind::Pure(_, PureInst::Forall(q)) = &inst.kind {
            lemma_label_at(table.entries@, q.label);
        }
    }
    match &inst.kind {
        InstKind::Pure(_, pi) => match pi {
            PureInst::Binary(op, l, r) => Ok(
                AxiomInst::Val(AxiomPure::Binary(*op, l.clone(), r.clone())),
            ),
            PureInst::Ternary(c, t, e) => Ok(
                AxiomInst::Val(AxiomPure::Ternary(c.clone(), t.clone(), e.clone())),
            ),
            PureInst::RealCast(v) => Ok(AxiomInst::Val(AxiomPure::RealCast(v.clone()))),
            PureInst::FunctionCall(fc) => Ok(
                AxiomInst::Val(
                    AxiomPure::App {
                        func: FuncId(fc.function),
                        type_args: clone_types(&fc.types),
                        args: clone_vals(&fc.args),
                    },
                ),
            ),
            PureInst::Forall(q) => match table.entry_of(q.label) {
                Ok(e) => Ok(AxiomInst::Forall { recipe: e.recipe, caps: temps(&e.free) }),
                Err(e) => Err(e),
            },
            _ => Err(VerifyError::Unimplemented("impure inst in quantifier body")),
        },
        InstKind::Assume(v) => Ok(AxiomInst::Assume(v.clone())),
        _ => Err(VerifyError::Unimplemented("effectful inst in quantifier body")),
    }
}

/// Instructions prepared one by one.
pub open spec fn all_prepared(insts: Seq<Inst>, a: Seq<AxiomInst>, es: Seq<Entry>) -> bool {
    &&& a.len() == insts.len()
    &&& forall|i: int| 0 <= i < insts.len() ==> prepared(insts[i], #[trigger] a[i], es)
}

/// Prepares the body of a quantifier.
pub fn prepare_body(insts: &Vec<Inst>, table: &RecipeTable) -> (r: Result<
    Vec<AxiomInst>,
    VerifyError,
>)
    ensures
        r matches Ok(a) ==> all_prepared(insts@, a@, table.entries@),
        r is Ok == forall|i: int|
            0 <= i < insts@.len() ==> preparable(
                #[trigger] insts@[i],
                entries_view(table.entries@),
            ),
        r is Ok ==> first_refusal(insts@, entries_view(table.entries@)) is None,
        r matches Err(e) ==> first_refusal(insts@, entries_view(table.entries@)) == Some(e),
{
    let mut out: Vec<AxiomInst> = Vec::new();
    let mut i: usize = 0;
    proof {
        assert(insts@.take(0) =~= Seq::empty());
    }
    while i < insts.len()
        invariant
            i <= insts@.len(),
            out@.len() == i,
            forall|k: int|
                0 <= k < i ==> prepared(insts@[k], #[trigger] out@[k], table.entries@),
            forall|k: int|
                0 <= k < i ==> preparable(#[trigger] insts@[k], entries_view(table.entries@)),
            first_refusal(insts@.take(i as int), entries_view(table.entries@)) is None,
        decreases insts.len() - i,
    {
        proof {
            assert(insts@.take(i + 1).drop_last() =~= insts@.take(i as int));
        }
        match prepare_inst(&insts[i], table) {
            Ok(a) => {
                out.push(a);
            },
            Err(e) => {
                proof {
                    assert(!preparable(insts@[i as int], entries_view(table.entries@)));
                    assert(first_refusal(insts@.take(i + 1), entries_view(table.entries@)) == Some(
                        e,
                    ));
                    lemma_refusal_prefix(insts@, i + 1, entries_view(table.entries@));
                }
                return Err(e);
            },
        }
        i += 1;
    }
    proof {
        assert(insts@.take(insts@.len() as int) =~= insts@);
    }
    Ok(out)
}

/// The pattern that a trigger is prepared as.
pub open spec fn trig_view(t: TrigTerm, base: usize, free: Seq<usize>) -> PatternV
    decreases t,
{
    match t {
        TrigTerm::Val(Val::Temp(k)) => if k < base {
            PatternV::Capture(place(free, k) as usize)
        } else {
            PatternV::Bound((k - base) as usize)
        },
        TrigTerm::Val(Val::Literal(l)) => PatternV::Lit(l@),
        TrigTerm::App { function, types, args } => PatternV::App(
            FuncId(function),
            types_view(types@),
            trigs_view(args@, base, free),
        ),
    }
}

pub open spec fn trigs_view(ts: Seq<TrigTerm>, base: usize, free: Seq<usize>) -> Seq<PatternV>
    decreases ts,
{
    if ts.len() == 0 {
        Seq::empty()
    } else {
        trigs_view(ts.drop_last(), base, free).push(trig_view(ts.last(), base, free))
    }
}

/// Prepares a trigger.
pub fn prepare_trig_term(t: &TrigTerm, base: usize, free: &Vec<usize>) -> (r: PreparedTerm)
    ensures
        pattern_view(r) == trig_view(*t, base, free@),
    decreases t,
{
    match t {
        TrigTerm::Val(v) => match v {
            Val::Temp(k) => if *k < base {
                PreparedTerm::Capture(find_place(free, *k))
            } else {
                PreparedTerm::Bound(*k - base)
            },
            Val::Literal(l) => PreparedTerm::Lit(l.clone()),
        },
        TrigTerm::App { function, types, args } => PreparedTerm::App {
            func: FuncId(*function),
            type_args: clone_types(types),
            args: prepare_trigs(args, base, free),
        },
    }
}

fn prepare_trigs(ts: &Vec<TrigTerm>, base: usize, free: &Vec<usize>) -> (r: Vec<PreparedTerm>)
    ensures
        patterns_view(r@) == trigs_view(ts@, base, free@),
    decreases ts,
{
    let mut out: Vec<PreparedTerm> = Vec::new();
    let mut i: usize = 0;
    proof {
        assert(ts@.take(0) =~= Seq::empty());
    }
    while i < ts.len()
        invariant
            i <= ts@.len(),
            patterns_view(out@) == trigs_view(ts@.take(i as int), base, free@),
        decreases ts.len() - i,
    {
        proof {
            assert(ts@.take(i + 1).drop_last() =~= ts@.take(i as int));
        }
        assert(decreases_to!(ts => ts@[i as int]));
        let ghost before = out@;
        let p = prepare_trig_term(&ts[i], base, free);
        let ghost had = p;
        out.push(p);
        proof {
            assert(out@.drop_last() =~= before);
        }
        i += 1;
    }
    proof {
        assert(ts@.take(ts@.len() as int) =~= ts@);
    }
    out
}

/// The slots that trigger groups read, in order.
pub open spec fn noted_groups(free: Seq<usize>, base: usize, gs: Seq<Trigger>) -> Seq<usize>
    decreases gs.len(),
{
    if gs.len() == 0 {
        free
    } else {
        noted_trigs(noted_groups(free, base, gs.drop_last()), base, gs.last().terms@)
    }
}

/// The slots that a quantifier captures: those that its triggers read, then those of
/// its body and of its result, each once.
pub open spec fn free_of(q: Forall, raw: Seq<AxiomInst>) -> Seq<usize> {
    noted(
        noted_insts(noted_groups(Seq::empty(), q.binder_base, q.triggers@), q.binder_base, raw),
        q.binder_base,
        q.body.res@,
    )
}

/// The slots that a quantifier captures.
pub fn free_temps(q: &Forall, raw: &Vec<AxiomInst>) -> (r: Vec<usize>)
    ensures
        r@ == free_of(*q, raw@),
{
    let mut free: Vec<usize> = Vec::new();
    let mut i: usize = 0;
    proof {
        assert(q.triggers@.take(0) =~= Seq::empty());
        assert(free@ =~= Seq::empty());
    }
    while i < q.triggers.len()
        invariant
            i <= q.triggers@.len(),
            free@ == noted_groups(Seq::empty(), q.binder_base, q.triggers@.take(i as int)),
        decreases q.triggers.len() - i,
    {
        proof {
            assert(q.triggers@.take(i + 1).drop_last() =~= q.triggers@.take(i as int));
        }
        note_trigs(&mut free, q.binder_base, &q.triggers[i].terms);
        i += 1;
    }
    proof {
        assert(q.triggers@.take(q.triggers@.len() as int) =~= q.triggers@);
    }
    note_insts(&mut free, q.binder_base, raw);
    note(&mut free, q.binder_base, &q.body.res);
    free
}

fn check_val(v: &Val, n: usize) -> (r: bool)
    ensures
        r == val_ok(*v, n as nat),
{
    match v {
        Val::Temp(k) => *k < n,
        Val::Literal(_) => true,
    }
}

fn check_vals(vs: &Vec<Val>, n: usize) -> (r: bool)
    ensures
        r == vals_ok(vs@, n as nat),
{
    let mut i: usize = 0;
    while i < vs.len()
        invariant
            i <= vs@.len(),
            forall|k: int| 0 <= k < i ==> val_ok(#[trigger] vs@[k], n as nat),
        decreases vs.len() - i,
    {
        if !check_val(&vs[i], n) {
            assert(!val_ok(vs@[i as int], n as nat));
            return false;
        }
        i += 1;
    }
    true
}

fn check_guards(gs: &Vec<(Val, Polarity)>, n: usize) -> (r: bool)
    ensures
        r == guards_ok(gs@, n as nat),
{
    let mut i: usize = 0;
    while i < gs.len()
        invariant
            i <= gs@.len(),
            forall|k: int| 0 <= k < i ==> val_ok((#[trigger] gs@[k]).0, n as nat),
        decreases gs.len() - i,
    {
        if !check_val(&gs[i].0, n) {
            assert(!val_ok(gs@[i as int].0, n as nat));
            return false;
        }
        i += 1;
    }
    true
}

fn check_inst(inst: &AxiomInst, n: usize) -> (r: bool)
    ensures
        r == inst_ok(*inst, n as nat),
{
    match inst {
        AxiomInst::Val(p) => match p {
            AxiomPure::Binary(_, l, r) => check_val(l, n) && check_val(r, n),
            AxiomPure::Ternary(c, t, e) => check_val(c, n) && check_val(t, n) && check_val(e, n),
            AxiomPure::RealCast(v) => check_val(v, n),
            AxiomPure::App { func, type_args, args } => check_vals(args, n),
        },
        AxiomInst::Assume(v) => check_val(v, n),
        AxiomInst::Forall { recipe, caps } => check_vals(caps, n),
        AxiomInst::Token { func, args, guards } => check_vals(args, n) && check_guards(guards, n),
    }
}

/// Steps give up no slots.
proof fn lemma_slots_rise(insts: Seq<AxiomInst>, i: int, n: nat)
    requires
        0 <= i <= insts.len(),
    ensures
        n <= slots(insts.take(i), n) <= slots(insts, n),
    decreases insts.len(),
{
    if insts.len() > 0 {
        let front = insts.drop_last();
        if i < insts.len() {
            lemma_slots_rise(front, i, n);
            assert(front.take(i) =~= insts.take(i));
        } else {
            lemma_slots_rise(front, front.len() as int, n);
            assert(insts.take(i) =~= insts);
            assert(front.take(front.len() as int) =~= front);
        }
    } else {
        assert(insts.take(i) =~= insts);
    }
}

/// The number of slots after steps, where every step names slots filled before it
/// and the number fits.
#[verifier::rlimit(40)]
#[verifier::spinoff_prover]
fn check_insts(insts: &Vec<AxiomInst>, n: usize) -> (r: Option<usize>)
    ensures
        r is Some == (insts_ok(insts@, n as nat) && slots(insts@, n as nat) <= usize::MAX),
        r matches Some(k) ==> k == slots(insts@, n as nat),
{
    let mut k: usize = n;
    let mut i: usize = 0;
    proof {
        assert(insts@.take(0) =~= Seq::empty());
    }
    while i < insts.len()
        invariant
            i <= insts@.len(),
            k == slots(insts@.take(i as int), n as nat),
            forall|j: int|
                0 <= j < i ==> inst_ok(#[trigger] insts@[j], slots(insts@.take(j), n as nat)),
        decreases insts.len() - i,
    {
        proof {
            assert(insts@.take(i + 1).drop_last() =~= insts@.take(i as int));
            assert(insts@.take(i + 1).last() == insts@[i as int]);
        }
        if !check_inst(&insts[i], k) {
            assert(!inst_ok(insts@[i as int], slots(insts@.take(i as int), n as nat)));
            return None;
        }
        match &insts[i] {
            AxiomInst::Val(_) | AxiomInst::Forall { .. } => {
                if k == usize::MAX {
                    proof {
                        lemma_slots_rise(insts@, i + 1, n as nat);
                    }
                    return None;
                }
                k += 1;
            },
            _ => {},
        }
        i += 1;
    }
    proof {
        assert(insts@.take(insts@.len() as int) =~= insts@);
    }
    Some(k)
}

fn check_pattern(t: &PreparedTerm, n_bound: usize, n_caps: usize) -> (r: bool)
    ensures
        r == pattern_ok(*t, n_bound as nat, n_caps as nat),
    decreases t,
{
    match t {
        PreparedTerm::Bound(i) => *i < n_bound,
        PreparedTerm::Capture(i) => *i < n_caps,
        PreparedTerm::Lit(_) => true,
        PreparedTerm::App { func, type_args, args } => check_patterns(args, n_bound, n_caps),
    }
}

fn check_patterns(ts: &Vec<PreparedTerm>, n_bound: usize, n_caps: usize) -> (r: bool)
    ensures
        r == patterns_ok(ts@, n_bound as nat, n_caps as nat),
    decreases ts,
{
    let mut ok: bool = true;
    let mut i: usize = 0;
    proof {
        assert(ts@.take(0) =~= Seq::empty());
    }
    while i < ts.len()
        invariant
            i <= ts@.len(),
            ok == patterns_ok(ts@.take(i as int), n_bound as nat, n_caps as nat),
        decreases ts.len() - i,
    {
        proof {
            assert(ts@.take(i + 1).drop_last() =~= ts@.take(i as int));
        }
        assert(decreases_to!(ts => ts@[i as int]));
        let good = check_pattern(&ts[i], n_bound, n_caps);
        ok = ok && good;
        i += 1;
    }
    proof {
        assert(ts@.take(ts@.len() as int) =~= ts@);
    }
    ok
}

/// The patterns that trigger groups are prepared as.
pub open spec fn trigger_views(gs: Seq<Trigger>, base: usize, free: Seq<usize>) -> Seq<Seq<PatternV>> {
    Seq::new(gs.len(), |i: int| trigs_view(gs[i].terms@, base, free))
}

/// A trigger reads captured slots of a list and binders alone.
pub open spec fn trig_reads(t: TrigTerm, base: usize, n_bound: nat, free: Seq<usize>) -> bool
    decreases t,
{
    match t {
        TrigTerm::Val(Val::Temp(k)) => if k < base {
            free.contains(k)
        } else {
            k - base < n_bound
        },
        TrigTerm::Val(Val::Literal(_)) => true,
        TrigTerm::App { function, types, args } => trigs_read(args@, base, n_bound, free),
    }
}

pub open spec fn trigs_read(
    ts: Seq<TrigTerm>,
    base: usize,
    n_bound: nat,
    free: Seq<usize>,
) -> bool
    decreases ts,
{
    ts.len() == 0 || (trigs_read(ts.drop_last(), base, n_bound, free) && trig_reads(
        ts.last(),
        base,
        n_bound,
        free,
    ))
}

/// The pattern of a trigger is well-formed just where the trigger reads what there
/// is.
proof fn lemma_trig_reads(t: TrigTerm, p: PreparedTerm, base: usize, n_bound: nat, free: Seq<usize>)
    requires
        pattern_view(p) == trig_view(t, base, free),
        free.len() <= usize::MAX,
    ensures
        pattern_ok(p, n_bound, free.len()) == trig_reads(t, base, n_bound, free),
    decreases t,
{
    match t {
        TrigTerm::Val(Val::Temp(k)) => {
            lemma_place(free, k);
        },
        TrigTerm::Val(Val::Literal(_)) => {},
        TrigTerm::App { function, types, args } => {
            if let PreparedTerm::App { func, type_args, args: ps } = p {
                lemma_trigs_read(args@, ps@, base, n_bound, free);
            }
        },
    }
}

proof fn lemma_trigs_read(
    ts: Seq<TrigTerm>,
    ps: Seq<PreparedTerm>,
    base: usize,
    n_bound: nat,
    free: Seq<usize>,
)
    requires
        patterns_view(ps) == trigs_view(ts, base, free),
        free.len() <= usize::MAX,
    ensures
        patterns_ok(ps, n_bound, free.len()) == trigs_read(ts, base, n_bound, free),
    decreases ts,
{
    if ts.len() > 0 {
        let vs = trigs_view(ts.drop_last(), base, free);
        assert(patterns_view(ps).len() > 0);
        assert(ps.len() > 0);
        let ws = patterns_view(ps.drop_last());
        assert(ws.push(pattern_view(ps.last())).drop_last() =~= ws);
        assert(vs.push(trig_view(ts.last(), base, free)).drop_last() =~= vs);
        assert(ws == vs);
        assert(ws.push(pattern_view(ps.last())).last() == vs.push(
            trig_view(ts.last(), base, free),
        ).last());
        lemma_trigs_read(ts.drop_last(), ps.drop_last(), base, n_bound, free);
        lemma_trig_reads(ts.last(), ps.last(), base, n_bound, free);
    } else {
        if ps.len() > 0 {
            assert(patterns_view(ps).len() > 0);
        }
    }
}

/// The trigger groups of a quantifier, where they read what there is.
fn prepare_groups(q: &Forall, free: &Vec<usize>) -> (r: Option<Vec<Vec<PreparedTerm>>>)
    ensures
        r is Some == forall|i: int|
            0 <= i < q.triggers@.len() ==> trigs_read(
                (#[trigger] q.triggers@[i]).terms@,
                q.binder_base,
                q.bound@.len(),
                free@,
            ),
        r matches Some(gs) ==> groups_view(gs@) == trigger_views(
            q.triggers@,
            q.binder_base,
            free@,
        ) && forall|i: int|
            0 <= i < gs@.len() ==> patterns_ok(
                (#[trigger] gs@[i])@,
                q.bound@.len(),
                free@.len(),
            ),
{
    let mut out: Vec<Vec<PreparedTerm>> = Vec::new();
    let mut i: usize = 0;
    while i < q.triggers.len()
        invariant
            i <= q.triggers@.len(),
            out@.len() == i,
            forall|k: int|
                0 <= k < i ==> patterns_view((#[trigger] out@[k])@) == trigs_view(
                    q.triggers@[k].terms@,
                    q.binder_base,
                    free@,
                ),
            forall|k: int|
                0 <= k < i ==> patterns_ok((#[trigger] out@[k])@, q.bound@.len(), free@.len()),
            forall|k: int|
                0 <= k < i ==> trigs_read(
                    (#[trigger] q.triggers@[k]).terms@,
                    q.binder_base,
                    q.bound@.len(),
                    free@,
                ),
        decreases q.triggers.len() - i,
    {
        let g = prepare_trigs(&q.triggers[i].terms, q.binder_base, free);
        proof {
            let n = free.len();
            lemma_trigs_read(
                q.triggers@[i as int].terms@,
                g@,
                q.binder_base,
                q.bound@.len(),
                free@,
            );
        }
        if !check_patterns(&g, q.bound.len(), free.len()) {
            return None;
        }
        out.push(g);
        i += 1;
    }
    proof {
        assert(groups_view(out@) =~= trigger_views(q.triggers@, q.binder_base, free@));
    }
    Some(out)
}

/// What a quantifier is compiled into, given the entries of those inside it.
pub open spec fn compiled(q: Forall, es: Seq<Entry>, r: RecipeV, free: Seq<usize>) -> bool {
    exists|raw: Seq<AxiomInst>, insts: Seq<AxiomInst>|
        {
            &&& #[trigger] all_prepared(q.body.insts@, raw, es)
            &&& #[trigger] insts_renamed(raw, insts, q.binder_base, free)
            &&& free == free_of(q, raw)
            &&& r.steps == steps_view(insts)
            &&& r.res == renamed(q.body.res@, q.binder_base, free)
            &&& r.n_caps == free.len()
            &&& r.n_bound == q.bound@.len()
            &&& r.groups == trigger_views(q.triggers@, q.binder_base, free)
        }
}

/// The operands that an instruction of a quantifier reads, from the left: those of a
/// quantifier inside it are the slots that it captures.
pub open spec fn reads(inst: Inst, es: Seq<EntryV>) -> Seq<ValV> {
    match inst.kind {
        InstKind::Pure(_, pi) => match pi {
            PureInst::Binary(_, l, r) => seq![l@, r@],
            PureInst::Ternary(c, t, e) => seq![c@, t@, e@],
            PureInst::RealCast(v) => seq![v@],
            PureInst::FunctionCall(fc) => vals_view(fc.args@),
            PureInst::Forall(q) => match label_at(es, q.label) {
                Some(i) => temps_view(es[i].free),
                None => Seq::empty(),
            },
            _ => Seq::empty(),
        },
        InstKind::Assume(v) => seq![v@],
        _ => Seq::empty(),
    }
}

/// A list with the slots of operands, in order.
pub open spec fn noted_views(free: Seq<usize>, base: usize, vs: Seq<ValV>) -> Seq<usize>
    decreases vs.len(),
{
    if vs.len() == 0 {
        free
    } else {
        noted(noted_views(free, base, vs.drop_last()), base, vs.last())
    }
}

/// A list with the slots that instructions read, in order.
pub open spec fn noted_reads(
    free: Seq<usize>,
    base: usize,
    insts: Seq<Inst>,
    es: Seq<EntryV>,
) -> Seq<usize>
    decreases insts.len(),
{
    if insts.len() == 0 {
        free
    } else {
        noted_views(noted_reads(free, base, insts.drop_last(), es), base, reads(insts.last(), es))
    }
}

/// The slots that a quantifier captures, given those that the ones inside it capture:
/// those that its triggers read, then those of its body and of its result, each once.
pub open spec fn captures(q: Forall, es: Seq<EntryV>) -> Seq<usize> {
    noted(
        noted_reads(
            noted_groups(Seq::empty(), q.binder_base, q.triggers@),
            q.binder_base,
            q.body.insts@,
            es,
        ),
        q.binder_base,
        q.body.res@,
    )
}

/// The number of slots after instructions that start with `n`: one for each that
/// computes a value.
pub open spec fn filled(insts: Seq<Inst>, n: nat) -> nat
    decreases insts.len(),
{
    if insts.len() == 0 {
        n
    } else {
        let before = filled(insts.drop_last(), n);
        if insts.last().kind is Pure {
            before + 1
        } else {
            before
        }
    }
}

/// An operand names one of the first `n` slots.
pub open spec fn in_scope(v: ValV, n: int) -> bool {
    v matches ValV::Temp(k) ==> k < n
}

pub open spec fn all_in_scope(vs: Seq<ValV>, n: int) -> bool {
    forall|i: int| 0 <= i < vs.len() ==> in_scope(#[trigger] vs[i], n)
}

/// A trigger names some of the first `n` slots.
pub open spec fn trig_in_scope(t: TrigTerm, n: int) -> bool
    decreases t,
{
    match t {
        TrigTerm::Val(v) => in_scope(v@, n),
        TrigTerm::App { function, types, args } => trigs_in_scope(args@, n),
    }
}

pub open spec fn trigs_in_scope(ts: Seq<TrigTerm>, n: int) -> bool
    decreases ts,
{
    ts.len() == 0 || (trigs_in_scope(ts.drop_last(), n) && trig_in_scope(ts.last(), n))
}

/// A quantifier names slots that exist: each instruction those around it, the binders
/// and the values before it; the result all of them; the triggers those around it and
/// the binders.
pub open spec fn scoped(q: Forall, es: Seq<EntryV>) -> bool {
    let insts = q.body.insts@;
    let n = q.bound@.len();
    &&& forall|i: int|
        0 <= i < insts.len() ==> all_in_scope(
            reads(#[trigger] insts[i], es),
            q.binder_base + filled(insts.take(i), n),
        )
    &&& in_scope(q.body.res@, q.binder_base + filled(insts, n))
    &&& forall|i: int|
        0 <= i < q.triggers@.len() ==> trigs_in_scope(
            (#[trigger] q.triggers@[i]).terms@,
            q.binder_base + n,
        )
}

/// What compiling a quantifier gives, given the entries of those inside it: the slots
/// that it captures, or the error. Slots of its own are numbered in the width of a
/// slot.
pub open spec fn compiling(q: Forall, es: Seq<EntryV>) -> Result<Seq<usize>, VerifyError> {
    match first_refusal(q.body.insts@, es) {
        Some(e) => Err(e),
        None => if scoped(q, es) && captures(q, es).len() + filled(q.body.insts@, q.bound@.len())
            <= usize::MAX {
            Ok(captures(q, es))
        } else {
            Err(VerifyError::Unimplemented("quantifier reads a slot that does not exist"))
        },
    }
}

proof fn lemma_noted_views(free: Seq<usize>, base: usize, vs: Seq<Val>)
    ensures
        noted_all(free, base, vs) == noted_views(free, base, vals_view(vs)),
    decreases vs.len(),
{
    if vs.len() > 0 {
        lemma_noted_views(free, base, vs.drop_last());
        assert(vals_view(vs).drop_last() =~= vals_view(vs.drop_last()));
    }
}

/// A prepared instruction reads what the instruction reads.
proof fn lemma_prepared_reads(inst: Inst, a: AxiomInst, es: Seq<Entry>)
    requires
        prepared(inst, a, es),
    ensures
        vals_view(operands(a)) == reads(inst, entries_view(es)),
        (a is Val || a is Forall) == (inst.kind is Pure),
        !(a is Token),
{
    let vs = vals_view(operands(a));
    let rs = reads(inst, entries_view(es));
    if let InstKind::Pure(_, PureInst::Forall(q)) = inst.kind {
        lemma_label_at(es, q.label);
        lemma_entry_at(es, q.label);
    }
    assert(vs =~= rs);
}

proof fn lemma_prepared_noted(
    free: Seq<usize>,
    base: usize,
    insts: Seq<Inst>,
    raw: Seq<AxiomInst>,
    es: Seq<Entry>,
    n: nat,
)
    requires
        all_prepared(insts, raw, es),
    ensures
        noted_insts(free, base, raw) == noted_reads(free, base, insts, entries_view(es)),
        slots(raw, n) == filled(insts, n),
    decreases insts.len(),
{
    if insts.len() > 0 {
        let front = insts.drop_last();
        let rf = raw.drop_last();
        assert forall|i: int| 0 <= i < front.len() implies prepared(front[i], #[trigger] rf[i], es) by {
            assert(prepared(insts[i], raw[i], es));
        }
        lemma_prepared_noted(free, base, front, rf, es, n);
        let k = insts.len() - 1;
        assert(prepared(insts[k], raw[k], es));
        lemma_prepared_reads(insts[k], raw[k], es);
        lemma_noted_views(noted_insts(free, base, rf), base, operands(raw.last()));
    }
}

/// Renaming keeps the number of slots.
proof fn lemma_renamed_slots(
    a: Seq<AxiomInst>,
    b: Seq<AxiomInst>,
    base: usize,
    free: Seq<usize>,
    n: nat,
    m: nat,
)
    requires
        insts_renamed(a, b, base, free),
    ensures
        slots(b, m + n) == m + slots(a, n),
    decreases a.len(),
{
    if a.len() > 0 {
        let af = a.drop_last();
        let bf = b.drop_last();
        assert forall|i: int| 0 <= i < af.len() implies inst_renamed(
            af[i],
            #[trigger] bf[i],
            base,
            free,
        ) by {
            assert(inst_renamed(a[i], b[i], base, free));
        }
        lemma_renamed_slots(af, bf, base, free, n, m);
        assert(inst_renamed(a[a.len() - 1], b[a.len() - 1], base, free));
    }
}

/// A renamed operand names a slot of the recipe just where the operand names one of
/// the quantifier.
proof fn lemma_renamed_scope(v: Val, w: Val, base: usize, free: Seq<usize>, n: nat)
    requires
        covers(free, base, v@),
        w@ == renamed(v@, base, free),
    ensures
        val_ok(w, free.len() + n) == in_scope(v@, base + n),
{
    if let Val::Temp(k) = v {
        lemma_place(free, k);
    }
}

proof fn lemma_renamed_scopes(
    vs: Seq<Val>,
    ws: Seq<Val>,
    base: usize,
    free: Seq<usize>,
    n: nat,
)
    requires
        covers_all(free, base, vs),
        renamed_all(vs, ws, base, free),
    ensures
        vals_ok(ws, free.len() + n) == all_in_scope(vals_view(vs), base + n),
{
    let views = vals_view(vs);
    assert forall|i: int| 0 <= i < vs.len() implies val_ok(ws[i], free.len() + n) == in_scope(
        views[i],
        base + n,
    ) by {
        assert(covers(free, base, vs[i]@));
        assert(ws[i]@ == renamed(vs[i]@, base, free));
        lemma_renamed_scope(vs[i], ws[i], base, free, n);
    }
    if vals_ok(ws, free.len() + n) {
        assert forall|i: int| 0 <= i < views.len() implies in_scope(#[trigger] views[i], base + n) by {
            assert(val_ok(ws[i], free.len() + n));
        }
    }
    if all_in_scope(views, base + n) {
        assert forall|i: int| 0 <= i < ws.len() implies val_ok(#[trigger] ws[i], free.len() + n) by {
            assert(in_scope(views[i], base + n));
        }
    }
}

proof fn lemma_renamed_inst_scope(
    x: AxiomInst,
    y: AxiomInst,
    base: usize,
    free: Seq<usize>,
    n: nat,
)
    requires
        covers_all(free, base, operands(x)),
        inst_renamed(x, y, base, free),
    ensures
        inst_ok(y, free.len() + n) == all_in_scope(vals_view(operands(x)), base + n),
{
    let vs = operands(x);
    let ws = operands(y);
    assert(renamed_all(vs, ws, base, free));
    lemma_renamed_scopes(vs, ws, base, free, n);
    match y {
        AxiomInst::Val(AxiomPure::Binary(_, l, r)) => {
            assert(ws[0] == l && ws[1] == r);
        },
        AxiomInst::Val(AxiomPure::Ternary(c, t, e)) => {
            assert(ws[0] == c && ws[1] == t && ws[2] == e);
        },
        AxiomInst::Val(AxiomPure::RealCast(v)) => {
            assert(ws[0] == v);
        },
        AxiomInst::Assume(v) => {
            assert(ws[0] == v);
        },
        _ => {},
    }
}

/// Every captured slot that a trigger reads is in the list.
pub open spec fn covers_trig(free: Seq<usize>, base: usize, t: TrigTerm) -> bool
    decreases t,
{
    match t {
        TrigTerm::Val(v) => covers(free, base, v@),
        TrigTerm::App { function, types, args } => covers_trigs(free, base, args@),
    }
}

pub open spec fn covers_trigs(free: Seq<usize>, base: usize, ts: Seq<TrigTerm>) -> bool
    decreases ts,
{
    ts.len() == 0 || (covers_trigs(free, base, ts.drop_last()) && covers_trig(
        free,
        base,
        ts.last(),
    ))
}

/// `b` has the slots of `a`.
spec fn keeps(a: Seq<usize>, b: Seq<usize>) -> bool {
    forall|k: usize| a.contains(k) ==> #[trigger] b.contains(k)
}

proof fn lemma_covers_trig_more(a: Seq<usize>, b: Seq<usize>, base: usize, t: TrigTerm)
    requires
        keeps(a, b),
        covers_trig(a, base, t),
    ensures
        covers_trig(b, base, t),
    decreases t,
{
    if let TrigTerm::App { function, types, args } = t {
        lemma_covers_trigs_more(a, b, base, args@);
    }
}

proof fn lemma_covers_trigs_more(a: Seq<usize>, b: Seq<usize>, base: usize, ts: Seq<TrigTerm>)
    requires
        keeps(a, b),
        covers_trigs(a, base, ts),
    ensures
        covers_trigs(b, base, ts),
    decreases ts,
{
    if ts.len() > 0 {
        lemma_covers_trigs_more(a, b, base, ts.drop_last());
        lemma_covers_trig_more(a, b, base, ts.last());
    }
}

proof fn lemma_noted_trig(free: Seq<usize>, base: usize, t: TrigTerm)
    ensures
        covers_trig(noted_trig(free, base, t), base, t),
        keeps(free, noted_trig(free, base, t)),
    decreases t,
{
    match t {
        TrigTerm::Val(v) => {
            lemma_noted(free, base, v@);
        },
        TrigTerm::App { function, types, args } => {
            lemma_noted_trigs(free, base, args@);
        },
    }
}

proof fn lemma_noted_trigs(free: Seq<usize>, base: usize, ts: Seq<TrigTerm>)
    ensures
        covers_trigs(noted_trigs(free, base, ts), base, ts),
        keeps(free, noted_trigs(free, base, ts)),
    decreases ts,
{
    if ts.len() > 0 {
        let mid = noted_trigs(free, base, ts.drop_last());
        let now = noted_trigs(free, base, ts);
        lemma_noted_trigs(free, base, ts.drop_last());
        lemma_noted_trig(mid, base, ts.last());
        lemma_covers_trigs_more(mid, now, base, ts.drop_last());
        assert forall|k: usize| free.contains(k) implies #[trigger] now.contains(k) by {
            assert(mid.contains(k));
        }
    }
}

proof fn lemma_noted_groups(free: Seq<usize>, base: usize, gs: Seq<Trigger>)
    ensures
        forall|i: int|
            0 <= i < gs.len() ==> covers_trigs(
                noted_groups(free, base, gs),
                base,
                (#[trigger] gs[i]).terms@,
            ),
        keeps(free, noted_groups(free, base, gs)),
    decreases gs.len(),
{
    if gs.len() > 0 {
        let front = gs.drop_last();
        let mid = noted_groups(free, base, front);
        let now = noted_groups(free, base, gs);
        lemma_noted_groups(free, base, front);
        lemma_noted_trigs(mid, base, gs.last().terms@);
        assert forall|i: int| 0 <= i < gs.len() implies covers_trigs(
            now,
            base,
            (#[trigger] gs[i]).terms@,
        ) by {
            if i < front.len() {
                assert(covers_trigs(mid, base, front[i].terms@));
                lemma_covers_trigs_more(mid, now, base, gs[i].terms@);
            }
        }
        assert forall|k: usize| free.contains(k) implies #[trigger] now.contains(k) by {
            assert(mid.contains(k));
        }
    }
}

/// The captured slots of a quantifier are all that its triggers read from around it.
pub proof fn law_free_covers_triggers(q: Forall, raw: Seq<AxiomInst>)
    ensures
        forall|i: int|
            0 <= i < q.triggers@.len() ==> covers_trigs(
                free_of(q, raw),
                q.binder_base,
                (#[trigger] q.triggers@[i]).terms@,
            ),
{
    let base = q.binder_base;
    let a = noted_groups(Seq::empty(), base, q.triggers@);
    let b = noted_insts(a, base, raw);
    let free = free_of(q, raw);
    lemma_noted_groups(Seq::empty(), base, q.triggers@);
    lemma_noted_insts(a, base, raw);
    lemma_noted(b, base, q.body.res@);
    assert(keeps(a, free)) by {
        assert forall|k: usize| a.contains(k) implies #[trigger] free.contains(k) by {
            assert(b.contains(k));
        }
    }
    assert forall|i: int| 0 <= i < q.triggers@.len() implies covers_trigs(
        free,
        base,
        (#[trigger] q.triggers@[i]).terms@,
    ) by {
        lemma_covers_trigs_more(a, free, base, q.triggers@[i].terms@);
    }
}

/// A trigger whose captured slots are in the list reads what there is just where it
/// names slots that exist.
proof fn lemma_trig_scope(t: TrigTerm, base: usize, n: nat, free: Seq<usize>)
    requires
        covers_trig(free, base, t),
    ensures
        trig_reads(t, base, n, free) == trig_in_scope(t, base + n),
    decreases t,
{
    if let TrigTerm::App { function, types, args } = t {
        lemma_trigs_scope(args@, base, n, free);
    }
}

proof fn lemma_trigs_scope(ts: Seq<TrigTerm>, base: usize, n: nat, free: Seq<usize>)
    requires
        covers_trigs(free, base, ts),
    ensures
        trigs_read(ts, base, n, free) == trigs_in_scope(ts, base + n),
    decreases ts,
{
    if ts.len() > 0 {
        lemma_trigs_scope(ts.drop_last(), base, n, free);
        lemma_trig_scope(ts.last(), base, n, free);
    }
}

/// The first steps of a quantifier fill as many slots as the first instructions.
proof fn lemma_prepared_take(insts: Seq<Inst>, raw: Seq<AxiomInst>, es: Seq<Entry>, i: int, n: nat)
    requires
        all_prepared(insts, raw, es),
        0 <= i <= insts.len(),
    ensures
        slots(raw.take(i), n) == filled(insts.take(i), n),
{
    let a = insts.take(i);
    let b = raw.take(i);
    assert forall|j: int| 0 <= j < a.len() implies prepared(a[j], #[trigger] b[j], es) by {
        assert(prepared(insts[j], raw[j], es));
    }
    lemma_prepared_noted(Seq::empty(), 0, a, b, es, n);
}

proof fn lemma_renamed_take(
    a: Seq<AxiomInst>,
    b: Seq<AxiomInst>,
    base: usize,
    free: Seq<usize>,
    i: int,
    n: nat,
    m: nat,
)
    requires
        insts_renamed(a, b, base, free),
        0 <= i <= a.len(),
    ensures
        slots(b.take(i), m + n) == m + slots(a.take(i), n),
{
    let x = a.take(i);
    let y = b.take(i);
    assert forall|j: int| 0 <= j < x.len() implies inst_renamed(x[j], #[trigger] y[j], base, free) by {
        assert(inst_renamed(a[j], b[j], base, free));
    }
    lemma_renamed_slots(x, y, base, free, n, m);
}

/// The slots that a quantifier captures, by its instructions and by its steps.
proof fn lemma_captures(q: Forall, raw: Seq<AxiomInst>, es: Seq<Entry>)
    requires
        all_prepared(q.body.insts@, raw, es),
    ensures
        free_of(q, raw) == captures(q, entries_view(es)),
        slots(raw, q.bound@.len()) == filled(q.body.insts@, q.bound@.len()),
{
    lemma_prepared_noted(
        noted_groups(Seq::empty(), q.binder_base, q.triggers@),
        q.binder_base,
        q.body.insts@,
        raw,
        es,
        q.bound@.len(),
    );
}

/// Where a quantifier names slots that exist and their number fits, so do the slots
/// that its operands get.
proof fn lemma_scoped_fits(q: Forall, raw: Seq<AxiomInst>, es: Seq<Entry>)
    requires
        all_prepared(q.body.insts@, raw, es),
        scoped(q, entries_view(es)),
        free_of(q, raw).len() + filled(q.body.insts@, q.bound@.len()) <= usize::MAX,
    ensures
        insts_fit(raw, q.binder_base, free_of(q, raw)),
        val_fits(q.body.res@, q.binder_base, free_of(q, raw)),
        free_of(q, raw).len() + q.bound@.len() <= usize::MAX,
{
    let insts = q.body.insts@;
    let base = q.binder_base;
    let free = free_of(q, raw);
    let n = q.bound@.len();
    let ev = entries_view(es);
    lemma_captures(q, raw, es);
    lemma_slots_rise(raw, 0, n);
    assert(raw.take(0) =~= Seq::empty());
    assert forall|i: int| 0 <= i < raw.len() implies inst_fits(#[trigger] raw[i], base, free) by {
        assert(prepared(insts[i], raw[i], es));
        lemma_prepared_reads(insts[i], raw[i], es);
        lemma_prepared_take(insts, raw, es, i, n);
        lemma_slots_rise(raw, i, n);
        let vs = operands(raw[i]);
        assert(all_in_scope(reads(insts[i], ev), base + filled(insts.take(i), n)));
        assert forall|j: int| 0 <= j < vs.len() implies val_fits((#[trigger] vs[j])@, base, free) by {
            assert(vals_view(vs)[j] == vs[j]@);
            assert(in_scope(reads(insts[i], ev)[j], base + filled(insts.take(i), n)));
            if let Val::Temp(k) = vs[j] {
                lemma_place(free, k);
            }
        }
    }
    if let Val::Temp(k) = q.body.res {
        lemma_place(free, k);
    }
}

/// A recipe names slots that exist just where its quantifier does.
proof fn lemma_scoped_recipe(
    q: Forall,
    raw: Seq<AxiomInst>,
    insts: Seq<AxiomInst>,
    res: Val,
    es: Seq<Entry>,
)
    requires
        all_prepared(q.body.insts@, raw, es),
        insts_renamed(raw, insts, q.binder_base, free_of(q, raw)),
        res@ == renamed(q.body.res@, q.binder_base, free_of(q, raw)),
    ensures
        slots(insts, free_of(q, raw).len() + q.bound@.len()) == free_of(q, raw).len() + filled(
            q.body.insts@,
            q.bound@.len(),
        ),
        scoped(q, entries_view(es)) == (insts_ok(insts, free_of(q, raw).len() + q.bound@.len())
            && val_ok(res, slots(insts, free_of(q, raw).len() + q.bound@.len())) && forall|i: int|
            0 <= i < q.triggers@.len() ==> trigs_read(
                (#[trigger] q.triggers@[i]).terms@,
                q.binder_base,
                q.bound@.len(),
                free_of(q, raw),
            )),
{
    let from = q.body.insts@;
    let base = q.binder_base;
    let free = free_of(q, raw);
    let n = q.bound@.len();
    let m = free.len();
    let ev = entries_view(es);
    lemma_captures(q, raw, es);
    law_free_covers(q, raw);
    law_free_covers_triggers(q, raw);
    lemma_renamed_slots(raw, insts, base, free, n, m);
    assert forall|i: int| 0 <= i < from.len() implies inst_ok(
        insts[i],
        slots(insts.take(i), m + n),
    ) == all_in_scope(reads(from[i], ev), base + filled(from.take(i), n)) by {
        assert(prepared(from[i], raw[i], es));
        assert(inst_renamed(raw[i], insts[i], base, free));
        assert(covers_all(free, base, operands(raw[i])));
        lemma_prepared_reads(from[i], raw[i], es);
        lemma_prepared_take(from, raw, es, i, n);
        lemma_renamed_take(raw, insts, base, free, i, n, m);
        lemma_renamed_inst_scope(raw[i], insts[i], base, free, filled(from.take(i), n));
    }
    lemma_renamed_scope(q.body.res, res, base, free, filled(from, n));
    assert forall|i: int| 0 <= i < q.triggers@.len() implies trigs_read(
        q.triggers@[i].terms@,
        base,
        n,
        free,
    ) == trigs_in_scope(q.triggers@[i].terms@, base + n) by {
        lemma_trigs_scope(q.triggers@[i].terms@, base, n, free);
    }
    if scoped(q, ev) {
        assert forall|i: int| 0 <= i < insts.len() implies inst_ok(
            #[trigger] insts[i],
            slots(insts.take(i), m + n),
        ) by {
            assert(all_in_scope(reads(from[i], ev), base + filled(from.take(i), n)));
        }
        assert forall|i: int| 0 <= i < q.triggers@.len() implies trigs_read(
            (#[trigger] q.triggers@[i]).terms@,
            base,
            n,
            free,
        ) by {}
    }
    if insts_ok(insts, m + n) && val_ok(res, slots(insts, m + n)) && forall|i: int|
        0 <= i < q.triggers@.len() ==> trigs_read(
            (#[trigger] q.triggers@[i]).terms@,
            base,
            n,
            free,
        ) {
        assert forall|i: int| 0 <= i < from.len() implies all_in_scope(
            reads(#[trigger] from[i], ev),
            base + filled(from.take(i), n),
        ) by {
            assert(inst_ok(insts[i], slots(insts.take(i), m + n)));
        }
        assert forall|i: int| 0 <= i < q.triggers@.len() implies trigs_in_scope(
            (#[trigger] q.triggers@[i]).terms@,
            base + n,
        ) by {}
    }
}

/// Compiles a quantifier: its body in slots of its own. Fails where an instruction
/// has no place in a quantifier, or where a slot does not exist or does not fit its
/// width, and there alone.
pub fn compile(q: &Forall, table: &RecipeTable) -> (r: Result<
    (QuantRecipe, Vec<usize>),
    VerifyError,
>)
    ensures
        r matches Ok(p) ==> p.0.wf() && compiled(*q, table.entries@, p.0@, p.1@) && p.1@.len()
            == p.0.n_caps,
        match compiling(*q, entries_view(table.entries@)) {
            Ok(free) => r is Ok && r->Ok_0.1@ == free,
            Err(e) => r matches Err(x) && x == e,
        },
{
    let raw = match prepare_body(&q.body.insts, table) {
        Ok(raw) => raw,
        Err(e) => {
            return Err(e);
        },
    };
    let free = free_temps(q, &raw);
    let ghost ev = entries_view(table.entries@);
    proof {
        lemma_captures(*q, raw@, table.entries@);
        if scoped(*q, ev) && free@.len() + filled(q.body.insts@, q.bound@.len()) <= usize::MAX {
            lemma_scoped_fits(*q, raw@, table.entries@);
        }
    }
    let bad = VerifyError::Unimplemented("quantifier reads a slot that does not exist");
    let insts = match rename_insts(&raw, q.binder_base, &free) {
        Some(insts) => insts,
        None => {
            return Err(bad);
        },
    };
    let res = match rename(&q.body.res, q.binder_base, &free) {
        Some(v) => v,
        None => {
            return Err(bad);
        },
    };
    let n: usize = match free.len().checked_add(q.bound.len()) {
        Some(n) => n,
        None => {
            return Err(bad);
        },
    };
    proof {
        lemma_scoped_recipe(*q, raw@, insts@, res, table.entries@);
    }
    let ok = match check_insts(&insts, n) {
        Some(k) => check_val(&res, k),
        None => false,
    };
    if !ok {
        return Err(bad);
    }
    let groups = match prepare_groups(q, &free) {
        Some(gs) => gs,
        None => {
            return Err(bad);
        },
    };
    let recipe = QuantRecipe { n_caps: free.len(), n_bound: q.bound.len(), groups, insts, res };
    proof {
        assert(all_prepared(q.body.insts@, raw@, table.entries@));
        assert(insts_renamed(raw@, insts@, q.binder_base, free@));
        assert(compiled(*q, table.entries@, recipe@, free@));
    }
    Ok((recipe, free))
}

fn find_recipe(recipes: &Vec<QuantRecipe>, r: &QuantRecipe) -> (at: Option<usize>)
    ensures
        at matches Some(i) ==> i < recipes@.len() && recipes@[i as int]@ == r@,
        at is None ==> forall|i: int|
            0 <= i < recipes@.len() ==> (#[trigger] recipes@[i])@ != r@,
{
    let mut i: usize = 0;
    while i < recipes.len()
        invariant
            i <= recipes@.len(),
            forall|k: int| 0 <= k < i ==> (#[trigger] recipes@[k])@ != r@,
        decreases recipes.len() - i,
    {
        if same_recipe(&recipes[i], r) {
            return Some(i);
        }
        i += 1;
    }
    None
}

/// The quantifier has an entry; where it had none before, the entry names what it is
/// compiled into, given the entries of those inside it.
pub open spec fn interned(before: RecipeTable, after: RecipeTable, q: Forall, id: RecipeId) -> bool {
    &&& after.wf()
    &&& before.extends_to(after)
    &&& entry_at(after.entries@, q.label) matches Some(i)
    &&& after.entries@[i].recipe == id
    &&& entry_at(before.entries@, q.label) is Some ==> entry_at(before.entries@, q.label) == Some(
        i,
    )
}

proof fn lemma_extends_trans(a: RecipeTable, b: RecipeTable, c: RecipeTable)
    requires
        a.extends_to(b),
        b.extends_to(c),
    ensures
        a.extends_to(c),
{
    assert(a.recipes@ =~= c.recipes@.subrange(0, a.recipes@.len() as int)) by {
        assert forall|i: int| 0 <= i < a.recipes@.len() implies a.recipes@[i]
            == c.recipes@.subrange(0, a.recipes@.len() as int)[i] by {
            assert(a.recipes@[i] == b.recipes@.subrange(0, a.recipes@.len() as int)[i]);
            assert(b.recipes@[i] == c.recipes@.subrange(0, b.recipes@.len() as int)[i]);
        }
    }
    assert(a.entries@ =~= c.entries@.subrange(0, a.entries@.len() as int)) by {
        assert forall|i: int| 0 <= i < a.entries@.len() implies a.entries@[i]
            == c.entries@.subrange(0, a.entries@.len() as int)[i] by {
            assert(a.entries@[i] == b.entries@.subrange(0, a.entries@.len() as int)[i]);
            assert(b.entries@[i] == c.entries@.subrange(0, b.entries@.len() as int)[i]);
        }
    }
}

proof fn lemma_extends_entry(a: RecipeTable, b: RecipeTable, label: usize)
    requires
        a.extends_to(b),
        entry_at(a.entries@, label) is Some,
    ensures
        entry_at(b.entries@, label) == entry_at(a.entries@, label),
{
    assert(b.entries@.take(a.entries@.len() as int) =~= a.entries@);
    lemma_entry_prefix(b.entries@, a.entries@.len() as int, label);
}

/// Adds a compiled quantifier to the table: under the recipe that is the same, or
/// under a new one.
fn add_entry(table: &mut RecipeTable, label: usize, recipe: QuantRecipe, free: Vec<usize>) -> (id:
    RecipeId)
    requires
        old(table).wf(),
        recipe.wf(),
        free@.len() == recipe.n_caps,
        entry_at(old(table).entries@, label) is None,
    ensures
        final(table).wf(),
        old(table).extends_to(*final(table)),
        final(table).entries@.len() == old(table).entries@.len() + 1,
        final(table).entries@.last().label == label,
        final(table).entries@.last().recipe == id,
        final(table).entries@.last().free@ == free@,
        entry_at(final(table).entries@, label) == Some(old(table).entries@.len() as int),
        id.0 < final(table).recipes@.len(),
        final(table).recipes@[id.0 as int]@ == recipe@,
{
    let ghost before = *table;
    let at = find_recipe(&table.recipes, &recipe);
    let ghost shown = recipe@;
    let id = match at {
        Some(i) => RecipeId(i),
        None => {
            let i: usize = table.recipes.len();
            table.recipes.push(recipe);
            RecipeId(i)
        },
    };
    let ghost f = free@;
    table.entries.push(Entry { label, recipe: id, free });
    proof {
        assert(table.entries@.drop_last() =~= before.entries@);
        assert(before.recipes@ =~= table.recipes@.subrange(0, before.recipes@.len() as int));
        assert(before.entries@ =~= table.entries@.subrange(0, before.entries@.len() as int));
        assert(table.recipes@[id.0 as int]@ == shown);
        assert(table.recipes@[id.0 as int].n_caps == shown.n_caps);
        assert forall|i: int| 0 <= i < table.entries@.len() implies (
        #[trigger] table.entries@[i]).recipe.0 < table.recipes@.len()
            && table.entries@[i].free@.len()
            == table.recipes@[table.entries@[i].recipe.0 as int].n_caps by {
            if i < before.entries@.len() {
                assert(table.entries@[i] == before.entries@[i]);
                assert(table.recipes@[before.entries@[i].recipe.0 as int]
                    == before.recipes@[before.entries@[i].recipe.0 as int]);
            }
        }
        assert forall|i: int| 0 <= i < table.recipes@.len() implies (
        #[trigger] table.recipes@[i]).wf() by {
            if i < before.recipes@.len() {
                assert(table.recipes@[i] == before.recipes@[i]);
            }
        }
    }
    id
}

/// What giving an entry to a quantifier does to the entries, those inside it first:
/// the entries after it, and the error where it fails. A quantifier that had an entry
/// keeps it.
pub open spec fn interning(es: Seq<EntryV>, q: Forall) -> (Seq<EntryV>, Option<VerifyError>)
    decreases q,
{
    let (mid, failed) = interning_all(es, q.body.insts@);
    if failed is Some {
        (mid, failed)
    } else if label_at(mid, q.label) is Some {
        if label_at(es, q.label) is Some {
            (mid, None)
        } else {
            (mid, Some(VerifyError::Unimplemented("two quantifiers with one label")))
        }
    } else {
        match compiling(q, mid) {
            Ok(free) => (mid.push(EntryV { label: q.label, free }), None),
            Err(e) => (mid, Some(e)),
        }
    }
}

/// What giving entries to the quantifiers of instructions does, in order, up to the
/// first that fails.
pub open spec fn interning_all(es: Seq<EntryV>, insts: Seq<Inst>) -> (
    Seq<EntryV>,
    Option<VerifyError>,
)
    decreases insts,
{
    if insts.len() == 0 {
        (es, None)
    } else {
        let (mid, failed) = interning_all(es, insts.drop_last());
        if failed is Some {
            (mid, failed)
        } else {
            match insts.last().kind {
                InstKind::Pure(_, PureInst::Forall(q)) => interning(mid, *q),
                _ => (mid, None),
            }
        }
    }
}

proof fn lemma_interning_prefix(es: Seq<EntryV>, insts: Seq<Inst>, n: int)
    requires
        0 <= n <= insts.len(),
        interning_all(es, insts.take(n)).1 is Some,
    ensures
        interning_all(es, insts) == interning_all(es, insts.take(n)),
    decreases insts.len() - n,
{
    if n < insts.len() {
        assert(insts.take(n + 1).drop_last() =~= insts.take(n));
        lemma_interning_prefix(es, insts, n + 1);
    } else {
        assert(insts.take(n) =~= insts);
    }
}

/// The entries of a table and a result are what was to come.
pub open spec fn outcome<T>(
    t: RecipeTable,
    r: Result<T, VerifyError>,
    due: (Seq<EntryV>, Option<VerifyError>),
) -> bool {
    &&& entries_view(t.entries@) == due.0
    &&& match due.1 {
        Some(e) => r matches Err(x) && x == e,
        None => r is Ok,
    }
}

/// A quantifier that had no entry among `es` has one that it was compiled for.
pub open spec fn quant_compiled(t: RecipeTable, es: Seq<EntryV>, inst: Inst) -> bool {
    inst.kind matches InstKind::Pure(_, PureInst::Forall(q)) ==> label_at(es, q.label) is None
        ==> (entry_at(t.entries@, q.label) matches Some(i) && compiled_among(t, *q, i))
}

/// Every quantifier of a declaration is compiled, after those of `es`.
#[verifier::opaque]
pub open spec fn all_compiled(t: RecipeTable, es: Seq<EntryV>, insts: Seq<Inst>, n: int) -> bool {
    forall|i: int|
        0 <= i < n ==> quant_compiled(
            t,
            interning_all(es, insts.take(i)).0,
            #[trigger] insts[i],
        )
}

proof fn lemma_compiled_grows(
    a: RecipeTable,
    b: RecipeTable,
    es: Seq<EntryV>,
    insts: Seq<Inst>,
    n: int,
)
    requires
        a.extends_to(b),
        a.wf(),
        0 <= n <= insts.len(),
        all_compiled(a, es, insts, n),
    ensures
        all_compiled(b, es, insts, n),
{
    reveal(all_compiled);
    assert forall|i: int| 0 <= i < n implies quant_compiled(
        b,
        interning_all(es, insts.take(i)).0,
        #[trigger] insts[i],
    ) by {
        assert(quant_compiled(a, interning_all(es, insts.take(i)).0, insts[i]));
        if let InstKind::Pure(_, PureInst::Forall(q)) = insts[i].kind {
            if label_at(interning_all(es, insts.take(i)).0, q.label) is None {
                lemma_among_grows(a, b, *q);
            }
        }
    }
}

/// One more instruction, whose quantifier was interned.
proof fn lemma_compiled_next(
    a: RecipeTable,
    b: RecipeTable,
    es: Seq<EntryV>,
    insts: Seq<Inst>,
    i: int,
)
    requires
        a.extends_to(b),
        a.wf(),
        0 <= i < insts.len(),
        all_compiled(a, es, insts, i),
        interning_all(es, insts.take(i)).0 == entries_view(a.entries@),
        insts[i].kind matches InstKind::Pure(_, PureInst::Forall(q)) ==> (entry_at(
            a.entries@,
            q.label,
        ) is None ==> entry_at(b.entries@, q.label) is Some && compiled_among(
            b,
            *q,
            entry_at(b.entries@, q.label).unwrap(),
        )),
    ensures
        all_compiled(b, es, insts, i + 1),
{
    lemma_compiled_grows(a, b, es, insts, i);
    reveal(all_compiled);
    if let InstKind::Pure(_, PureInst::Forall(q)) = insts[i].kind {
        lemma_label_at(a.entries@, q.label);
    }
    assert(quant_compiled(b, interning_all(es, insts.take(i)).0, insts[i]));
}

proof fn lemma_compiled_none(t: RecipeTable, es: Seq<EntryV>, insts: Seq<Inst>)
    ensures
        all_compiled(t, es, insts, 0),
{
    reveal(all_compiled);
}

proof fn lemma_extends_refl(t: RecipeTable)
    ensures
        t.extends_to(t),
{
    assert(t.recipes@ =~= t.recipes@.subrange(0, t.recipes@.len() as int));
    assert(t.entries@ =~= t.entries@.subrange(0, t.entries@.len() as int));
}

proof fn lemma_among_grows(a: RecipeTable, b: RecipeTable, q: Forall)
    requires
        a.extends_to(b),
        a.wf(),
        entry_at(a.entries@, q.label) matches Some(i) && compiled_among(a, q, i),
    ensures
        entry_at(b.entries@, q.label) matches Some(i) && compiled_among(b, q, i),
{
    lemma_entry_at(a.entries@, q.label);
    lemma_extends_entry(a, b, q.label);
    let i = entry_at(a.entries@, q.label).unwrap();
    assert(b.entries@.take(a.entries@.len() as int) =~= a.entries@);
    assert(b.entries@.take(i) =~= a.entries@.take(i));
    assert(b.entries@[i] == a.entries@[i]);
    let k = a.entries@[i].recipe.0 as int;
    assert(b.recipes@[k] == b.recipes@.subrange(0, a.recipes@.len() as int)[k]);
}

/// Compiles a quantifier and gives it an entry, those inside it first.
pub fn intern(table: &mut RecipeTable, q: &Forall) -> (r: Result<RecipeId, VerifyError>)
    requires
        old(table).wf(),
    ensures
        final(table).wf(),
        old(table).extends_to(*final(table)),
        r matches Ok(id) ==> interned(*old(table), *final(table), *q, id),
        r is Ok && entry_at(old(table).entries@, q.label) is None ==> compiled_among(
            *final(table),
            *q,
            entry_at(final(table).entries@, q.label).unwrap(),
        ),
        outcome(*final(table), r, interning(entries_view(old(table).entries@), *q)),
    decreases q, 0int,
{
    let ghost t0 = *table;
    proof {
        lemma_label_at(t0.entries@, q.label);
    }
    let known = table.entry_of(q.label).is_ok();
    match intern_insts(table, &q.body.insts) {
        Ok(_) => {},
        Err(e) => {
            return Err(e);
        },
    }
    let ghost t1 = *table;
    proof {
        lemma_label_at(t1.entries@, q.label);
    }
    if let Ok(e) = table.entry_of(q.label) {
        proof {
            lemma_entry_at(table.entries@, q.label);
            if entry_at(t0.entries@, q.label) is Some {
                lemma_extends_entry(t0, t1, q.label);
            }
        }
        if !known {
            return Err(VerifyError::Unimplemented("two quantifiers with one label"));
        }
        return Ok(e.recipe);
    }
    match compile(q, table) {
        Ok((recipe, free)) => {
            let ghost shown = recipe@;
            let ghost slots = free@;
            let id = add_entry(table, q.label, recipe, free);
            proof {
                lemma_extends_trans(t0, t1, *table);
                if entry_at(t0.entries@, q.label) is Some {
                    lemma_extends_entry(t0, t1, q.label);
                }
                assert(table.entries@.drop_last() =~= t1.entries@);
                assert(entries_view(table.entries@) =~= entries_view(t1.entries@).push(
                    EntryV { label: q.label, free: slots },
                ));
                assert(compiled_among(*table, *q, t1.entries@.len() as int));
            }
            Ok(id)
        },
        Err(e) => Err(e),
    }
}

/// The entry of a quantifier names what it is compiled into, given the entries
/// before it.
pub open spec fn compiled_among(t: RecipeTable, q: Forall, i: int) -> bool {
    compiled(q, t.entries@.take(i), t.recipes@[t.entries@[i].recipe.0 as int]@, t.entries@[i].free@)
}

/// Gives entries to the quantifiers of instructions.
#[verifier::rlimit(30)]
pub fn intern_insts(table: &mut RecipeTable, insts: &Vec<Inst>) -> (r: Result<(), VerifyError>)
    requires
        old(table).wf(),
    ensures
        final(table).wf(),
        old(table).extends_to(*final(table)),
        r is Ok ==> forall|i: int|
            0 <= i < insts@.len() ==> quant_entered(*final(table), #[trigger] insts@[i]),
        r is Ok ==> all_compiled(
            *final(table),
            entries_view(old(table).entries@),
            insts@,
            insts@.len() as int,
        ),
        outcome(*final(table), r, interning_all(entries_view(old(table).entries@), insts@)),
    decreases insts, 1int,
{
    let ghost t0 = *table;
    let ghost es = entries_view(t0.entries@);
    let mut i: usize = 0;
    proof {
        assert(insts@.take(0) =~= Seq::empty());
        lemma_compiled_none(t0, es, insts@);
        assert(t0.recipes@ =~= t0.recipes@.subrange(0, t0.recipes@.len() as int));
        assert(t0.entries@ =~= t0.entries@.subrange(0, t0.entries@.len() as int));
    }
    while i < insts.len()
        invariant
            i <= insts@.len(),
            table.wf(),
            t0.extends_to(*table),
            t0 == *old(table),
            forall|k: int| 0 <= k < i ==> quant_entered(*table, #[trigger] insts@[k]),
            all_compiled(*table, es, insts@, i as int),
            es == entries_view(t0.entries@),
            interning_all(es, insts@.take(i as int)) == (
                entries_view(table.entries@),
                None::<VerifyError>,
            ),
        decreases insts.len() - i,
    {
        let ghost t1 = *table;
        proof {
            assert(insts@.take(i + 1).drop_last() =~= insts@.take(i as int));
            assert(insts@.take(i + 1).last() == insts@[i as int]);
        }
        if let InstKind::Pure(_, PureInst::Forall(q)) = &insts[i].kind {
            proof {
                assert(decreases_to!(insts => insts@[i as int]));
            }
            match intern(table, q) {
                Ok(_) => {},
                Err(e) => {
                    proof {
                        lemma_extends_trans(t0, t1, *table);
                        lemma_interning_prefix(es, insts@, i + 1);
                    }
                    return Err(e);
                },
            }
            proof {
                lemma_extends_trans(t0, t1, *table);
                lemma_compiled_next(t1, *table, es, insts@, i as int);
                assert forall|k: int| 0 <= k < i implies quant_entered(
                    *table,
                    #[trigger] insts@[k],
                ) by {
                    assert(quant_entered(t1, insts@[k]));
                    if let InstKind::Pure(_, PureInst::Forall(p)) = insts@[k].kind {
                        lemma_extends_entry(t1, *table, p.label);
                    }
                }
            }
        }
        proof {
            if !(insts@[i as int].kind matches InstKind::Pure(_, PureInst::Forall(_))) {
                lemma_extends_refl(t1);
                lemma_compiled_next(t1, t1, es, insts@, i as int);
            }
        }
        i += 1;
    }
    proof {
        assert(insts@.take(insts@.len() as int) =~= insts@);
    }
    Ok(())
}

/// A quantifier instruction has an entry.
pub open spec fn quant_entered(t: RecipeTable, inst: Inst) -> bool {
    inst.kind matches InstKind::Pure(_, PureInst::Forall(q)) ==> entry_at(
        t.entries@,
        q.label,
    ) is Some
}

/// What giving entries to the quantifiers of declarations does, in order, up to the
/// first that fails.
pub open spec fn building(decls: Seq<Declaration>) -> (Seq<EntryV>, Option<VerifyError>)
    decreases decls.len(),
{
    if decls.len() == 0 {
        (Seq::empty(), None)
    } else {
        let (mid, failed) = building(decls.drop_last());
        if failed is Some {
            (mid, failed)
        } else {
            interning_all(mid, decl_insts(decls.last()))
        }
    }
}

proof fn lemma_building_prefix(decls: Seq<Declaration>, n: int)
    requires
        0 <= n <= decls.len(),
        building(decls.take(n)).1 is Some,
    ensures
        building(decls) == building(decls.take(n)),
    decreases decls.len() - n,
{
    if n < decls.len() {
        assert(decls.take(n + 1).drop_last() =~= decls.take(n));
        lemma_building_prefix(decls, n + 1);
    } else {
        assert(decls.take(n) =~= decls);
    }
}

/// Every quantifier of the first `n` declarations that none of an earlier place has the
/// label of is compiled.
#[verifier::opaque]
pub open spec fn decls_compiled(t: RecipeTable, decls: Seq<Declaration>, n: int) -> bool {
    forall|d: int|
        0 <= d < n ==> all_compiled(
            t,
            building(decls.take(d)).0,
            decl_insts(#[trigger] decls[d]),
            decl_insts(decls[d]).len() as int,
        )
}

proof fn lemma_decls_compiled(a: RecipeTable, b: RecipeTable, decls: Seq<Declaration>, n: int)
    requires
        a.extends_to(b),
        a.wf(),
        0 <= n < decls.len(),
        decls_compiled(a, decls, n),
        all_compiled(
            b,
            building(decls.take(n)).0,
            decl_insts(decls[n]),
            decl_insts(decls[n]).len() as int,
        ),
    ensures
        decls_compiled(b, decls, n + 1),
{
    reveal(decls_compiled);
    assert forall|d: int| 0 <= d < n + 1 implies all_compiled(
        b,
        building(decls.take(d)).0,
        decl_insts(#[trigger] decls[d]),
        decl_insts(decls[d]).len() as int,
    ) by {
        if d < n {
            lemma_compiled_grows(
                a,
                b,
                building(decls.take(d)).0,
                decl_insts(decls[d]),
                decl_insts(decls[d]).len() as int,
            );
        }
    }
}


/// Compiles every quantifier of a program.
#[verifier::rlimit(30)]
pub fn build_recipe_table(program: &Program) -> (r: Result<RecipeTable, VerifyError>)
    ensures
        r matches Ok(t) ==> t.wf() && forall|d: int|
            0 <= d < program.decls@.len() ==> decl_entered(t, #[trigger] program.decls@[d]),
        r matches Ok(t) ==> decls_compiled(t, program.decls@, program.decls@.len() as int),
        match building(program.decls@).1 {
            Some(e) => r matches Err(x) && x == e,
            None => r is Ok && entries_view(r->Ok_0.entries@) == building(program.decls@).0,
        },
{
    let mut table = RecipeTable::new();
    let mut d: usize = 0;
    proof {
        assert(program.decls@.take(0) =~= Seq::empty());
        assert(entries_view(table.entries@) =~= Seq::empty());
        reveal(decls_compiled);
    }
    while d < program.decls.len()
        invariant
            d <= program.decls@.len(),
            table.wf(),
            forall|k: int| 0 <= k < d ==> decl_entered(table, #[trigger] program.decls@[k]),
            decls_compiled(table, program.decls@, d as int),
            building(program.decls@.take(d as int)) == (
                entries_view(table.entries@),
                None::<VerifyError>,
            ),
        decreases program.decls.len() - d,
    {
        let ghost t0 = table;
        proof {
            let upto = program.decls@.take(d + 1);
            assert(upto.drop_last() =~= program.decls@.take(d as int));
            assert(upto.last() == program.decls@[d as int]);
        }
        let done = match &program.decls[d] {
            Declaration::Axiom(body) => intern_insts(&mut table, &body.insts),
            Declaration::Function(f) => match &f.body {
                Some(body) => intern_insts(&mut table, &body.insts),
                None => Ok(()),
            },
            Declaration::Resource(r) => match &r.body {
                Some(body) => intern_insts(&mut table, &body.insts),
                None => Ok(()),
            },
            Declaration::Method(m) => intern_insts(&mut table, &m.insts),
            Declaration::Domain | Declaration::Adt(_) => Ok(()),
        };
        match done {
            Ok(_) => {},
            Err(e) => {
                proof {
                    lemma_building_prefix(program.decls@, d + 1);
                }
                return Err(e);
            },
        }
        proof {
            if table == t0 {
                assert(t0.recipes@ =~= t0.recipes@.subrange(0, t0.recipes@.len() as int));
                assert(t0.entries@ =~= t0.entries@.subrange(0, t0.entries@.len() as int));
            }
            if decl_insts(program.decls@[d as int]).len() == 0 {
                lemma_compiled_none(
                    table,
                    building(program.decls@.take(d as int)).0,
                    decl_insts(program.decls@[d as int]),
                );
            }
            lemma_decls_compiled(t0, table, program.decls@, d as int);
            assert forall|k: int| 0 <= k < d + 1 implies decl_entered(
                table,
                #[trigger] program.decls@[k],
            ) by {
                if k < d {
                    lemma_decl_grows(t0, table, program.decls@[k]);
                }
            }
        }
        d += 1;
    }
    proof {
        assert(program.decls@.take(program.decls@.len() as int) =~= program.decls@);
    }
    Ok(table)
}

/// The instructions of a declaration.
pub open spec fn decl_insts(d: Declaration) -> Seq<Inst> {
    match d {
        Declaration::Axiom(body) => body.insts@,
        Declaration::Function(f) => match f.body {
            Some(body) => body.insts@,
            None => Seq::empty(),
        },
        Declaration::Resource(r) => match r.body {
            Some(body) => body.insts@,
            None => Seq::empty(),
        },
        Declaration::Method(m) => m.insts@,
        _ => Seq::empty(),
    }
}

/// Every quantifier of a declaration has an entry.
pub open spec fn decl_entered(t: RecipeTable, d: Declaration) -> bool {
    forall|i: int| 0 <= i < decl_insts(d).len() ==> quant_entered(t, #[trigger] decl_insts(d)[i])
}

proof fn lemma_decl_grows(a: RecipeTable, b: RecipeTable, d: Declaration)
    requires
        a.extends_to(b),
        decl_entered(a, d),
    ensures
        decl_entered(b, d),
{
    let insts = decl_insts(d);
    assert forall|i: int| 0 <= i < insts.len() implies quant_entered(b, #[trigger] insts[i]) by {
        assert(quant_entered(a, insts[i]));
        if let InstKind::Pure(_, PureInst::Forall(q)) = insts[i].kind {
            lemma_extends_entry(a, b, q.label);
        }
    }
}

/// Every captured slot that an operand reads is in the list.
pub open spec fn covers(free: Seq<usize>, base: usize, v: ValV) -> bool {
    v matches ValV::Temp(k) ==> k < base ==> free.contains(k as usize)
}

pub open spec fn covers_all(free: Seq<usize>, base: usize, vs: Seq<Val>) -> bool {
    forall|i: int| 0 <= i < vs.len() ==> covers(free, base, (#[trigger] vs[i])@)
}

pub open spec fn covers_insts(free: Seq<usize>, base: usize, insts: Seq<AxiomInst>) -> bool {
    forall|i: int| 0 <= i < insts.len() ==> covers_all(free, base, operands(#[trigger] insts[i]))
}

proof fn lemma_noted(free: Seq<usize>, base: usize, v: ValV)
    ensures
        covers(noted(free, base, v), base, v),
        forall|k: usize| free.contains(k) ==> #[trigger] noted(free, base, v).contains(k),
{
    let now = noted(free, base, v);
    assert forall|k: usize| free.contains(k) implies #[trigger] now.contains(k) by {
        let i = choose|i: int| 0 <= i < free.len() && free[i] == k;
        assert(now[i] == k);
    }
    if let ValV::Temp(k) = v {
        if k < base && !free.contains(k as usize) {
            assert(now[free.len() as int] == k as usize);
        }
    }
}

proof fn lemma_noted_all(free: Seq<usize>, base: usize, vs: Seq<Val>)
    ensures
        covers_all(noted_all(free, base, vs), base, vs),
        forall|k: usize| free.contains(k) ==> #[trigger] noted_all(free, base, vs).contains(k),
    decreases vs.len(),
{
    if vs.len() > 0 {
        let front = vs.drop_last();
        let mid = noted_all(free, base, front);
        lemma_noted_all(free, base, front);
        lemma_noted(mid, base, vs.last()@);
        let now = noted_all(free, base, vs);
        assert forall|i: int| 0 <= i < vs.len() implies covers(now, base, (#[trigger] vs[i])@) by {
            if i < vs.len() - 1 {
                assert(covers(mid, base, front[i]@));
            }
        }
        assert forall|k: usize| free.contains(k) implies #[trigger] now.contains(k) by {
            assert(mid.contains(k));
        }
    }
}

proof fn lemma_noted_insts(free: Seq<usize>, base: usize, insts: Seq<AxiomInst>)
    ensures
        covers_insts(noted_insts(free, base, insts), base, insts),
        forall|k: usize| free.contains(k) ==> #[trigger] noted_insts(free, base, insts).contains(k),
    decreases insts.len(),
{
    if insts.len() > 0 {
        let front = insts.drop_last();
        let mid = noted_insts(free, base, front);
        lemma_noted_insts(free, base, front);
        lemma_noted_all(mid, base, operands(insts.last()));
        let now = noted_insts(free, base, insts);
        assert forall|i: int| 0 <= i < insts.len() implies covers_all(
            now,
            base,
            operands(#[trigger] insts[i]),
        ) by {
            if i < insts.len() - 1 {
                assert(covers_all(mid, base, operands(front[i])));
                let vs = operands(insts[i]);
                assert forall|j: int| 0 <= j < vs.len() implies covers(
                    now,
                    base,
                    (#[trigger] vs[j])@,
                ) by {
                    assert(covers(mid, base, vs[j]@));
                }
            }
        }
        assert forall|k: usize| free.contains(k) implies #[trigger] now.contains(k) by {
            assert(mid.contains(k));
        }
    }
}

/// The captured slots of a quantifier are all that its body and its result read from
/// around it.
pub proof fn law_free_covers(q: Forall, raw: Seq<AxiomInst>)
    ensures
        covers_insts(free_of(q, raw), q.binder_base, raw),
        covers(free_of(q, raw), q.binder_base, q.body.res@),
{
    let base = q.binder_base;
    let a = noted_groups(Seq::empty(), base, q.triggers@);
    let b = noted_insts(a, base, raw);
    lemma_noted_insts(a, base, raw);
    lemma_noted(b, base, q.body.res@);
    let free = free_of(q, raw);
    assert forall|i: int| 0 <= i < raw.len() implies covers_all(
        free,
        base,
        operands(#[trigger] raw[i]),
    ) by {
        assert(covers_all(b, base, operands(raw[i])));
        let vs = operands(raw[i]);
        assert forall|j: int| 0 <= j < vs.len() implies covers(free, base, (#[trigger] vs[j])@) by {
            assert(covers(b, base, vs[j]@));
        }
    }
}

/// What the captured slots hold.
pub open spec fn captured(outer: Seq<Tm>, free: Seq<usize>) -> Seq<Tm> {
    Seq::new(free.len(), |i: int| outer[free[i] as int])
}

/// Slots of the quantifier and of its recipe that hold the same.
spec fn aligned(a: Seq<Tm>, b: Seq<Tm>, outer: Seq<Tm>, free: Seq<usize>) -> bool {
    &&& outer.len() <= a.len()
    &&& b.len() - free.len() == a.len() - outer.len()
    &&& forall|i: int| 0 <= i < outer.len() ==> #[trigger] a[i] == outer[i]
    &&& forall|i: int| 0 <= i < free.len() ==> #[trigger] b[i] == outer[free[i] as int]
    &&& forall|j: int|
        #![trigger a[outer.len() + j]]
        #![trigger b[free.len() + j]]
        0 <= j < a.len() - outer.len() ==> b[free.len() + j] == a[outer.len() + j]
}

proof fn lemma_val_aligned(
    a: Seq<Tm>,
    b: Seq<Tm>,
    outer: Seq<Tm>,
    free: Seq<usize>,
    base: usize,
    v: Val,
    w: Val,
)
    requires
        outer.len() == base,
        aligned(a, b, outer, free),
        val_ok(v, a.len()),
        covers(free, base, v@),
        w@ == renamed(v@, base, free),
    ensures
        val_tm(a, v) == val_tm(b, w),
{
    if let Val::Temp(k) = v {
        if k < base {
            lemma_place(free, k);
            assert(b[place(free, k) as int] == outer[free[place(free, k) as int] as int]);
        } else {
            assert(b[free.len() + (k - base)] == a[outer.len() + (k - base)]);
        }
    }
}

proof fn lemma_vals_aligned(
    a: Seq<Tm>,
    b: Seq<Tm>,
    outer: Seq<Tm>,
    free: Seq<usize>,
    base: usize,
    vs: Seq<Val>,
    ws: Seq<Val>,
)
    requires
        outer.len() == base,
        aligned(a, b, outer, free),
        vals_ok(vs, a.len()),
        covers_all(free, base, vs),
        renamed_all(vs, ws, base, free),
    ensures
        val_tms(a, vs) == val_tms(b, ws),
{
    assert forall|i: int| 0 <= i < vs.len() implies val_tm(a, vs[i]) == val_tm(b, ws[i]) by {
        assert(val_ok(vs[i], a.len()));
        assert(covers(free, base, vs[i]@));
        assert(ws[i]@ == renamed(vs[i]@, base, free));
        lemma_val_aligned(a, b, outer, free, base, vs[i], ws[i]);
    }
    assert(val_tms(a, vs) =~= val_tms(b, ws));
}

proof fn lemma_inst_aligned(
    a: Seq<Tm>,
    b: Seq<Tm>,
    outer: Seq<Tm>,
    free: Seq<usize>,
    base: usize,
    x: AxiomInst,
    y: AxiomInst,
    gate: Option<Tm>,
)
    requires
        outer.len() == base,
        aligned(a, b, outer, free),
        inst_ok(x, a.len()),
        covers_all(free, base, operands(x)),
        inst_renamed(x, y, base, free),
    ensures
        inst_fact(x, a, gate) == inst_fact(y, b, gate),
        match (x, y) {
            (AxiomInst::Val(p), AxiomInst::Val(q)) => pure_tm(a, p) == pure_tm(b, q),
            (
                AxiomInst::Forall { recipe: r, caps: vs },
                AxiomInst::Forall { recipe: s, caps: ws },
            ) => r == s && val_tms(a, vs@) == val_tms(b, ws@),
            (AxiomInst::Assume(_), AxiomInst::Assume(_)) => true,
            _ => false,
        },
{
    let ops = operands(x);
    match (x, y) {
        (AxiomInst::Val(p), AxiomInst::Val(q)) => match (p, q) {
            (AxiomPure::Binary(_, l, r), AxiomPure::Binary(_, u, v)) => {
                assert(ops[0] == l && ops[1] == r);
                lemma_val_aligned(a, b, outer, free, base, l, u);
                lemma_val_aligned(a, b, outer, free, base, r, v);
            },
            (AxiomPure::Ternary(c, t, e), AxiomPure::Ternary(u, v, w)) => {
                assert(ops[0] == c && ops[1] == t && ops[2] == e);
                lemma_val_aligned(a, b, outer, free, base, c, u);
                lemma_val_aligned(a, b, outer, free, base, t, v);
                lemma_val_aligned(a, b, outer, free, base, e, w);
            },
            (AxiomPure::RealCast(v), AxiomPure::RealCast(w)) => {
                assert(ops[0] == v);
                lemma_val_aligned(a, b, outer, free, base, v, w);
            },
            (
                AxiomPure::App { func: _, type_args: _, args: vs },
                AxiomPure::App { func: _, type_args: _, args: ws },
            ) => {
                lemma_vals_aligned(a, b, outer, free, base, vs@, ws@);
            },
            _ => {},
        },
        (AxiomInst::Assume(v), AxiomInst::Assume(w)) => {
            assert(ops[0] == v);
            lemma_val_aligned(a, b, outer, free, base, v, w);
        },
        (
            AxiomInst::Forall { recipe: _, caps: vs },
            AxiomInst::Forall { recipe: _, caps: ws },
        ) => {
            lemma_vals_aligned(a, b, outer, free, base, vs@, ws@);
        },
        _ => {},
    }
}

proof fn lemma_steps_aligned(
    x: Seq<AxiomInst>,
    y: Seq<AxiomInst>,
    outer: Seq<Tm>,
    bound: Seq<Tm>,
    free: Seq<usize>,
    base: usize,
    gate: Option<Tm>,
)
    requires
        outer.len() == base,
        insts_renamed(x, y, base, free),
        covers_insts(free, base, x),
        insts_ok(x, outer.len() + bound.len()),
    ensures
        aligned(
            inst_vals(x, outer + bound),
            inst_vals(y, captured(outer, free) + bound),
            outer,
            free,
        ),
        inst_facts(x, outer + bound, gate) == inst_facts(
            y,
            captured(outer, free) + bound,
            gate,
        ),
    decreases x.len(),
{
    let seed = outer + bound;
    let own = captured(outer, free) + bound;
    if x.len() > 0 {
        let xf = x.drop_last();
        let yf = y.drop_last();
        assert forall|i: int| 0 <= i < xf.len() implies inst_renamed(
            xf[i],
            #[trigger] yf[i],
            base,
            free,
        ) by {
            assert(yf[i] == y[i]);
        }
        assert forall|i: int| 0 <= i < xf.len() implies covers_all(
            free,
            base,
            operands(#[trigger] xf[i]),
        ) by {
            assert(xf[i] == x[i]);
        }
        assert forall|i: int| 0 <= i < xf.len() implies inst_ok(
            #[trigger] xf[i],
            slots(xf.take(i), seed.len()),
        ) by {
            assert(xf[i] == x[i]);
            assert(xf.take(i) =~= x.take(i));
        }
        lemma_steps_aligned(xf, yf, outer, bound, free, base, gate);
        let a = inst_vals(xf, seed);
        let b = inst_vals(yf, own);
        crate::rewrite::recipe::lemma_slots(xf, seed);
        assert(x.take(x.len() - 1) =~= xf);
        let n = x.len() - 1;
        assert(inst_renamed(x[n], y[n], base, free));
        assert(covers_all(free, base, operands(x[n])));
        assert(inst_ok(x[n], slots(x.take(n), seed.len())));
        lemma_inst_aligned(a, b, outer, free, base, x.last(), y.last(), gate);
    } else {
        let a = seed;
        let b = own;
        assert forall|j: int|
            #![trigger a[outer.len() + j]]
            #![trigger b[free.len() + j]]
            0 <= j < a.len() - outer.len() implies b[free.len() + j] == a[outer.len() + j] by {}
    }
}

/// A recipe means what its quantifier means where it stands: over the captured values
/// and any values of the binders, its steps assert the same and its result is the
/// same.
pub proof fn law_recipe_means(
    q: Forall,
    raw: Seq<AxiomInst>,
    insts: Seq<AxiomInst>,
    res: Val,
    outer: Seq<Tm>,
    bound: Seq<Tm>,
    gate: Option<Tm>,
)
    requires
        outer.len() == q.binder_base,
        insts_renamed(raw, insts, q.binder_base, free_of(q, raw)),
        res@ == renamed(q.body.res@, q.binder_base, free_of(q, raw)),
        insts_ok(raw, outer.len() + bound.len()),
        val_ok(q.body.res, slots(raw, outer.len() + bound.len())),
    ensures
        val_tm(inst_vals(raw, outer + bound), q.body.res) == val_tm(
            inst_vals(insts, captured(outer, free_of(q, raw)) + bound),
            res,
        ),
        inst_facts(raw, outer + bound, gate) == inst_facts(
            insts,
            captured(outer, free_of(q, raw)) + bound,
            gate,
        ),
{
    let free = free_of(q, raw);
    law_free_covers(q, raw);
    lemma_steps_aligned(raw, insts, outer, bound, free, q.binder_base, gate);
    crate::rewrite::recipe::lemma_slots(raw, outer + bound);
    lemma_val_aligned(
        inst_vals(raw, outer + bound),
        inst_vals(insts, captured(outer, free) + bound),
        outer,
        free,
        q.binder_base,
        q.body.res,
        res,
    );
}

} // verus!
