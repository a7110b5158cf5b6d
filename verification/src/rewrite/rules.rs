//! The rules, under one name each, and what they rest on.

use crate::graph::{coarser, keeps_classes, lemma_terms_in, lemma_term_value, Graph};
use crate::lang::{FuncId, Id, Node, OpV, Symbolic};
use crate::model::{equation_holds, lemma_tm_lit, t_bool, Model, Tm};
use crate::rewrite::adt::{
    inj_facts, injective, law_inj_sound, law_tag_sound, tag_facts, tags_hold, InjApplier, TagApplier,
};
use crate::rewrite::arith::{identity_facts, law_identity_sound, lawful, Identity};
use crate::rewrite::contra::{contra_class, law_contra_sound, ContraCongruenceApplier};
use crate::rewrite::diseq::{
    law_merge_sound, law_mirror_sound, merge_facts, mirror_facts, EqFalseMirrorApplier, UnionEqArgs,
};
use crate::rewrite::fold::{asymmetry_facts, law_asymmetry_sound, LtAsymmetryApplier};
use crate::rewrite::function::{
    call_chain, called, calls_of, canon_all, defines, law_call_sound, unfolds, FunctionUnfoldApplier,
    Unfolded,
};
use crate::rewrite::gather::{all_hold, picks};
use crate::rewrite::instantiate::{
    class_insts, inst_cands, law_instances_sound, quantifies, quants_known, table_wf, ForallApplier,
    InstV, QuantRecipe,
};
use crate::rewrite::ite::{ite_facts, law_ite_sound, IteReduceApplier};
use crate::rewrite::memo::Scopes;
use crate::rewrite::observe::{law_observe_sound, refutable, DistinguishingObsApplier, StampIdent};
use crate::rewrite::pins::{asserted, fact_if, lemma_coarser_trans};
use crate::rewrite::prints::{distinct_variants, Ctor};
use crate::rewrite::proj::{law_proj_sound, projected, reads_field, ProjApplier};
use crate::rewrite::sound::{
    follows, lemma_follows_asserted, lemma_follows_same, lemma_follows_trans, lemma_sorted_class,
    well_sorted,
};
use crate::rewrite::unit::{law_unit_sound, unit_class, EqFalseUnitApplier, UnitIdent};
use crate::terms::{group_grows, lemma_grows_refl, lemma_grows_trans, lemma_keeps_trans};
use crate::vmir::BinOp;
use vstd::prelude::*;

verus! {

/// The calls of a function among terms have `n` arguments.
pub open spec fn calls_fit(func: FuncId, n: nat, ts: Seq<Node>) -> bool {
    forall|k: int|
        0 <= k < ts.len() && (#[trigger] ts[k]).op is FuncApp && ts[k].op->FuncApp_0 == func
            ==> ts[k].args.len() == n
}

/// A key is a call that some term spells.
proof fn lemma_call_term(g: Graph, func: FuncId, ts: Seq<Node>, i: int) -> (k: int)
    requires
        0 <= i < calls_of(g, func, ts).len(),
    ensures
        0 <= k < ts.len(),
        ts[k].op == OpV::FuncApp(func, calls_of(g, func, ts)[i].0),
        canon_all(g, ts[k].args) == calls_of(g, func, ts)[i].1,
    decreases ts.len(),
{
    let before = calls_of(g, func, ts.drop_last());
    if i < before.len() {
        let k = lemma_call_term(g, func, ts.drop_last(), i);
        assert(calls_of(g, func, ts)[i] == before[i]);
        k
    } else {
        ts.len() - 1
    }
}

/// Unfolding the calls of a class is sound where the interpretation satisfies the
/// definition.
pub proof fn law_unfold_sound(p: FunctionUnfoldApplier, s: Scopes, g: Graph, h: Graph, class: Id)
    requires
        g.wf(),
        g.has(class),
        unfolds(p, s, g, h, class),
    ensures
        follows(g, h, |m: Model| defines(p, m)),
{
    let keys = calls_of(g, p.func, g.terms(class));
    let (gs, us) = choose|gs: Seq<Graph>, us: Seq<Unfolded>| #[trigger]
        call_chain(p, s, class, keys, gs, us) && gs[0] == g && gs.last() == h;
    lemma_unfold_prefix(p, s, g, class, gs, us, keys.len());
}

proof fn lemma_unfold_prefix(
    p: FunctionUnfoldApplier,
    s: Scopes,
    g: Graph,
    class: Id,
    gs: Seq<Graph>,
    us: Seq<Unfolded>,
    n: nat,
)
    requires
        g.wf(),
        g.has(class),
        call_chain(p, s, class, calls_of(g, p.func, g.terms(class)), gs, us),
        gs[0] == g,
        n <= calls_of(g, p.func, g.terms(class)).len(),
    ensures
        gs[n as int].wf(),
        g.grows_to(gs[n as int]),
        follows(g, gs[n as int], |m: Model| defines(p, m)),
    decreases n,
{
    broadcast use group_grows;

    let b = |m: Model| defines(p, m);
    let keys = calls_of(g, p.func, g.terms(class));
    if n == 0 {
        lemma_grows_refl(g);
        lemma_follows_same(g, g, b);
    } else {
        let i = n - 1;
        lemma_unfold_prefix(p, s, g, class, gs, us, (n - 1) as nat);
        assert(called(p, gs[i], gs[i + 1], class, keys[i], us[i]));
        let k = lemma_call_term(g, p.func, g.terms(class), i);
        let term = g.terms(class)[k];
        lemma_terms_in(g, class, k);
        assert forall|j: int| 0 <= j < keys[i].1.len() implies gs[i].has(#[trigger] keys[i].1[j]) by {
            assert(g.has(term.args[j]));
            crate::graph::lemma_canon_in(g, term.args[j]);
        }
        assert forall|m: Model| #[trigger] gs[i].models(m) implies m.at(class) == (m.func)(
            p.func,
            keys[i].0,
            m.all(keys[i].1),
        ) by {
            assert(g.models(m));
            lemma_term_value(g, m, class, k);
            crate::graph::lemma_canon_term(g, m, term);
            assert(g.canon_term(term).args == keys[i].1);
        }
        law_call_sound(p, s, gs[i], gs[i + 1], class, keys[i], us[i]);
        lemma_follows_trans(g, gs[i], gs[i + 1], b);
        lemma_grows_trans(g, gs[i], gs[i + 1]);
    }
}

/// A rewrite rule.
pub enum Rule {
    IteReduce,
    Identity(Identity),
    EqTrueUnion,
    EqFalseMirror,
    ContraCongruence(ContraCongruenceApplier),
    DistinguishingObservation(DistinguishingObsApplier),
    EqFalseUnit(EqFalseUnitApplier),
    LtAsymmetry(BinOp),
    Tag(TagApplier),
    Inj(InjApplier),
    Proj(ProjApplier),
    Instantiate(ForallApplier),
    Unfold(String, FunctionUnfoldApplier),
}

impl Rule {
    /// What a rule rests on, beyond the theory of the graph.
    pub open spec fn holds(self, cs: Seq<Ctor>, table: Seq<QuantRecipe>, m: Model) -> bool {
        match self {
            Rule::IteReduce => distinct_variants(cs, m),
            Rule::Identity(i) => lawful(i.op, i.shape),
            Rule::EqTrueUnion => true,
            Rule::EqFalseMirror => true,
            Rule::ContraCongruence(_) => true,
            Rule::DistinguishingObservation(_) => distinct_variants(cs, m),
            Rule::EqFalseUnit(_) => true,
            Rule::LtAsymmetry(op) => op == BinOp::LtI || op == BinOp::LtR,
            Rule::Tag(t) => tags_hold(m, t.tag_fn, t.ctor_tags@),
            Rule::Inj(i) => injective(m, i.ctor),
            Rule::Proj(p) => reads_field(m, p.accessor, p.ctor, p.index),
            Rule::Instantiate(_) => quantifies(table, m),
            Rule::Unfold(_, p) => defines(p, m),
        }
    }

    /// What a rule holds is well formed.
    pub open spec fn wf(self) -> bool {
        self matches Rule::Unfold(_, p) ==> p.def.wf()
    }

    /// Two rules that differ in what they remember alone.
    pub open spec fn same_rule(self, other: Rule) -> bool {
        match (self, other) {
            (Rule::ContraCongruence(_), Rule::ContraCongruence(_)) => true,
            (Rule::DistinguishingObservation(_), Rule::DistinguishingObservation(_)) => true,
            (Rule::EqFalseUnit(a), Rule::EqFalseUnit(b)) => a.then_side == b.then_side,
            (Rule::Instantiate(_), Rule::Instantiate(_)) => true,
            (Rule::Unfold(x, a), Rule::Unfold(y, b)) => x == y && a.func == b.func && a.def == b.def
                && a.limited_post == b.limited_post && a.pre_token == b.pre_token,
            _ => self == other,
        }
    }
}

pub proof fn lemma_same_rule(a: Rule, b: Rule, cs: Seq<Ctor>, table: Seq<QuantRecipe>, m: Model)
    requires
        a.same_rule(b),
        a.holds(cs, table, m),
    ensures
        b.holds(cs, table, m),
{
    if let (Rule::Unfold(_, p), Rule::Unfold(_, q)) = (a, b) {
        assert(defines(q, m));
    }
}

fn fits(g: &Graph, func: FuncId, n: usize, class: Id) -> (r: bool)
    requires
        g.wf(),
        g.has(class),
    ensures
        r == calls_fit(func, n as nat, g.terms(class)),
{
    let ts = g.terms_of(class);
    let mut i: usize = 0;
    while i < ts.len()
        invariant
            i <= ts@.len(),
            ts@.len() == g.terms(class).len(),
            forall|k: int| 0 <= k < ts@.len() ==> (#[trigger] ts@[k])@ == g.terms(class)[k],
            forall|k: int|
                0 <= k < i && (#[trigger] g.terms(class)[k]).op is FuncApp && g.terms(
                    class,
                )[k].op->FuncApp_0 == func ==> g.terms(class)[k].args.len() == n,
        decreases ts.len() - i,
    {
        proof {
            assert(ts@[i as int]@ == g.terms(class)[i as int]);
        }
        if let Symbolic::FuncApp(f, _, args) = &ts[i] {
            if *f == func && args.len() != n {
                return false;
            }
        }
        i += 1;
    }
    true
}

fn known_quants(g: &Graph, table: &Vec<QuantRecipe>, class: Id) -> (r: bool)
    requires
        g.wf(),
        g.has(class),
    ensures
        r == quants_known(table@, g.terms(class)),
{
    let ts = g.terms_of(class);
    let mut i: usize = 0;
    while i < ts.len()
        invariant
            i <= ts@.len(),
            ts@.len() == g.terms(class).len(),
            forall|k: int| 0 <= k < ts@.len() ==> (#[trigger] ts@[k])@ == g.terms(class)[k],
            forall|k: int|
                0 <= k < i && (#[trigger] g.terms(class)[k]).op is Forall ==> g.terms(
                    class,
                )[k].op->Forall_0.0 < table@.len() && g.terms(class)[k].args.len() == table@[g.terms(
                    class,
                )[k].op->Forall_0.0 as int].n_caps,
        decreases ts.len() - i,
    {
        proof {
            assert(ts@[i as int]@ == g.terms(class)[i as int]);
        }
        if let Symbolic::Forall(r, caps) = &ts[i] {
            if r.0 >= table.len() || caps.len() != table[r.0].n_caps {
                return false;
            }
        }
        i += 1;
    }
    true
}

/// The arguments that a unary function is applied to among terms.
pub open spec fn unary_args(func: FuncId, ts: Seq<Node>) -> Seq<Id>
    decreases ts.len(),
{
    if ts.len() == 0 {
        Seq::empty()
    } else {
        let front = unary_args(func, ts.drop_last());
        match ts.last().op {
            OpV::FuncApp(f, _) if f == func && ts.last().args.len() == 1 => front.push(
                ts.last().args[0],
            ),
            _ => front,
        }
    }
}

/// Some term is the function on `x`.
pub open spec fn applied_to(ts: Seq<Node>, func: FuncId, x: Id) -> bool {
    exists|k: int|
        0 <= k < ts.len() && (#[trigger] ts[k]).op is FuncApp && ts[k].op->FuncApp_0 == func
            && ts[k].args == seq![x]
}

/// The arguments that a unary function is applied to in a class.
pub fn unary_matches(g: &Graph, func: FuncId, class: Id) -> (out: Vec<Id>)
    requires
        g.wf(),
        g.has(class),
    ensures
        out@ == unary_args(func, g.terms(class)),
        g.has_all(out@),
        forall|i: int| 0 <= i < out@.len() ==> applied_to(g.terms(class), func, #[trigger] out@[i]),
{
    let ghost all = g.terms(class);
    let ts = g.terms_of(class);
    let mut out: Vec<Id> = Vec::new();
    let mut i: usize = 0;
    proof {
        assert(all.take(0) =~= Seq::<Node>::empty());
    }
    while i < ts.len()
        invariant
            i <= ts@.len(),
            ts@.len() == all.len(),
            all == g.terms(class),
            forall|k: int| 0 <= k < ts@.len() ==> (#[trigger] ts@[k])@ == all[k],
            forall|k: int| 0 <= k < ts@.len() ==> g.has_all((#[trigger] ts@[k])@.args),
            out@ == unary_args(func, all.take(i as int)),
            g.has_all(out@),
            forall|j: int| 0 <= j < out@.len() ==> applied_to(all, func, #[trigger] out@[j]),
        decreases ts.len() - i,
    {
        let ghost before = out@;
        proof {
            assert(all.take(i + 1).drop_last() =~= all.take(i as int));
            assert(all.take(i + 1).last() == all[i as int]);
            assert(g.has_all(ts@[i as int]@.args));
        }
        if let Symbolic::FuncApp(f, _, args) = &ts[i] {
            if *f == func && args.len() == 1 {
                let x: Id = args[0];
                out.push(x);
                proof {
                    assert(g.has(all[i as int].args[0]));
                    assert(all[i as int].args =~= seq![x]);
                    assert(applied_to(all, func, x));
                    assert forall|j: int| 0 <= j < out@.len() implies applied_to(
                        all,
                        func,
                        #[trigger] out@[j],
                    ) by {
                        if j < before.len() {
                            assert(out@[j] == before[j]);
                        }
                    }
                }
            }
        }
        i += 1;
    }
    proof {
        assert(all.take(all.len() as int) =~= all);
    }
    out
}

/// What every application of a rule keeps.
pub open spec fn stepped(g: Graph, h: Graph) -> bool {
    &&& h.wf()
    &&& g.grows_to(h)
    &&& coarser(g, h)
}

pub proof fn lemma_stepped_trans(g: Graph, h: Graph, k: Graph)
    requires
        stepped(g, h),
        stepped(h, k),
    ensures
        stepped(g, k),
{
    lemma_grows_trans(g, h, k);
    lemma_coarser_trans(g, h, k);
}

/// The projection rule applied to arguments in turn.
pub open spec fn proj_chain(p: ProjApplier, class: Id, xs: Seq<Id>, gs: Seq<Graph>) -> bool {
    &&& gs.len() == xs.len() + 1
    &&& forall|i: int| 0 <= i < xs.len() ==> #[trigger] proj_step(p, class, xs, gs, i)
}

pub open spec fn proj_step(p: ProjApplier, class: Id, xs: Seq<Id>, gs: Seq<Graph>, i: int) -> bool {
    stepped(gs[i], gs[i + 1]) && projected(p, gs[i], gs[i + 1], class, xs[i])
}

proof fn lemma_proj_chain_push(
    p: ProjApplier,
    class: Id,
    xs: Seq<Id>,
    gs: Seq<Graph>,
    x: Id,
    h: Graph,
)
    requires
        proj_chain(p, class, xs, gs),
        stepped(gs.last(), h),
        projected(p, gs.last(), h, class, x),
    ensures
        proj_chain(p, class, xs.push(x), gs.push(h)),
{
    let ys = xs.push(x);
    let hs = gs.push(h);
    assert forall|i: int| 0 <= i < ys.len() implies #[trigger] proj_step(p, class, ys, hs, i) by {
        if i < xs.len() {
            assert(proj_step(p, class, xs, gs, i));
        }
    }
}

/// What applying a rule to a class does, exactly.
pub open spec fn applied(
    r: Rule,
    s: Scopes,
    cs: Seq<Ctor>,
    table: Seq<QuantRecipe>,
    g: Graph,
    h: Graph,
    class: Id,
) -> bool {
    match r {
        Rule::IteReduce => asserted(g, h, ite_facts(g, cs, class, g.terms(class))),
        Rule::Identity(i) => asserted(g, h, identity_facts(g, i.op, i.shape, class)),
        Rule::EqTrueUnion => asserted(g, h, merge_facts(g, class)),
        Rule::EqFalseMirror => asserted(g, h, mirror_facts(g, class)),
        Rule::ContraCongruence(a) => asserted(
            g,
            h,
            picks(contra_class(g, class), |v: (FuncId, Id, Id)| a.memo.seen(s, v)),
        ),
        Rule::DistinguishingObservation(a) => asserted(
            g,
            h,
            fact_if(
                refutable(g, cs, class, |v: StampIdent| a.memo.seen(s, v)),
                (Tm::Class(class), t_bool(false)),
            ),
        ),
        Rule::EqFalseUnit(a) => asserted(
            g,
            h,
            picks(unit_class(g, a.then_side, class), |v: UnitIdent| a.memo.seen(s, v)),
        ),
        Rule::LtAsymmetry(op) => asserted(g, h, asymmetry_facts(g, op, class)),
        Rule::Tag(t) => asserted(g, h, tag_facts(g, t.tag_fn, t.ctor_tags@, class)),
        Rule::Inj(i) => asserted(g, h, inj_facts(i.ctor, g.terms(class))),
        Rule::Proj(p) => exists|gs: Seq<Graph>| #[trigger]
            proj_chain(p, class, unary_args(p.accessor, g.terms(class)), gs) && gs[0] == g
                && gs.last() == h,
        Rule::Instantiate(a) => if quants_known(table, g.terms(class)) {
            asserted(
                g,
                h,
                picks(
                    inst_cands(table, class, class_insts(g, table, g.terms(class))),
                    |v: InstV| a.memo.seen(s, v),
                ),
            )
        } else {
            h == g
        },
        Rule::Unfold(_, p) => if calls_fit(p.func, p.def.n_params as nat, g.terms(class)) {
            unfolds(p, s, g, h, class)
        } else {
            h == g
        },
    }
}

fn apply_proj(p: &ProjApplier, g: &mut Graph, class: Id) -> (changed: Vec<Id>)
    requires
        old(g).wf(),
        old(g).has(class),
    ensures
        exists|gs: Seq<Graph>| #[trigger]
            proj_chain(*p, class, unary_args(p.accessor, old(g).terms(class)), gs) && gs[0] == *old(
                g,
            ) && gs.last() == *final(g),
        stepped(*old(g), *final(g)),
        follows(*old(g), *final(g), |m: Model| reads_field(m, p.accessor, p.ctor, p.index)),
        changed@.len() == 0 ==> keeps_classes(*old(g), *final(g)),
{
    broadcast use group_grows;

    let ghost g0 = *g;
    let ghost b = |m: Model| reads_field(m, p.accessor, p.ctor, p.index);
    let xs = unary_matches(g, p.accessor, class);
    let mut changed: Vec<Id> = Vec::new();
    let ghost mut gs: Seq<Graph> = seq![g0];
    let mut i: usize = 0;
    proof {
        lemma_grows_refl(g0);
        lemma_follows_same(g0, g0, b);
    }
    while i < xs.len()
        invariant
            g0.wf(),
            g0.has(class),
            stepped(g0, *g),
            follows(g0, *g, b),
            b == (|m: Model| reads_field(m, p.accessor, p.ctor, p.index)),
            i <= xs@.len(),
            g0.has_all(xs@),
            forall|j: int|
                0 <= j < xs@.len() ==> applied_to(
                    g0.terms(class),
                    p.accessor,
                    #[trigger] xs@[j],
                ),
            changed@.len() == 0 ==> keeps_classes(g0, *g),
            gs[0] == g0,
            gs.last() == *g,
            proj_chain(*p, class, xs@.take(i as int), gs),
        decreases xs.len() - i,
    {
        let ghost before = *g;
        let x: Id = xs[i];
        proof {
            assert(g0.has(xs@[i as int]));
        }
        let mut more = p.apply_one(g, class, x);
        proof {
            assert(applied_to(g0.terms(class), p.accessor, xs@[i as int]));
            let ts = g0.terms(class);
            let k = choose|k: int|
                0 <= k < ts.len() && (#[trigger] ts[k]).op is FuncApp && ts[k].op->FuncApp_0
                    == p.accessor && ts[k].args == seq![x];
            lemma_proj_later(*p, g0, before, *g, class, x, k);
            lemma_follows_trans(g0, before, *g, b);
            lemma_stepped_trans(g0, before, *g);
            if changed@.len() == 0 && more@.len() == 0 {
                lemma_keeps_trans(g0, before, *g);
            }
            lemma_proj_chain_push(*p, class, xs@.take(i as int), gs, x, *g);
            gs = gs.push(*g);
            assert(xs@.take(i + 1) =~= xs@.take(i as int).push(x));
        }
        changed.append(&mut more);
        i += 1;
    }
    proof {
        assert(xs@.take(xs@.len() as int) =~= xs@);
    }
    changed
}

/// A projection step is sound where an earlier graph listed the application.
proof fn lemma_proj_later(
    p: ProjApplier,
    g0: Graph,
    g: Graph,
    h: Graph,
    class: Id,
    x: Id,
    k: int,
)
    requires
        g0.wf(),
        g.wf(),
        g0.grows_to(g),
        g.grows_to(h),
        g0.has(class),
        0 <= k < g0.terms(class).len(),
        g0.terms(class)[k].op is FuncApp,
        g0.terms(class)[k].op->FuncApp_0 == p.accessor,
        g0.terms(class)[k].args == seq![x],
        projected(p, g, h, class, x),
    ensures
        follows(g, h, |m: Model| reads_field(m, p.accessor, p.ctor, p.index)),
{
    broadcast use group_grows;

    let n = g0.terms(class)[k];
    assert forall|m: Model| #[trigger] g.models(m) implies m.at(class) == (m.func)(
        p.accessor,
        n.op->FuncApp_1,
        seq![m.at(x)],
    ) by {
        assert(g0.models(m));
        lemma_term_value(g0, m, class, k);
        assert(m.all(n.args) =~= seq![m.at(x)]);
    }
    law_proj_sound(p, g, h, class, x, n.op->FuncApp_1);
}

impl Rule {
    /// Applies the rule to a class, and gives the classes that changed.
    pub fn apply(
        &mut self,
        s: &Scopes,
        g: &mut Graph,
        cs: &Vec<Ctor>,
        table: &Vec<QuantRecipe>,
        class: Id,
    ) -> (changed: Vec<Id>)
        requires
            old(self).wf(),
            old(g).wf(),
            old(g).has(class),
            table_wf(table@),
        ensures
            old(self).same_rule(*final(self)),
            final(self).wf(),
            applied(*old(self), *s, cs@, table@, *old(g), *final(g), class),
            stepped(*old(g), *final(g)),
            follows(*old(g), *final(g), |m: Model| old(self).holds(cs@, table@, m)),
            changed@.len() == 0 ==> keeps_classes(*old(g), *final(g)),
    {
        let ghost g0 = *g;
        let ghost r0 = *self;
        let ghost b = |m: Model| r0.holds(cs@, table@, m);
        proof {
            lemma_grows_refl(g0);
            lemma_follows_same(g0, g0, b);
        }
        match self {
            Rule::IteReduce => {
                let changed = IteReduceApplier.apply_one(g, cs, class);
                proof {
                    let facts = ite_facts(g0, cs@, class, g0.terms(class));
                    assert forall|m: Model| #[trigger]
                        g0.models(m) && well_sorted(g0.defs(), m) && b(m) implies all_hold(
                        m,
                        facts,
                    ) by {
                        law_ite_sound(g0, cs@, m, class);
                    }
                    lemma_follows_asserted(g0, *g, facts, b);
                }
                changed
            },
            Rule::Identity(i) => {
                let changed = i.apply_one(g, class);
                proof {
                    let facts = identity_facts(g0, i.op, i.shape, class);
                    assert forall|m: Model| #[trigger]
                        g0.models(m) && well_sorted(g0.defs(), m) && b(m) implies all_hold(
                        m,
                        facts,
                    ) by {
                        lemma_sorted_class(g0, m, class);
                        law_identity_sound(g0, m, i.op, i.shape, class);
                    }
                    lemma_follows_asserted(g0, *g, facts, b);
                }
                changed
            },
            Rule::EqTrueUnion => {
                let changed = UnionEqArgs.apply_one(g, class);
                proof {
                    let facts = merge_facts(g0, class);
                    assert forall|m: Model| #[trigger]
                        g0.models(m) && well_sorted(g0.defs(), m) && b(m) implies all_hold(
                        m,
                        facts,
                    ) by {
                        law_merge_sound(g0, m, class);
                    }
                    lemma_follows_asserted(g0, *g, facts, b);
                }
                changed
            },
            Rule::EqFalseMirror => {
                let changed = EqFalseMirrorApplier.apply_one(g, class);
                proof {
                    let facts = mirror_facts(g0, class);
                    assert forall|m: Model| #[trigger]
                        g0.models(m) && well_sorted(g0.defs(), m) && b(m) implies all_hold(
                        m,
                        facts,
                    ) by {
                        law_mirror_sound(g0, m, class);
                    }
                    lemma_follows_asserted(g0, *g, facts, b);
                }
                changed
            },
            Rule::ContraCongruence(a) => {
                let ghost seen = |v: (FuncId, Id, Id)| a.memo.seen(*s, v);
                let changed = a.apply_one(s, g, class);
                proof {
                    let facts = picks(contra_class(g0, class), seen);
                    assert forall|m: Model| #[trigger]
                        g0.models(m) && well_sorted(g0.defs(), m) && b(m) implies all_hold(
                        m,
                        facts,
                    ) by {
                        law_contra_sound(g0, m, class, seen);
                    }
                    lemma_follows_asserted(g0, *g, facts, b);
                }
                changed
            },
            Rule::DistinguishingObservation(a) => {
                let ghost seen = |v: StampIdent| a.memo.seen(*s, v);
                let changed = a.apply_one(s, g, cs, class);
                proof {
                    let fact = (Tm::Class(class), t_bool(false));
                    let facts = fact_if(refutable(g0, cs@, class, seen), fact);
                    assert forall|m: Model| #[trigger]
                        g0.models(m) && well_sorted(g0.defs(), m) && b(m) implies all_hold(
                        m,
                        facts,
                    ) by {
                        if refutable(g0, cs@, class, seen) {
                            law_observe_sound(g0, cs@, m, class, seen);
                            lemma_tm_lit(m, crate::vmir::Value::Bool(false));
                            assert(equation_holds(m, fact));
                        }
                    }
                    lemma_follows_asserted(g0, *g, facts, b);
                }
                changed
            },
            Rule::EqFalseUnit(a) => {
                let ghost side = a.then_side;
                let ghost seen = |v: UnitIdent| a.memo.seen(*s, v);
                let changed = a.apply_one(s, g, class);
                proof {
                    let facts = picks(unit_class(g0, side, class), seen);
                    assert forall|m: Model| #[trigger]
                        g0.models(m) && well_sorted(g0.defs(), m) && b(m) implies all_hold(
                        m,
                        facts,
                    ) by {
                        law_unit_sound(g0, m, side, class, seen);
                    }
                    lemma_follows_asserted(g0, *g, facts, b);
                }
                changed
            },
            Rule::LtAsymmetry(op) => {
                let changed = LtAsymmetryApplier(*op).apply_one(g, class);
                proof {
                    let facts = asymmetry_facts(g0, *op, class);
                    assert forall|m: Model| #[trigger]
                        g0.models(m) && well_sorted(g0.defs(), m) && b(m) implies all_hold(
                        m,
                        facts,
                    ) by {
                        law_asymmetry_sound(g0, m, *op, class);
                    }
                    lemma_follows_asserted(g0, *g, facts, b);
                }
                changed
            },
            Rule::Tag(t) => {
                let changed = t.apply_one(g, class);
                proof {
                    let facts = tag_facts(g0, t.tag_fn, t.ctor_tags@, class);
                    assert forall|m: Model| #[trigger]
                        g0.models(m) && well_sorted(g0.defs(), m) && b(m) implies all_hold(
                        m,
                        facts,
                    ) by {
                        law_tag_sound(g0, m, t.tag_fn, t.ctor_tags@, class);
                    }
                    lemma_follows_asserted(g0, *g, facts, b);
                }
                changed
            },
            Rule::Inj(i) => {
                let changed = i.apply_one(g, class);
                proof {
                    let facts = inj_facts(i.ctor, g0.terms(class));
                    assert forall|m: Model| #[trigger]
                        g0.models(m) && well_sorted(g0.defs(), m) && b(m) implies all_hold(
                        m,
                        facts,
                    ) by {
                        law_inj_sound(g0, m, i.ctor, class);
                    }
                    lemma_follows_asserted(g0, *g, facts, b);
                }
                changed
            },
            Rule::Proj(p) => {
                let changed = apply_proj(p, g, class);
                proof {
                    let c = |m: Model| reads_field(m, p.accessor, p.ctor, p.index);
                    lemma_follows_weaken(g0, *g, c, b);
                }
                changed
            },
            Rule::Instantiate(a) => {
                let mut changed: Vec<Id> = Vec::new();
                if known_quants(g, table, class) {
                    let ghost seen = |v: InstV| a.memo.seen(*s, v);
                    changed = a.apply_one(s, g, table, class);
                    proof {
                        let vs = class_insts(g0, table@, g0.terms(class));
                        let facts = picks(inst_cands(table@, class, vs), seen);
                        assert forall|m: Model| #[trigger]
                            g0.models(m) && well_sorted(g0.defs(), m) && b(m) implies all_hold(
                            m,
                            facts,
                        ) by {
                            law_instances_sound(g0, table@, m, class, seen);
                        }
                        lemma_follows_asserted(g0, *g, facts, b);
                    }
                }
                changed
            },
            Rule::Unfold(_, p) => {
                let mut changed: Vec<Id> = Vec::new();
                if fits(g, p.func, p.def.n_params, class) {
                    let ghost p0 = *p;
                    changed = p.apply_one(s, g, class);
                    proof {
                        law_unfold_sound(p0, *s, g0, *g, class);
                        lemma_follows_weaken(g0, *g, |m: Model| defines(p0, m), b);
                    }
                }
                changed
            },
        }
    }
}

/// What follows from less follows from more.
pub proof fn lemma_follows_weaken(
    g: Graph,
    h: Graph,
    b: spec_fn(Model) -> bool,
    c: spec_fn(Model) -> bool,
)
    requires
        follows(g, h, b),
        forall|m: Model| #[trigger] c(m) ==> b(m),
    ensures
        follows(g, h, c),
{
}

} // verus!
