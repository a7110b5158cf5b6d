//! The rule that instantiates every quantifier in the graph.

use crate::graph::{keeps_classes, lemma_term_value, Graph};
use crate::lang::{Id, Node, OpV, RecipeId, Symbolic};
use crate::model::{t_bool, t_classes, t_ite, Model, Tm};
use crate::rewrite::function::{canon_all, canon_ids, copy_ids, same_ids};
use crate::rewrite::gather::{all_hold, lemma_picks_hold, picks};
use crate::rewrite::memo::{Memo, MemoKey, Scopes};
use crate::rewrite::pins::{
    asserted, lemma_asserted_trans, lemma_extended_asserted, lemma_merges_before,
    lemma_merges_later, merges,
};
use crate::rewrite::quantified::{
    all_len, append_sigmas, lemma_all_len_concat, lemma_match_len, lemma_pattern_at, match_term,
    match_tm, no_match, pattern_ok, patterns_ok, sigma_in, sigmas_in, sigmas_view, PreparedTerm, Sigma,
};
use crate::rewrite::recipe::{
    build_instance_vals_guarded, gate_of, gated, inst_facts, inst_vals, insts_ok, lemma_slots,
    release, resolve_val, slots, val_ok, val_tm, AxiomInst,
};
use crate::terms::{group_grows, lemma_denotes_self, lemma_grows_refl, lemma_keeps_trans};
use crate::vmir::{Val, Value};
use vstd::prelude::*;

verus! {

broadcast use {lemma_merges_before, lemma_merges_later};

/// A compiled quantifier: how many values it captures, how many it binds, its
/// trigger groups, its steps and its result. Its slots are the captures, the
/// binders, and one for each step.
pub struct QuantRecipe {
    pub n_caps: usize,
    pub n_bound: usize,
    pub groups: Vec<Vec<PreparedTerm>>,
    pub insts: Vec<AxiomInst>,
    pub res: Val,
}

impl QuantRecipe {
    /// Patterns, steps and result name only what exists.
    pub open spec fn wf(self) -> bool {
        &&& self.n_caps + self.n_bound <= usize::MAX
        &&& insts_ok(self.insts@, (self.n_caps + self.n_bound) as nat)
        &&& val_ok(self.res, slots(self.insts@, (self.n_caps + self.n_bound) as nat))
        &&& forall|i: int|
            0 <= i < self.groups@.len() ==> patterns_ok(
                (#[trigger] self.groups@[i])@,
                self.n_bound as nat,
                self.n_caps as nat,
            )
    }
}

/// The matches of a pattern in the first `n` ids, each class taken once.
pub open spec fn anywhere_below(
    g: Graph,
    t: PreparedTerm,
    caps: Seq<Id>,
    sigma: Seq<Option<Id>>,
    n: nat,
) -> Seq<Seq<Option<Id>>>
    decreases n,
{
    if n == 0 || !(t is App) {
        Seq::empty()
    } else {
        let id = (n - 1) as Id;
        anywhere_below(g, t, caps, sigma, (n - 1) as nat) + if g.canon(id) == id {
            match_tm(g, t, id, caps, sigma)
        } else {
            Seq::empty()
        }
    }
}

/// The extensions of a substitution under which a pattern matches some class. Only
/// an application can be looked for.
pub open spec fn anywhere(
    g: Graph,
    t: PreparedTerm,
    caps: Seq<Id>,
    sigma: Seq<Option<Id>>,
) -> Seq<Seq<Option<Id>>> {
    anywhere_below(g, t, caps, sigma, g.len())
}

pub open spec fn anywhere_each(
    g: Graph,
    t: PreparedTerm,
    caps: Seq<Id>,
    sigmas: Seq<Seq<Option<Id>>>,
) -> Seq<Seq<Option<Id>>>
    decreases sigmas.len(),
{
    if sigmas.len() == 0 {
        Seq::empty()
    } else {
        anywhere_each(g, t, caps, sigmas.drop_last()) + anywhere(g, t, caps, sigmas.last())
    }
}

/// The substitution that binds nothing.
pub open spec fn no_binding(n: nat) -> Seq<Option<Id>> {
    Seq::new(n, |i: int| None)
}

/// The substitutions under which all patterns of a group match somewhere.
pub open spec fn group_matches(g: Graph, ts: Seq<PreparedTerm>, caps: Seq<Id>, n: nat) -> Seq<
    Seq<Option<Id>>,
>
    decreases ts.len(),
{
    if ts.len() == 0 {
        seq![no_binding(n)]
    } else {
        anywhere_each(g, ts.last(), caps, group_matches(g, ts.drop_last(), caps, n))
    }
}

/// Whether a substitution binds every binder.
pub open spec fn complete(s: Seq<Option<Id>>) -> bool {
    forall|i: int| 0 <= i < s.len() ==> (#[trigger] s[i]) is Some
}

pub open spec fn bound_ids(s: Seq<Option<Id>>) -> Seq<Id> {
    Seq::new(s.len(), |i: int| s[i].unwrap())
}

/// An instance: a recipe, and what its captures and binders stand for.
pub ghost struct InstV {
    pub recipe: RecipeId,
    pub vals: Seq<Id>,
}

/// The instances that substitutions give: those that bind every binder.
pub open spec fn sigma_insts(r: RecipeId, caps: Seq<Id>, ss: Seq<Seq<Option<Id>>>) -> Seq<InstV>
    decreases ss.len(),
{
    if ss.len() == 0 {
        Seq::empty()
    } else {
        let front = sigma_insts(r, caps, ss.drop_last());
        if complete(ss.last()) {
            front.push(InstV { recipe: r, vals: caps + bound_ids(ss.last()) })
        } else {
            front
        }
    }
}

/// The instances that trigger groups give. A group without patterns gives none.
pub open spec fn group_insts(
    g: Graph,
    r: RecipeId,
    groups: Seq<Vec<PreparedTerm>>,
    caps: Seq<Id>,
    n: nat,
) -> Seq<InstV>
    decreases groups.len(),
{
    if groups.len() == 0 {
        Seq::empty()
    } else {
        group_insts(g, r, groups.drop_last(), caps, n) + if groups.last()@.len() == 0 {
            Seq::empty()
        } else {
            sigma_insts(r, caps, group_matches(g, groups.last()@, caps, n))
        }
    }
}

/// The instances of the quantifiers among terms.
pub open spec fn class_insts(g: Graph, table: Seq<QuantRecipe>, ts: Seq<Node>) -> Seq<InstV>
    decreases ts.len(),
{
    if ts.len() == 0 {
        Seq::empty()
    } else {
        class_insts(g, table, ts.drop_last()) + match ts.last().op {
            OpV::Forall(r) => group_insts(
                g,
                r,
                table[r.0 as int].groups@,
                canon_all(g, ts.last().args),
                table[r.0 as int].n_bound as nat,
            ),
            _ => Seq::empty(),
        }
    }
}

/// What an instance asserts: what its body assumes, and its result, behind the
/// quantifier itself.
pub open spec fn instance_facts(table: Seq<QuantRecipe>, class: Id, v: InstV) -> Seq<(Tm, Tm)> {
    let q = table[v.recipe.0 as int];
    let seed = t_classes(v.vals);
    inst_facts(q.insts@, seed, Some(Tm::Class(class))) + seq![
        (
            t_ite(Tm::Class(class), val_tm(inst_vals(q.insts@, seed), q.res), t_bool(true)),
            t_bool(true),
        ),
    ]
}

/// The instances with what each asserts.
pub open spec fn inst_cands(table: Seq<QuantRecipe>, class: Id, vs: Seq<InstV>) -> Seq<
    (InstV, Seq<(Tm, Tm)>),
> {
    Seq::new(vs.len(), |i: int| (vs[i], instance_facts(table, class, vs[i])))
}

pub struct InstKey {
    pub recipe: RecipeId,
    pub vals: Vec<Id>,
}

impl MemoKey for InstKey {
    type Ident = InstV;

    open spec fn ident(&self) -> InstV {
        InstV { recipe: self.recipe, vals: self.vals@ }
    }

    fn same(&self, other: &Self) -> (r: bool) {
        self.recipe == other.recipe && same_ids(&self.vals, &other.vals)
    }
}

pub open spec fn insts_view(ks: Seq<InstKey>) -> Seq<InstV> {
    Seq::new(ks.len(), |i: int| ks[i].ident())
}

/// Instances of recipes that exist, over classes that exist.
pub open spec fn insts_in(g: Graph, table: Seq<QuantRecipe>, ks: Seq<InstKey>) -> bool {
    forall|i: int|
        0 <= i < ks.len() ==> {
            &&& (#[trigger] ks[i]).recipe.0 < table.len()
            &&& ks[i].vals@.len() == table[ks[i].recipe.0 as int].n_caps
                + table[ks[i].recipe.0 as int].n_bound
            &&& g.has_all(ks[i].vals@)
        }
}

/// The extensions of a substitution under which a pattern matches some class.
pub fn match_term_anywhere(g: &Graph, term: &PreparedTerm, caps: &Vec<Id>, sigma: &Sigma) -> (out: Vec<
    Sigma,
>)
    requires
        g.wf(),
        g.has_all(caps@),
        sigma_in(*g, sigma@.len(), sigma@),
        pattern_ok(*term, sigma@.len(), caps@.len()),
    ensures
        sigmas_view(out@) == anywhere(*g, *term, caps@, sigma@),
        sigmas_in(*g, sigma@.len(), out@),
{
    let mut out = no_match();
    if let PreparedTerm::App { .. } = term {
    } else {
        return out;
    }
    let n: usize = g.size();
    let mut i: usize = 0;
    while i < n
        invariant
            g.wf(),
            g.has_all(caps@),
            sigma_in(*g, sigma@.len(), sigma@),
            pattern_ok(*term, sigma@.len(), caps@.len()),
            *term is App,
            n == g.len(),
            i <= n,
            sigmas_view(out@) == anywhere_below(*g, *term, caps@, sigma@, i as nat),
            sigmas_in(*g, sigma@.len(), out@),
        decreases n - i,
    {
        let ghost before = sigmas_view(out@);
        proof {
            crate::graph::lemma_len_bound(*g);
            assert(before + Seq::empty() =~= before);
        }
        let id: Id = i as Id;
        if g.find(id) == id {
            append_sigmas(&mut out, match_term(g, term, id, caps, sigma));
        }
        i += 1;
    }
    out
}

fn match_each_anywhere(g: &Graph, term: &PreparedTerm, caps: &Vec<Id>, sigmas: &Vec<Sigma>, n: usize) -> (out: Vec<
    Sigma,
>)
    requires
        g.wf(),
        g.has_all(caps@),
        sigmas_in(*g, n as nat, sigmas@),
        pattern_ok(*term, n as nat, caps@.len()),
    ensures
        sigmas_view(out@) == anywhere_each(*g, *term, caps@, sigmas_view(sigmas@)),
        sigmas_in(*g, n as nat, out@),
{
    let ghost all = sigmas_view(sigmas@);
    let mut out = no_match();
    let mut j: usize = 0;
    proof {
        assert(all.take(0) =~= Seq::empty());
    }
    while j < sigmas.len()
        invariant
            g.wf(),
            g.has_all(caps@),
            pattern_ok(*term, n as nat, caps@.len()),
            j <= sigmas@.len(),
            all == sigmas_view(sigmas@),
            sigmas_in(*g, n as nat, sigmas@),
            sigmas_view(out@) == anywhere_each(*g, *term, caps@, all.take(j as int)),
            sigmas_in(*g, n as nat, out@),
        decreases sigmas.len() - j,
    {
        proof {
            assert(sigma_in(*g, n as nat, sigmas@[j as int]@));
            assert(all.take(j + 1).drop_last() =~= all.take(j as int));
            assert(all.take(j + 1).last() == sigmas@[j as int]@);
        }
        append_sigmas(&mut out, match_term_anywhere(g, term, caps, &sigmas[j]));
        j += 1;
    }
    proof {
        assert(all.take(all.len() as int) =~= all);
    }
    out
}

fn match_group(g: &Graph, group: &Vec<PreparedTerm>, caps: &Vec<Id>, n: usize) -> (out: Vec<Sigma>)
    requires
        g.wf(),
        g.has_all(caps@),
        patterns_ok(group@, n as nat, caps@.len()),
    ensures
        sigmas_view(out@) == group_matches(*g, group@, caps@, n as nat),
        sigmas_in(*g, n as nat, out@),
{
    let mut empty: Sigma = Vec::new();
    let mut k: usize = 0;
    while k < n
        invariant
            k <= n,
            empty@ == no_binding(k as nat),
        decreases n - k,
    {
        empty.push(None);
        k += 1;
        proof {
            assert(empty@ =~= no_binding(k as nat));
        }
    }
    let mut out: Vec<Sigma> = Vec::new();
    out.push(empty);
    let mut i: usize = 0;
    proof {
        assert(sigmas_view(out@) =~= seq![no_binding(n as nat)]);
        assert(group@.take(0) =~= Seq::empty());
    }
    while i < group.len()
        invariant
            g.wf(),
            g.has_all(caps@),
            patterns_ok(group@, n as nat, caps@.len()),
            i <= group@.len(),
            sigmas_view(out@) == group_matches(*g, group@.take(i as int), caps@, n as nat),
            sigmas_in(*g, n as nat, out@),
        decreases group.len() - i,
    {
        proof {
            lemma_pattern_at(group@, n as nat, caps@.len(), i as int);
            assert(group@.take(i + 1).drop_last() =~= group@.take(i as int));
            assert(group@.take(i + 1).last() == group@[i as int]);
        }
        out = match_each_anywhere(g, &group[i], caps, &out, n);
        i += 1;
    }
    proof {
        assert(group@.take(group@.len() as int) =~= group@);
    }
    out
}

/// The classes that a substitution binds, if it binds every binder.
fn bindings(s: &Sigma) -> (r: Option<Vec<Id>>)
    ensures
        r is Some == complete(s@),
        r matches Some(ids) ==> ids@ == bound_ids(s@),
{
    let mut out: Vec<Id> = Vec::new();
    let mut i: usize = 0;
    while i < s.len()
        invariant
            i <= s@.len(),
            out@.len() == i,
            forall|k: int| 0 <= k < i ==> (#[trigger] s@[k]) is Some && out@[k] == s@[k].unwrap(),
        decreases s.len() - i,
    {
        match s[i] {
            Some(id) => out.push(id),
            None => {
                assert(s@[i as int] is None);
                return None;
            },
        }
        i += 1;
    }
    proof {
        assert(out@ =~= bound_ids(s@));
    }
    Some(out)
}

fn append_insts(out: &mut Vec<InstKey>, more: Vec<InstKey>)
    ensures
        insts_view(final(out)@) == insts_view(old(out)@) + insts_view(more@),
        forall|g: Graph, t: Seq<QuantRecipe>|
            insts_in(g, t, old(out)@) && insts_in(g, t, more@) ==> #[trigger] insts_in(
                g,
                t,
                final(out)@,
            ),
{
    let ghost before = out@;
    let ghost rest = more@;
    let mut more = more;
    out.append(&mut more);
    proof {
        assert(out@ =~= before + rest);
        assert(insts_view(out@) =~= insts_view(before) + insts_view(rest));
        assert forall|g: Graph, t: Seq<QuantRecipe>|
            insts_in(g, t, before) && insts_in(g, t, rest) implies #[trigger] insts_in(
            g,
            t,
            out@,
        ) by {
            assert forall|i: int| 0 <= i < out@.len() implies {
                &&& (#[trigger] out@[i]).recipe.0 < t.len()
                &&& out@[i].vals@.len() == t[out@[i].recipe.0 as int].n_caps
                    + t[out@[i].recipe.0 as int].n_bound
                &&& g.has_all(out@[i].vals@)
            } by {
                if i < before.len() {
                    assert(out@[i] == before[i]);
                } else {
                    assert(out@[i] == rest[i - before.len()]);
                }
            }
        }
    }
}

fn insts_of_sigmas(
    g: &Graph,
    table: &Vec<QuantRecipe>,
    r: RecipeId,
    caps: &Vec<Id>,
    sigmas: &Vec<Sigma>,
) -> (out: Vec<InstKey>)
    requires
        g.has_all(caps@),
        r.0 < table@.len(),
        caps@.len() == table@[r.0 as int].n_caps,
        sigmas_in(*g, table@[r.0 as int].n_bound as nat, sigmas@),
    ensures
        insts_view(out@) == sigma_insts(r, caps@, sigmas_view(sigmas@)),
        insts_in(*g, table@, out@),
{
    let ghost all = sigmas_view(sigmas@);
    let mut out: Vec<InstKey> = Vec::new();
    let mut i: usize = 0;
    proof {
        assert(all.take(0) =~= Seq::empty());
        assert(insts_view(out@) =~= Seq::empty());
    }
    while i < sigmas.len()
        invariant
            g.has_all(caps@),
            r.0 < table@.len(),
            caps@.len() == table@[r.0 as int].n_caps,
            sigmas_in(*g, table@[r.0 as int].n_bound as nat, sigmas@),
            i <= sigmas@.len(),
            all == sigmas_view(sigmas@),
            insts_view(out@) == sigma_insts(r, caps@, all.take(i as int)),
            insts_in(*g, table@, out@),
        decreases sigmas.len() - i,
    {
        let ghost before = out@;
        let ghost s = sigmas@[i as int]@;
        proof {
            assert(all.take(i + 1).drop_last() =~= all.take(i as int));
            assert(all.take(i + 1).last() == s);
            assert(sigma_in(*g, table@[r.0 as int].n_bound as nat, s));
        }
        if let Some(ids) = bindings(&sigmas[i]) {
            let mut vals = copy_ids(caps);
            let mut ids = ids;
            let ghost tail = ids@;
            vals.append(&mut ids);
            proof {
                assert(vals@ =~= caps@ + bound_ids(s));
                assert forall|j: int| 0 <= j < vals@.len() implies g.has(#[trigger] vals@[j]) by {
                    if j < caps@.len() {
                        assert(g.has(caps@[j]));
                    } else {
                        assert(s[j - caps@.len()] is Some);
                    }
                }
            }
            let key = InstKey { recipe: r, vals };
            let ghost v = key.ident();
            out.push(key);
            proof {
                assert(insts_view(out@) =~= insts_view(before).push(v));
                assert forall|k: int| 0 <= k < out@.len() implies {
                    &&& (#[trigger] out@[k]).recipe.0 < table@.len()
                    &&& out@[k].vals@.len() == table@[out@[k].recipe.0 as int].n_caps
                        + table@[out@[k].recipe.0 as int].n_bound
                    &&& g.has_all(out@[k].vals@)
                } by {
                    if k < before.len() {
                        assert(out@[k] == before[k]);
                    }
                }
            }
        }
        i += 1;
    }
    proof {
        assert(all.take(all.len() as int) =~= all);
    }
    out
}

/// Every recipe is well formed.
pub open spec fn table_wf(table: Seq<QuantRecipe>) -> bool {
    forall|i: int| 0 <= i < table.len() ==> (#[trigger] table[i]).wf()
}

/// Every quantifier among terms has its recipe, with as many captures.
pub open spec fn quants_known(table: Seq<QuantRecipe>, ts: Seq<Node>) -> bool {
    forall|k: int|
        0 <= k < ts.len() && (#[trigger] ts[k]).op is Forall ==> ts[k].op->Forall_0.0 < table.len()
            && ts[k].args.len() == table[ts[k].op->Forall_0.0 as int].n_caps
}

fn insts_of_quant(g: &Graph, table: &Vec<QuantRecipe>, r: RecipeId, caps: &Vec<Id>) -> (out: Vec<
    InstKey,
>)
    requires
        g.wf(),
        g.has_all(caps@),
        table_wf(table@),
        r.0 < table@.len(),
        caps@.len() == table@[r.0 as int].n_caps,
    ensures
        insts_view(out@) == group_insts(
            *g,
            r,
            table@[r.0 as int].groups@,
            caps@,
            table@[r.0 as int].n_bound as nat,
        ),
        insts_in(*g, table@, out@),
{
    let q = &table[r.0];
    let ghost n = q.n_bound as nat;
    let mut out: Vec<InstKey> = Vec::new();
    let mut i: usize = 0;
    proof {
        assert(q.wf());
        assert(q.groups@.take(0) =~= Seq::empty());
        assert(insts_view(out@) =~= Seq::empty());
    }
    while i < q.groups.len()
        invariant
            g.wf(),
            g.has_all(caps@),
            r.0 < table@.len(),
            *q == table@[r.0 as int],
            n == q.n_bound,
            q.wf(),
            caps@.len() == q.n_caps,
            i <= q.groups@.len(),
            insts_view(out@) == group_insts(*g, r, q.groups@.take(i as int), caps@, n),
            insts_in(*g, table@, out@),
        decreases q.groups.len() - i,
    {
        proof {
            assert(q.groups@.take(i + 1).drop_last() =~= q.groups@.take(i as int));
            assert(q.groups@.take(i + 1).last() == q.groups@[i as int]);
            assert(insts_view(out@) + Seq::empty() =~= insts_view(out@));
        }
        if q.groups[i].len() > 0 {
            let sigmas = match_group(g, &q.groups[i], caps, q.n_bound);
            append_insts(&mut out, insts_of_sigmas(g, table, r, caps, &sigmas));
        }
        i += 1;
    }
    proof {
        assert(q.groups@.take(q.groups@.len() as int) =~= q.groups@);
    }
    out
}

/// The instances of the quantifiers in a class.
pub fn find_instances(g: &Graph, table: &Vec<QuantRecipe>, class: Id) -> (out: Vec<InstKey>)
    requires
        g.wf(),
        g.has(class),
        table_wf(table@),
        quants_known(table@, g.terms(class)),
    ensures
        insts_view(out@) == class_insts(*g, table@, g.terms(class)),
        insts_in(*g, table@, out@),
{
    let ghost all = g.terms(class);
    let ts = g.terms_of(class);
    let mut out: Vec<InstKey> = Vec::new();
    let mut i: usize = 0;
    proof {
        assert(all.take(0) =~= Seq::<Node>::empty());
        assert(insts_view(out@) =~= Seq::empty());
    }
    while i < ts.len()
        invariant
            g.wf(),
            table_wf(table@),
            quants_known(table@, all),
            i <= ts@.len(),
            ts@.len() == all.len(),
            forall|k: int| 0 <= k < ts@.len() ==> (#[trigger] ts@[k])@ == all[k],
            forall|k: int| 0 <= k < ts@.len() ==> g.has_all((#[trigger] ts@[k])@.args),
            insts_view(out@) == class_insts(*g, table@, all.take(i as int)),
            insts_in(*g, table@, out@),
        decreases ts.len() - i,
    {
        proof {
            assert(all.take(i + 1).drop_last() =~= all.take(i as int));
            assert(all.take(i + 1).last() == all[i as int]);
            assert(g.has_all(ts@[i as int]@.args));
            assert(insts_view(out@) + Seq::empty() =~= insts_view(out@));
        }
        if let Symbolic::Forall(r, caps) = &ts[i] {
            let caps = canon_ids(g, caps);
            append_insts(&mut out, insts_of_quant(g, table, *r, &caps));
        }
        i += 1;
    }
    proof {
        assert(all.take(all.len() as int) =~= all);
    }
    out
}

/// Builds one instance and releases its result behind the quantifier.
pub fn instantiate(
    g: &mut Graph,
    table: &Vec<QuantRecipe>,
    class: Id,
    key: &InstKey,
    changed: &mut Vec<Id>,
)
    requires
        old(g).wf(),
        old(g).has(class),
        table_wf(table@),
        key.recipe.0 < table@.len(),
        key.vals@.len() == table@[key.recipe.0 as int].n_caps
            + table@[key.recipe.0 as int].n_bound,
        old(g).has_all(key.vals@),
    ensures
        asserted(*old(g), *final(g), instance_facts(table@, class, key.ident())),
        old(changed)@.is_prefix_of(final(changed)@),
        old(changed)@.len() == final(changed)@.len() ==> keeps_classes(*old(g), *final(g)),
        old(changed)@.len() != final(changed)@.len() ==> merges(*old(g), *final(g)),
{
    broadcast use {group_grows, lemma_denotes_self};

    let ghost g0 = *g;
    let ghost c0 = changed@.len();
    let q = &table[key.recipe.0];
    let ghost seed = t_classes(key.vals@);
    let ghost ts = inst_vals(q.insts@, seed);
    let ghost first = inst_facts(q.insts@, seed, Some(Tm::Class(class)));
    proof {
        assert(q.wf());
        lemma_slots(q.insts@, seed);
    }
    let vals = build_instance_vals_guarded(g, &q.insts, &key.vals, changed, Some(class));
    let ghost g1 = *g;
    let res = resolve_val(g, &vals, &q.res, Ghost(ts));
    let ghost g2 = *g;
    let ghost t = val_tm(ts, q.res);
    let rel = gate_of(g, Some(class), res, Ghost(Some(Tm::Class(class))), Ghost(t));
    let ghost g3 = *g;
    let ghost whole = gated(Some(Tm::Class(class)), t);
    release(g, rel, Ghost(whole), changed);
    proof {
        let none = Seq::<(Tm, Tm)>::empty();
        let second = seq![(whole, t_bool(true))];
        lemma_keeps_trans(g1, g2, g3);
        lemma_extended_asserted(g1, g3);
        lemma_asserted_trans(g0, g1, g3, first, none);
        assert(first + none =~= first);
        lemma_asserted_trans(g0, g3, *g, first, second);
        if c0 == changed@.len() {
            lemma_keeps_trans(g0, g1, g3);
            lemma_keeps_trans(g0, g3, *g);
        }
    }
}

/// The one rule that instantiates quantifiers.
pub struct ForallApplier {
    pub memo: Memo<InstKey>,
}

impl ForallApplier {
    /// Instantiates the quantifiers of a class where their triggers match and the
    /// memo has not seen the instance, and gives the classes that changed.
    pub fn apply_one(&mut self, s: &Scopes, g: &mut Graph, table: &Vec<QuantRecipe>, class: Id) -> (changed:
        Vec<Id>)
        requires
            old(g).wf(),
            old(g).has(class),
            table_wf(table@),
            quants_known(table@, old(g).terms(class)),
        ensures
            asserted(
                *old(g),
                *final(g),
                picks(
                    inst_cands(
                        table@,
                        class,
                        class_insts(*old(g), table@, old(g).terms(class)),
                    ),
                    |v: InstV| old(self).memo.seen(*s, v),
                ),
            ),
            forall|v: InstV| #[trigger]
                final(self).memo.seen(*s, v) == (old(self).memo.seen(*s, v) || class_insts(
                    *old(g),
                    table@,
                    old(g).terms(class),
                ).contains(v)),
            changed@.len() == 0 ==> keeps_classes(*old(g), *final(g)),
            changed@.len() > 0 ==> merges(*old(g), *final(g)),
    {
        let ghost g0 = *g;
        let ghost m0 = self.memo;
        let ghost seen = |v: InstV| m0.seen(*s, v);
        let keys = find_instances(g, table, class);
        let ghost vs = insts_view(keys@);
        let ghost cs = inst_cands(table@, class, vs);
        let mut changed: Vec<Id> = Vec::new();
        let mut i: usize = 0;
        proof {
            lemma_grows_refl(g0);
            lemma_extended_asserted(g0, g0);
            assert(cs.take(0) =~= Seq::empty());
        }
        while i < keys.len()
            invariant
                g0.wf(),
                g.wf(),
                g0.has(class),
                table_wf(table@),
                insts_in(g0, table@, keys@),
                i <= keys@.len(),
                vs == insts_view(keys@),
                cs == inst_cands(table@, class, vs),
                asserted(g0, *g, picks(cs.take(i as int), seen)),
                forall|v: InstV| #[trigger] seen(v) == m0.seen(*s, v),
                forall|v: InstV| #[trigger]
                    self.memo.seen(*s, v) == (m0.seen(*s, v) || vs.take(i as int).contains(v)),
                changed@.len() == 0 ==> keeps_classes(g0, *g),
                changed@.len() > 0 ==> merges(g0, *g),
            decreases keys.len() - i,
        {
            let ghost before = *g;
            let ghost m1 = self.memo;
            let ghost c0 = changed@.len();
            let ghost taken = cs.take(i + 1);
            let ghost k = vs[i as int];
            proof {
                assert(taken.drop_last() =~= cs.take(i as int));
                assert(taken.last() == cs[i as int]);
                assert(keys@[i as int].ident() == k);
                assert forall|j: int| 0 <= j < keys@[i as int].vals@.len() implies g.has(
                    #[trigger] keys@[i as int].vals@[j],
                ) by {
                    assert(g0.has_all(keys@[i as int].vals@));
                    assert(g0.has(keys@[i as int].vals@[j]));
                }
            }
            let fresh = self.memo.insert(
                s,
                InstKey { recipe: keys[i].recipe, vals: copy_ids(&keys[i].vals) },
            );
            proof {
                let earlier = vs.take(i as int).contains(k);
                assert(earlier == exists|j: int|
                    0 <= j < taken.len() - 1 && (#[trigger] taken[j]).0 == taken.last().0) by {
                    if earlier {
                        let j = choose|j: int|
                            0 <= j < vs.take(i as int).len() && vs.take(i as int)[j] == k;
                        assert(taken[j].0 == taken.last().0);
                    }
                    if exists|j: int|
                        0 <= j < taken.len() - 1 && (#[trigger] taken[j]).0 == taken.last().0 {
                        let j = choose|j: int|
                            0 <= j < taken.len() - 1 && (#[trigger] taken[j]).0 == taken.last().0;
                        assert(vs.take(i as int)[j] == k);
                    }
                }
                assert(fresh == !(seen(k) || earlier));
                assert(vs.take(i + 1) =~= vs.take(i as int).push(k));
                assert forall|v: InstV| #[trigger]
                    self.memo.seen(*s, v) == (m0.seen(*s, v) || vs.take(i + 1).contains(v)) by {
                    assert(self.memo.seen(*s, v) == (m1.seen(*s, v) || v == k));
                    lemma_push_contains(vs.take(i as int), k, v);
                }
            }
            if fresh {
                instantiate(g, table, class, &keys[i], &mut changed);
                proof {
                    lemma_asserted_trans(
                        g0,
                        before,
                        *g,
                        picks(cs.take(i as int), seen),
                        instance_facts(table@, class, k),
                    );
                    if changed@.len() == 0 {
                        lemma_keeps_trans(g0, before, *g);
                    }
                }
            }
            i += 1;
        }
        proof {
            assert(cs.take(keys@.len() as int) =~= cs);
            assert(vs.take(keys@.len() as int) =~= vs);
            assert(seen =~= |v: InstV| m0.seen(*s, v));
        }
        changed
    }
}

proof fn lemma_push_contains<T>(s: Seq<T>, k: T, v: T)
    ensures
        s.push(k).contains(v) == (s.contains(v) || v == k),
{
    if s.contains(v) {
        let j = choose|j: int| 0 <= j < s.len() && s[j] == v;
        assert(s.push(k)[j] == v);
    }
    assert(s.push(k)[s.len() as int] == k);
    if s.push(k).contains(v) {
        let j = choose|j: int| 0 <= j < s.push(k).len() && s.push(k)[j] == v;
        if j < s.len() {
            assert(s[j] == v);
        }
    }
}

proof fn lemma_anywhere_len(
    g: Graph,
    t: PreparedTerm,
    caps: Seq<Id>,
    sigma: Seq<Option<Id>>,
    n: nat,
)
    requires
        pattern_ok(t, sigma.len(), caps.len()),
    ensures
        all_len(anywhere_below(g, t, caps, sigma, n), sigma.len()),
    decreases n,
{
    if n > 0 && t is App {
        lemma_anywhere_len(g, t, caps, sigma, (n - 1) as nat);
        let id = (n - 1) as Id;
        lemma_match_len(g, t, id, caps, sigma);
        let front = anywhere_below(g, t, caps, sigma, (n - 1) as nat);
        lemma_all_len_concat(front, match_tm(g, t, id, caps, sigma), sigma.len());
        lemma_all_len_concat(front, Seq::empty(), sigma.len());
    }
}

proof fn lemma_anywhere_each_len(
    g: Graph,
    t: PreparedTerm,
    caps: Seq<Id>,
    sigmas: Seq<Seq<Option<Id>>>,
    n: nat,
)
    requires
        all_len(sigmas, n),
        pattern_ok(t, n, caps.len()),
    ensures
        all_len(anywhere_each(g, t, caps, sigmas), n),
    decreases sigmas.len(),
{
    if sigmas.len() > 0 {
        assert forall|i: int| 0 <= i < sigmas.drop_last().len() implies (
        #[trigger] sigmas.drop_last()[i]).len() == n by {
            assert(sigmas.drop_last()[i] == sigmas[i]);
        }
        lemma_anywhere_each_len(g, t, caps, sigmas.drop_last(), n);
        assert(sigmas[sigmas.len() - 1].len() == n);
        lemma_anywhere_len(g, t, caps, sigmas.last(), g.len());
        lemma_all_len_concat(
            anywhere_each(g, t, caps, sigmas.drop_last()),
            anywhere(g, t, caps, sigmas.last()),
            n,
        );
    }
}

proof fn lemma_group_len(g: Graph, ts: Seq<PreparedTerm>, caps: Seq<Id>, n: nat)
    requires
        patterns_ok(ts, n, caps.len()),
    ensures
        all_len(group_matches(g, ts, caps, n), n),
    decreases ts.len(),
{
    if ts.len() > 0 {
        lemma_group_len(g, ts.drop_last(), caps, n);
        lemma_anywhere_each_len(
            g,
            ts.last(),
            caps,
            group_matches(g, ts.drop_last(), caps, n),
            n,
        );
    }
}

/// An instance of `r` whose captures are `caps`.
spec fn instance_of(v: InstV, r: RecipeId, caps: Seq<Id>, n: nat) -> bool {
    v.recipe == r && v.vals.len() == caps.len() + n && v.vals.take(caps.len() as int) == caps
}

spec fn all_instances(vs: Seq<InstV>, r: RecipeId, caps: Seq<Id>, n: nat) -> bool {
    forall|i: int| 0 <= i < vs.len() ==> instance_of(#[trigger] vs[i], r, caps, n)
}

proof fn lemma_sigma_insts(r: RecipeId, caps: Seq<Id>, ss: Seq<Seq<Option<Id>>>, n: nat)
    requires
        all_len(ss, n),
    ensures
        all_instances(sigma_insts(r, caps, ss), r, caps, n),
    decreases ss.len(),
{
    if ss.len() > 0 {
        assert forall|i: int| 0 <= i < ss.drop_last().len() implies (
        #[trigger] ss.drop_last()[i]).len() == n by {
            assert(ss.drop_last()[i] == ss[i]);
        }
        lemma_sigma_insts(r, caps, ss.drop_last(), n);
        let front = sigma_insts(r, caps, ss.drop_last());
        let all = sigma_insts(r, caps, ss);
        assert(ss[ss.len() - 1].len() == n);
        assert((caps + bound_ids(ss.last())).take(caps.len() as int) =~= caps);
        assert forall|i: int| 0 <= i < all.len() implies instance_of(
            #[trigger] all[i],
            r,
            caps,
            n,
        ) by {
            if i < front.len() {
                assert(all[i] == front[i]);
            }
        }
    }
}

proof fn lemma_group_insts(
    g: Graph,
    r: RecipeId,
    groups: Seq<Vec<PreparedTerm>>,
    caps: Seq<Id>,
    n: nat,
)
    requires
        forall|i: int|
            0 <= i < groups.len() ==> patterns_ok((#[trigger] groups[i])@, n, caps.len()),
    ensures
        all_instances(group_insts(g, r, groups, caps, n), r, caps, n),
    decreases groups.len(),
{
    if groups.len() > 0 {
        assert forall|i: int| 0 <= i < groups.drop_last().len() implies patterns_ok(
            (#[trigger] groups.drop_last()[i])@,
            n,
            caps.len(),
        ) by {
            assert(groups.drop_last()[i] == groups[i]);
        }
        assert(patterns_ok(groups[groups.len() - 1]@, n, caps.len()));
        lemma_group_insts(g, r, groups.drop_last(), caps, n);
        lemma_group_len(g, groups.last()@, caps, n);
        let ms = group_matches(g, groups.last()@, caps, n);
        lemma_sigma_insts(r, caps, ms, n);
        let front = group_insts(g, r, groups.drop_last(), caps, n);
        let back = sigma_insts(r, caps, ms);
        let all = group_insts(g, r, groups, caps, n);
        assert forall|i: int| 0 <= i < all.len() implies instance_of(
            #[trigger] all[i],
            r,
            caps,
            n,
        ) by {
            if i < front.len() {
                assert(all[i] == front[i]);
            } else {
                assert(all[i] == back[i - front.len()]);
            }
        }
    }
}

/// An interpretation gives quantifiers their meaning: where a quantifier is true,
/// what each of its instances asserts holds, whatever its binders stand for.
pub open spec fn quantifies(table: Seq<QuantRecipe>, m: Model) -> bool {
    forall|val: spec_fn(Id) -> Value, class: Id, v: InstV|
        #![trigger all_hold(Model { val, ..m }, instance_facts(table, class, v))]
        {
            let w = Model { val, ..m };
            let q = table[v.recipe.0 as int];
            &&& v.recipe.0 < table.len()
            &&& v.vals.len() == q.n_caps + q.n_bound
            &&& w.at(class) == Value::Bool(
                (m.quant)(v.recipe, w.all(v.vals.take(q.n_caps as int))),
            )
        } ==> all_hold(Model { val, ..m }, instance_facts(table, class, v))
}

proof fn lemma_instances_hold(
    g: Graph,
    table: Seq<QuantRecipe>,
    m: Model,
    class: Id,
    k: nat,
)
    requires
        g.wf(),
        g.models(m),
        g.has(class),
        table_wf(table),
        quantifies(table, m),
        quants_known(table, g.terms(class)),
        k <= g.terms(class).len(),
    ensures
        forall|i: int|
            0 <= i < class_insts(g, table, g.terms(class).take(k as int)).len() ==> all_hold(
                m,
                instance_facts(
                    table,
                    class,
                    #[trigger] class_insts(g, table, g.terms(class).take(k as int))[i],
                ),
            ),
    decreases k,
{
    if k > 0 {
        let ts = g.terms(class).take(k as int);
        lemma_instances_hold(g, table, m, class, (k - 1) as nat);
        assert(ts.drop_last() =~= g.terms(class).take(k - 1));
        let front = class_insts(g, table, ts.drop_last());
        let n = g.terms(class)[k - 1];
        assert(ts.last() == n);
        lemma_term_value(g, m, class, k - 1);
        if let OpV::Forall(r) = n.op {
            let q = table[r.0 as int];
            let caps = canon_all(g, n.args);
            let back = group_insts(g, r, q.groups@, caps, q.n_bound as nat);
            assert(q.wf());
            lemma_group_insts(g, r, q.groups@, caps, q.n_bound as nat);
            crate::graph::lemma_canon_term(g, m, n);
            assert(g.canon_term(n).args == caps);
            assert forall|i: int| 0 <= i < class_insts(g, table, ts).len() implies all_hold(
                m,
                instance_facts(table, class, #[trigger] class_insts(g, table, ts)[i]),
            ) by {
                let v = class_insts(g, table, ts)[i];
                if i < front.len() {
                    assert(v == front[i]);
                } else {
                    assert(v == back[i - front.len()]);
                    assert(instance_of(back[i - front.len()], r, caps, q.n_bound as nat));
                    assert(Model { val: m.val, ..m } == m);
                    assert(all_hold(Model { val: m.val, ..m }, instance_facts(table, class, v)));
                }
            }
        } else {
            assert(class_insts(g, table, ts) =~= front);
        }
    }
}

/// Instantiating is sound where the interpretation gives quantifiers their meaning.
pub proof fn law_instances_sound(
    g: Graph,
    table: Seq<QuantRecipe>,
    m: Model,
    class: Id,
    seen: spec_fn(InstV) -> bool,
)
    requires
        g.wf(),
        g.models(m),
        g.has(class),
        table_wf(table),
        quantifies(table, m),
        quants_known(table, g.terms(class)),
    ensures
        all_hold(
            m,
            picks(inst_cands(table, class, class_insts(g, table, g.terms(class))), seen),
        ),
{
    let ts = g.terms(class);
    lemma_instances_hold(g, table, m, class, ts.len());
    assert(ts.take(ts.len() as int) =~= ts);
    let vs = class_insts(g, table, ts);
    let cs = inst_cands(table, class, vs);
    assert forall|k: int| 0 <= k < cs.len() implies all_hold(m, (#[trigger] cs[k]).1) by {
        assert(all_hold(m, instance_facts(table, class, vs[k])));
    }
    lemma_picks_hold(m, cs, seen);
}

} // verus!
