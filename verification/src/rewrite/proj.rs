//! Projection out of constructed values and out of choices between them.

use crate::graph::{
    coarser, keeps_classes, lemma_canon_in, lemma_canon_value, lemma_term_value, lemma_terms_in, Graph,
};
use crate::lang::{FuncId, Id, Node, OpV, Symbolic};
use crate::model::{equation_holds, lemma_tm_ite, t_ite, theory, Model, Tm};
use crate::rewrite::pins::{lemma_coarser_trans, lemma_keeps_coarser};
use crate::rewrite::sound::{follows, lemma_theory_grows, lemma_theory_prefix, well_sorted};
use crate::terms::{
    extended, group_grows, lemma_denotes_self, lemma_grows_refl, lemma_keeps_trans,
};
use crate::vmir::{TypeV, Value};
use vstd::prelude::*;

verus! {

/// An accessor reads the given argument of a constructor.
pub open spec fn reads_field(m: Model, accessor: FuncId, ctor: FuncId, index: usize) -> bool {
    forall|s: Seq<TypeV>, t: Seq<TypeV>, a: Seq<Value>|
        #![trigger (m.func)(accessor, s, seq![(m.func)(ctor, t, a)])]
        index < a.len() ==> (m.func)(accessor, s, seq![(m.func)(ctor, t, a)]) == a[index as int]
}

/// The argument of the first application of the constructor that has it.
pub open spec fn direct_field(ctor: FuncId, index: usize, ts: Seq<Node>) -> Option<Id>
    decreases ts.len(),
{
    if ts.len() == 0 {
        None
    } else {
        match ts[0].op {
            OpV::FuncApp(f, _) if f == ctor && index < ts[0].args.len() => Some(
                ts[0].args[index as int],
            ),
            _ => direct_field(ctor, index, ts.drop_first()),
        }
    }
}

/// Whether the field can be read out of a class through at most `depth` layers:
/// the class holds the constructor, or a choice whose arms both give the field.
pub open spec fn projectable(g: Graph, ctor: FuncId, index: usize, class: Id, depth: nat) -> bool
    decreases depth,
{
    depth > 0 && (direct_field(ctor, index, g.terms(class)) is Some || exists|k: int|
        #![trigger g.terms(class)[k]]
        0 <= k < g.terms(class).len() && g.terms(class)[k].op == OpV::Ite && projectable(
            g,
            ctor,
            index,
            g.terms(class)[k].args[1],
            (depth - 1) as nat,
        ) && projectable(g, ctor, index, g.terms(class)[k].args[2], (depth - 1) as nat))
}

/// Whether the field can be read out of a class.
pub open spec fn has_field(g: Graph, ctor: FuncId, index: usize, class: Id) -> bool {
    exists|d: nat| projectable(g, ctor, index, class, d)
}

/// In every model of the graph in which the accessor reads the constructor's
/// argument, `field` has the value of the accessor on `class`.
pub open spec fn projects(
    g: Graph,
    accessor: FuncId,
    ctor: FuncId,
    index: usize,
    class: Id,
    field: Id,
) -> bool {
    g.full() || forall|m: Model, s: Seq<TypeV>|
        #![trigger g.models(m), (m.func)(accessor, s, seq![m.at(class)])]
        g.models(m) && reads_field(m, accessor, ctor, index) ==> (m.func)(
            accessor,
            s,
            seq![m.at(class)],
        ) == m.at(field)
}

proof fn lemma_direct(ctor: FuncId, index: usize, ts: Seq<Node>) -> (k: int)
    requires
        direct_field(ctor, index, ts) is Some,
    ensures
        0 <= k < ts.len(),
        ts[k].op is FuncApp,
        ts[k].op->FuncApp_0 == ctor,
        index < ts[k].args.len(),
        direct_field(ctor, index, ts) == Some(ts[k].args[index as int]),
    decreases ts.len(),
{
    match ts[0].op {
        OpV::FuncApp(f, _) if f == ctor && index < ts[0].args.len() => 0,
        _ => {
            let k = lemma_direct(ctor, index, ts.drop_first());
            k + 1
        },
    }
}

proof fn lemma_projects_direct(
    g: Graph,
    accessor: FuncId,
    ctor: FuncId,
    index: usize,
    class: Id,
    field: Id,
)
    requires
        g.wf(),
        g.has(class),
        direct_field(ctor, index, g.terms(class)) == Some(field),
    ensures
        projects(g, accessor, ctor, index, class, field),
{
    let k = lemma_direct(ctor, index, g.terms(class));
    let n = g.terms(class)[k];
    assert forall|m: Model, s: Seq<TypeV>|
        #![trigger g.models(m), (m.func)(accessor, s, seq![m.at(class)])]
        g.models(m) && reads_field(m, accessor, ctor, index) implies (m.func)(
        accessor,
        s,
        seq![m.at(class)],
    ) == m.at(field) by {
        lemma_term_value(g, m, class, k);
        assert((m.func)(accessor, s, seq![(m.func)(ctor, n.op->FuncApp_1, m.all(n.args))])
            == m.all(n.args)[index as int]);
    }
}

proof fn lemma_projects_ite(
    g: Graph,
    accessor: FuncId,
    ctor: FuncId,
    index: usize,
    class: Id,
    k: int,
    t: Id,
    e: Id,
    field: Id,
)
    requires
        g.wf(),
        g.has(class),
        0 <= k < g.terms(class).len(),
        g.terms(class)[k].op == OpV::Ite,
        projects(g, accessor, ctor, index, g.terms(class)[k].args[1], t),
        projects(g, accessor, ctor, index, g.terms(class)[k].args[2], e),
        g.denotes(
            field,
            t_ite(Tm::Class(g.terms(class)[k].args[0]), Tm::Class(t), Tm::Class(e)),
        ),
    ensures
        projects(g, accessor, ctor, index, class, field),
{
    if !g.full() {
        let n = g.terms(class)[k];
        assert forall|m: Model, s: Seq<TypeV>|
            #![trigger g.models(m), (m.func)(accessor, s, seq![m.at(class)])]
            g.models(m) && reads_field(m, accessor, ctor, index) implies (m.func)(
            accessor,
            s,
            seq![m.at(class)],
        ) == m.at(field) by {
            lemma_term_value(g, m, class, k);
            lemma_tm_ite(m, Tm::Class(n.args[0]), Tm::Class(t), Tm::Class(e));
            assert(m.all(n.args)[0] == m.at(n.args[0]));
            assert(m.all(n.args)[1] == m.at(n.args[1]));
            assert(m.all(n.args)[2] == m.at(n.args[2]));
            assert((m.func)(accessor, s, seq![m.at(n.args[1])]) == m.at(t));
            assert((m.func)(accessor, s, seq![m.at(n.args[2])]) == m.at(e));
        }
    }
}

proof fn lemma_projects_grows(
    g: Graph,
    h: Graph,
    accessor: FuncId,
    ctor: FuncId,
    index: usize,
    class: Id,
    field: Id,
)
    requires
        g.grows_to(h),
        projects(g, accessor, ctor, index, class, field),
    ensures
        projects(h, accessor, ctor, index, class, field),
{
    broadcast use group_grows;

    if !h.full() {
        assert forall|m: Model, s: Seq<TypeV>|
            #![trigger h.models(m), (m.func)(accessor, s, seq![m.at(class)])]
            h.models(m) && reads_field(m, accessor, ctor, index) implies (m.func)(
            accessor,
            s,
            seq![m.at(class)],
        ) == m.at(field) by {
            assert(g.models(m));
        }
    }
}

proof fn lemma_projectable_deeper(g: Graph, ctor: FuncId, index: usize, class: Id, d: nat)
    requires
        projectable(g, ctor, index, class, d),
    ensures
        projectable(g, ctor, index, class, d + 1),
    decreases d,
{
    if direct_field(ctor, index, g.terms(class)) is None {
        let k = choose|k: int|
            #![trigger g.terms(class)[k]]
            0 <= k < g.terms(class).len() && g.terms(class)[k].op == OpV::Ite && projectable(
                g,
                ctor,
                index,
                g.terms(class)[k].args[1],
                (d - 1) as nat,
            ) && projectable(g, ctor, index, g.terms(class)[k].args[2], (d - 1) as nat);
        lemma_projectable_deeper(g, ctor, index, g.terms(class)[k].args[1], (d - 1) as nat);
        lemma_projectable_deeper(g, ctor, index, g.terms(class)[k].args[2], (d - 1) as nat);
        assert(g.terms(class)[k].op == OpV::Ite);
    }
}

proof fn lemma_projectable_within(g: Graph, ctor: FuncId, index: usize, class: Id, c: nat, d: nat)
    requires
        projectable(g, ctor, index, class, c),
        c <= d,
    ensures
        projectable(g, ctor, index, class, d),
    decreases d - c,
{
    if c < d {
        lemma_projectable_deeper(g, ctor, index, class, c);
        lemma_projectable_within(g, ctor, index, class, c + 1, d);
    }
}

/// A choice between classes that have the field has it.
proof fn lemma_has_field_ite(g: Graph, ctor: FuncId, index: usize, class: Id, k: int)
    requires
        0 <= k < g.terms(class).len(),
        g.terms(class)[k].op == OpV::Ite,
        has_field(g, ctor, index, g.terms(class)[k].args[1]),
        has_field(g, ctor, index, g.terms(class)[k].args[2]),
    ensures
        has_field(g, ctor, index, class),
{
    let n = g.terms(class)[k];
    let a = choose|d: nat| projectable(g, ctor, index, n.args[1], d);
    let b = choose|d: nat| projectable(g, ctor, index, n.args[2], d);
    lemma_projectable_within(g, ctor, index, n.args[1], a, a + b);
    lemma_projectable_within(g, ctor, index, n.args[2], b, a + b);
    assert(projectable(g, ctor, index, class, a + b + 1));
}

/// Whether some class of a list is projectable through at most `d` layers.
spec fn some_projectable(g: Graph, ctor: FuncId, index: usize, seen: Seq<Id>, d: nat) -> bool {
    exists|i: int| 0 <= i < seen.len() && #[trigger] projectable(g, ctor, index, seen[i], d)
}

/// Whether the arms of the `k`th term of a class are both projectable through at
/// most `d` layers.
spec fn arms(g: Graph, ctor: FuncId, index: usize, class: Id, k: int, d: nat) -> bool {
    &&& g.terms(class)[k].op == OpV::Ite
    &&& projectable(g, ctor, index, g.terms(class)[k].args[1], d)
    &&& projectable(g, ctor, index, g.terms(class)[k].args[2], d)
}

/// A class that no choice projects is projectable only where a class on the path
/// to it is.
proof fn lemma_through_path(
    g: Graph,
    ctor: FuncId,
    index: usize,
    class: Id,
    seen: Seq<Id>,
    d: nat,
)
    requires
        direct_field(ctor, index, g.terms(class)) is None,
        forall|k: int, c: nat|
            0 <= k < g.terms(class).len() && #[trigger] arms(g, ctor, index, class, k, c)
                ==> some_projectable(g, ctor, index, seen.push(class), c),
        projectable(g, ctor, index, class, d),
    ensures
        some_projectable(g, ctor, index, seen, d),
    decreases d,
{
    let c = (d - 1) as nat;
    let k = choose|k: int|
        #![trigger g.terms(class)[k]]
        0 <= k < g.terms(class).len() && g.terms(class)[k].op == OpV::Ite && projectable(
            g,
            ctor,
            index,
            g.terms(class)[k].args[1],
            c,
        ) && projectable(g, ctor, index, g.terms(class)[k].args[2], c);
    assert(arms(g, ctor, index, class, k, c));
    let i = choose|i: int|
        0 <= i < seen.push(class).len() && #[trigger] projectable(
            g,
            ctor,
            index,
            seen.push(class)[i],
            c,
        );
    if i < seen.len() {
        lemma_projectable_within(g, ctor, index, seen[i], c, d);
    } else {
        lemma_through_path(g, ctor, index, class, seen, c);
        let j = choose|j: int|
            0 <= j < seen.len() && #[trigger] projectable(g, ctor, index, seen[j], c);
        lemma_projectable_within(g, ctor, index, seen[j], c, d);
    }
}

/// A class that holds neither the constructor nor a choice with projectable arms is
/// not projectable.
proof fn lemma_never(g: Graph, ctor: FuncId, index: usize, class: Id, d: nat)
    requires
        direct_field(ctor, index, g.terms(class)) is None,
        forall|k: int, c: nat|
            0 <= k < g.terms(class).len() ==> !#[trigger] arms(g, ctor, index, class, k, c),
    ensures
        !projectable(g, ctor, index, class, d),
{
    if projectable(g, ctor, index, class, d) {
        let c = (d - 1) as nat;
        let k = choose|k: int|
            #![trigger g.terms(class)[k]]
            0 <= k < g.terms(class).len() && g.terms(class)[k].op == OpV::Ite && projectable(
                g,
                ctor,
                index,
                g.terms(class)[k].args[1],
                c,
            ) && projectable(g, ctor, index, g.terms(class)[k].args[2], c);
        assert(arms(g, ctor, index, class, k, c));
    }
}

/// Distinct ids below a bound are no more than the bound.
pub proof fn lemma_distinct_below(ids: Seq<Id>, n: nat)
    requires
        ids.no_duplicates(),
        forall|i: int| 0 <= i < ids.len() ==> #[trigger] ids[i] < n,
    ensures
        ids.len() <= n,
{
    let below = vstd::set_lib::set_int_range(0, n as int);
    vstd::set_lib::lemma_int_range(0, n as int);
    let wide = ids.map_values(|x: Id| x as int);
    assert(wide.no_duplicates()) by {
        assert forall|i: int, j: int| 0 <= i < wide.len() && 0 <= j < wide.len() && i != j implies wide[i]
            != wide[j] by {
            assert(ids[i] != ids[j]);
        }
    }
    wide.unique_seq_to_set();
    assert(wide.to_set().subset_of(below)) by {
        assert forall|x: int| wide.to_set().contains(x) implies below.contains(x) by {
            let i = choose|i: int| 0 <= i < wide.len() && wide[i] == x;
            assert(ids[i] < n);
        }
    }
    vstd::set_lib::lemma_len_subset(wide.to_set(), below);
}

/// What a list of earlier answers says: a field of the class, or that it is not
/// projectable.
spec fn answers_hold(p: ProjApplier, g0: Graph, g: Graph, memo: Seq<(Id, Option<Id>)>) -> bool {
    forall|i: int|
        0 <= i < memo.len() ==> match (#[trigger] memo[i]).1 {
            Some(f) => g.has(f) && projects(g, p.accessor, p.ctor, p.index, memo[i].0, f)
                && has_field(g0, p.ctor, p.index, memo[i].0),
            None => forall|d: nat| !projectable(g0, p.ctor, p.index, memo[i].0, d),
        }
}

proof fn lemma_answers_grow(
    p: ProjApplier,
    g0: Graph,
    g: Graph,
    h: Graph,
    memo: Seq<(Id, Option<Id>)>,
)
    requires
        answers_hold(p, g0, g, memo),
        g.grows_to(h),
    ensures
        answers_hold(p, g0, h, memo),
{
    assert forall|i: int| 0 <= i < memo.len() implies match (#[trigger] memo[i]).1 {
        Some(f) => h.has(f) && projects(h, p.accessor, p.ctor, p.index, memo[i].0, f) && has_field(
            g0,
            p.ctor,
            p.index,
            memo[i].0,
        ),
        None => forall|d: nat| !projectable(g0, p.ctor, p.index, memo[i].0, d),
    } by {
        if let Some(f) = memo[i].1 {
            lemma_projects_grows(g, h, p.accessor, p.ctor, p.index, memo[i].0, f);
        }
    }
}

/// The projection rule of one argument of a constructor.
pub struct ProjApplier {
    pub accessor: FuncId,
    pub ctor: FuncId,
    pub index: usize,
}

/// A list has no answer for a class.
spec fn unanswered(memo: Seq<(Id, Option<Id>)>, class: Id) -> bool {
    forall|i: int| 0 <= i < memo.len() ==> (#[trigger] memo[i]).0 != class
}

/// The first answer for a class.
fn find_answer(memo: &Vec<(Id, Option<Id>)>, class: Id) -> (r: Option<Option<Id>>)
    ensures
        r is None == unanswered(memo@, class),
        r matches Some(a) ==> exists|i: int|
            0 <= i < memo@.len() && #[trigger] memo@[i] == (class, a) && unanswered(
                memo@.take(i),
                class,
            ),
{
    let mut i: usize = 0;
    while i < memo.len()
        invariant
            i <= memo@.len(),
            forall|k: int| 0 <= k < i ==> (#[trigger] memo@[k]).0 != class,
        decreases memo.len() - i,
    {
        if memo[i].0 == class {
            assert(memo@[i as int] == (class, memo@[i as int].1));
            assert(unanswered(memo@.take(i as int), class));
            return Some(memo[i].1);
        }
        i += 1;
    }
    None
}

fn on_path(seen: &Vec<Id>, class: Id) -> (r: bool)
    ensures
        r == seen@.contains(class),
{
    let mut i: usize = 0;
    while i < seen.len()
        invariant
            i <= seen@.len(),
            forall|k: int| 0 <= k < i ==> seen@[k] != class,
        decreases seen.len() - i,
    {
        if seen[i] == class {
            return true;
        }
        i += 1;
    }
    false
}

impl ProjApplier {
    fn direct(&self, ts: &Vec<Symbolic>, Ghost(all): Ghost<Seq<Node>>) -> (r: Option<Id>)
        requires
            ts@.len() == all.len(),
            forall|k: int| 0 <= k < ts@.len() ==> (#[trigger] ts@[k])@ == all[k],
        ensures
            r == direct_field(self.ctor, self.index, all),
    {
        let mut i: usize = 0;
        proof {
            assert(all.skip(0) =~= all);
        }
        while i < ts.len()
            invariant
                i <= ts@.len(),
                ts@.len() == all.len(),
                forall|k: int| 0 <= k < ts@.len() ==> (#[trigger] ts@[k])@ == all[k],
                direct_field(self.ctor, self.index, all) == direct_field(
                    self.ctor,
                    self.index,
                    all.skip(i as int),
                ),
            decreases ts.len() - i,
        {
            proof {
                assert(all.skip(i as int)[0] == all[i as int]);
                assert(all.skip(i as int).drop_first() =~= all.skip(i + 1));
                assert(ts@[i as int]@ == all[i as int]);
            }
            if let Symbolic::FuncApp(f, _, args) = &ts[i] {
                if *f == self.ctor && self.index < args.len() {
                    return Some(args[self.index]);
                }
            }
            i += 1;
        }
        None
    }

    /// The class of the field of `class`, with conditional terms added as needed,
    /// and whether the answer is final. The field of a choice is the choice of the
    /// fields. Answers are kept in `memo`, but for those that met a class of `seen`,
    /// the path to this call.
    fn project(
        &self,
        g: &mut Graph,
        class: Id,
        memo: &mut Vec<(Id, Option<Id>)>,
        seen: &mut Vec<Id>,
        Ghost(g0): Ghost<Graph>,
    ) -> (r: (Option<Id>, bool))
        requires
            g0.wf(),
            old(g).wf(),
            g0.grows_to(*old(g)),
            keeps_classes(g0, *old(g)),
            g0.has(class),
            answers_hold(*self, g0, *old(g), old(memo)@),
            old(seen)@.no_duplicates(),
            forall|i: int| 0 <= i < old(seen)@.len() ==> g0.has(#[trigger] old(seen)@[i]),
        ensures
            final(g).wf(),
            old(g).grows_to(*final(g)),
            keeps_classes(*old(g), *final(g)),
            final(g).facts() == old(g).facts(),
            final(seen)@ == old(seen)@,
            answers_hold(*self, g0, *final(g), final(memo)@),
            r.0 matches Some(f) ==> final(g).has(f) && projects(
                *final(g),
                self.accessor,
                self.ctor,
                self.index,
                class,
                f,
            ),
            r.0 is Some ==> has_field(g0, self.ctor, self.index, class),
            r.0 is None && r.1 ==> forall|d: nat| !projectable(g0, self.ctor, self.index, class, d),
            r.0 is None ==> forall|d: nat| #[trigger]
                projectable(g0, self.ctor, self.index, class, d) ==> some_projectable(
                    g0,
                    self.ctor,
                    self.index,
                    old(seen)@,
                    d,
                ),
        decreases g0.len() - old(seen)@.len(), 0int,
    {
        broadcast use group_grows;

        let ghost start = *g;
        let ghost given = class;
        let ghost path = seen@;
        let class = g.find(class);
        proof {
            lemma_grows_refl(start);
            assert(start.canon(given) == g0.canon(given));
            lemma_canon_in(g0, given);
            assert forall|d: nat| #[trigger]
                projectable(g0, self.ctor, self.index, given, d) == projectable(
                    g0,
                    self.ctor,
                    self.index,
                    class,
                    d,
                ) by {}
        }
        if let Some(answer) = find_answer(memo, class) {
            proof {
                let i = choose|i: int|
                    0 <= i < memo@.len() && #[trigger] memo@[i] == (class, answer);
                match answer {
                    Some(f) => {
                        lemma_projects_canon(*self, *g, given, class, f);
                        lemma_has_field_canon(g0, self.ctor, self.index, class, given);
                    },
                    None => {
                        assert(memo@[i].1 is None);
                        assert forall|d: nat| !projectable(
                            g0,
                            self.ctor,
                            self.index,
                            given,
                            d,
                        ) by {
                            assert(!projectable(g0, self.ctor, self.index, memo@[i].0, d));
                        }
                    },
                }
            }
            return (answer, true);
        }
        if on_path(seen, class) {
            proof {
                let i = choose|i: int| 0 <= i < seen@.len() && seen@[i] == class;
                assert forall|d: nat| #[trigger]
                    projectable(g0, self.ctor, self.index, given, d) implies some_projectable(
                    g0,
                    self.ctor,
                    self.index,
                    path,
                    d,
                ) by {
                    assert(projectable(g0, self.ctor, self.index, seen@[i], d));
                }
            }
            return (None, false);
        }
        proof {
            assert(path.push(class).no_duplicates());
            lemma_distinct_below(path.push(class), g0.len());
        }
        seen.push(class);
        let ts = g.terms_of(class);
        let ghost all = g0.terms(class);
        proof {
            assert(start.terms(class) == all);
        }
        let mut result: Option<Id> = self.direct(&ts, Ghost(all));
        let mut acyclic: bool = true;
        proof {
            if result is Some {
                let k = lemma_direct(self.ctor, self.index, all);
                lemma_terms_in(g0, class, k);
                assert(projectable(g0, self.ctor, self.index, class, 1));
                lemma_projects_direct(
                    *g,
                    self.accessor,
                    self.ctor,
                    self.index,
                    class,
                    result.unwrap(),
                );
            }
        }
        let mut i: usize = 0;
        while i < ts.len() && result.is_none()
            invariant
                g0.wf(),
                g.wf(),
                g0.has(class),
                start.grows_to(*g),
                g0.grows_to(start),
                keeps_classes(g0, start),
                keeps_classes(start, *g),
                g.facts() == start.facts(),
                answers_hold(*self, g0, *g, memo@),
                path.len() < g0.len(),
                seen@ == path.push(class),
                seen@.no_duplicates(),
                forall|k: int| 0 <= k < seen@.len() ==> g0.has(#[trigger] seen@[k]),
                path.len() == old(seen)@.len(),
                all == g0.terms(class),
                i <= ts@.len(),
                ts@.len() == all.len(),
                forall|k: int| 0 <= k < ts@.len() ==> (#[trigger] ts@[k])@ == all[k],
                result matches Some(f) ==> g.has(f) && projects(
                    *g,
                    self.accessor,
                    self.ctor,
                    self.index,
                    class,
                    f,
                ),
                result is Some ==> has_field(g0, self.ctor, self.index, class),
                result is None ==> direct_field(self.ctor, self.index, all) is None,
                result is None ==> forall|k: int, d: nat|
                    0 <= k < i && #[trigger] arms(g0, self.ctor, self.index, class, k, d)
                        ==> !acyclic && some_projectable(
                        g0,
                        self.ctor,
                        self.index,
                        path.push(class),
                        d,
                    ),
            decreases ts.len() - i,
        {
            proof {
                lemma_terms_in(g0, class, i as int);
                assert(ts@[i as int]@ == all[i as int]);
            }
            if let Symbolic::Ite(ids) = &ts[i] {
                let c: Id = ids[0];
                let t: Id = ids[1];
                let e: Id = ids[2];
                proof {
                    assert(all[i as int].args[0] == c);
                    assert(all[i as int].args[1] == t);
                    assert(all[i as int].args[2] == e);
                    assert(g0.has(c) && g0.has(t) && g0.has(e));
                    lemma_keeps_trans(g0, start, *g);
                }
                let ghost before = *g;
                let triple: [Id; 3] = [c, t, e];
                proof {
                    assert(triple@ =~= all[i as int].args);
                }
                let (r, a) = self.try_arms(
                    g,
                    triple,
                    memo,
                    seen,
                    Ghost(g0),
                    Ghost(class),
                    Ghost(i as int),
                );
                proof {
                    lemma_keeps_trans(start, before, *g);
                }
                acyclic = acyclic && a;
                result = r;
            }
            i += 1;
        }
        seen.pop();
        proof {
            assert(seen@ =~= path);
            if result is None {
                assert forall|d: nat| #[trigger]
                    projectable(g0, self.ctor, self.index, given, d) implies some_projectable(
                    g0,
                    self.ctor,
                    self.index,
                    path,
                    d,
                ) by {
                    lemma_through_path(g0, self.ctor, self.index, class, path, d);
                }
                if acyclic {
                    assert forall|d: nat| !projectable(g0, self.ctor, self.index, class, d) by {
                        lemma_never(g0, self.ctor, self.index, class, d);
                    }
                }
            } else {
                assert(g.canon(given) == start.canon(given));
                lemma_projects_canon(*self, *g, given, class, result.unwrap());
                lemma_has_field_canon(g0, self.ctor, self.index, class, given);
            }
        }
        if acyclic {
            memo.push((class, result));
        }
        (result, acyclic)
    }

    /// The choice of the fields of two arms.
    fn try_arms(
        &self,
        g: &mut Graph,
        ids: [Id; 3],
        memo: &mut Vec<(Id, Option<Id>)>,
        seen: &mut Vec<Id>,
        Ghost(g0): Ghost<Graph>,
        Ghost(class): Ghost<Id>,
        Ghost(k): Ghost<int>,
    ) -> (r: (Option<Id>, bool))
        requires
            g0.wf(),
            old(g).wf(),
            g0.grows_to(*old(g)),
            keeps_classes(g0, *old(g)),
            g0.has(class),
            0 <= k < g0.terms(class).len(),
            g0.terms(class)[k].op == OpV::Ite,
            g0.terms(class)[k].args == ids@,
            answers_hold(*self, g0, *old(g), old(memo)@),
            old(seen)@.no_duplicates(),
            forall|i: int| 0 <= i < old(seen)@.len() ==> g0.has(#[trigger] old(seen)@[i]),
        ensures
            final(g).wf(),
            old(g).grows_to(*final(g)),
            keeps_classes(*old(g), *final(g)),
            final(g).facts() == old(g).facts(),
            final(seen)@ == old(seen)@,
            answers_hold(*self, g0, *final(g), final(memo)@),
            r.0 matches Some(f) ==> final(g).has(f) && projects(
                *final(g),
                self.accessor,
                self.ctor,
                self.index,
                class,
                f,
            ),
            r.0 is Some ==> has_field(g0, self.ctor, self.index, class),
            r.0 is None && r.1 ==> forall|d: nat| !arms(g0, self.ctor, self.index, class, k, d),
            r.0 is None ==> forall|d: nat| #[trigger]
                arms(g0, self.ctor, self.index, class, k, d) ==> some_projectable(
                    g0,
                    self.ctor,
                    self.index,
                    old(seen)@,
                    d,
                ),
        decreases g0.len() - old(seen)@.len(), 1int,
    {
        broadcast use {group_grows, lemma_denotes_self};

        let ghost start = *g;
        proof {
            lemma_grows_refl(start);
            lemma_terms_in(g0, class, k);
            assert(ids@[0] == ids[0] && ids@[1] == ids[1] && ids@[2] == ids[2]);
            assert(g0.has(g0.terms(class)[k].args[0]));
            assert(g0.has(g0.terms(class)[k].args[1]));
            assert(g0.has(g0.terms(class)[k].args[2]));
        }
        let (then, ta) = self.project(g, ids[1], memo, seen, Ghost(g0));
        let ghost mid = *g;
        proof {
            lemma_keeps_trans(g0, start, mid);
        }
        let t = match then {
            Some(t) => t,
            None => {
                return (None, ta);
            },
        };
        let (other, ea) = self.project(g, ids[2], memo, seen, Ghost(g0));
        let ghost last = *g;
        proof {
            lemma_keeps_trans(start, mid, last);
            lemma_keeps_trans(g0, start, last);
            lemma_projects_grows(mid, last, self.accessor, self.ctor, self.index, ids[1], t);
        }
        let e = match other {
            Some(e) => e,
            None => {
                return (None, ta && ea);
            },
        };
        let f = g.ite_of(
            ids[0],
            t,
            e,
            Ghost(Tm::Class(ids[0])),
            Ghost(Tm::Class(t)),
            Ghost(Tm::Class(e)),
        );
        proof {
            lemma_keeps_trans(start, last, *g);
            lemma_projects_grows(last, *g, self.accessor, self.ctor, self.index, ids[1], t);
            lemma_projects_grows(last, *g, self.accessor, self.ctor, self.index, ids[2], e);
            lemma_keeps_trans(g0, last, *g);
            assert(g.terms(class) == g0.terms(class));
            lemma_projects_ite(*g, self.accessor, self.ctor, self.index, class, k, t, e, f);
            lemma_has_field_ite(g0, self.ctor, self.index, class, k);
            lemma_answers_grow(*self, g0, last, *g, memo@);
        }
        (Some(f), ta && ea)
    }
}

proof fn lemma_has_field_canon(g: Graph, ctor: FuncId, index: usize, a: Id, b: Id)
    requires
        g.terms(a) == g.terms(b),
        has_field(g, ctor, index, a),
    ensures
        has_field(g, ctor, index, b),
{
    let d = choose|d: nat| projectable(g, ctor, index, a, d);
    assert(projectable(g, ctor, index, b, d));
}

proof fn lemma_projects_canon(p: ProjApplier, g: Graph, given: Id, class: Id, f: Id)
    requires
        g.wf(),
        g.has(given),
        g.canon(given) == class,
        projects(g, p.accessor, p.ctor, p.index, class, f),
    ensures
        projects(g, p.accessor, p.ctor, p.index, given, f),
{
    if !g.full() {
        assert forall|m: Model, s: Seq<TypeV>|
            #![trigger g.models(m), (m.func)(p.accessor, s, seq![m.at(given)])]
            g.models(m) && reads_field(m, p.accessor, p.ctor, p.index) implies (m.func)(
            p.accessor,
            s,
            seq![m.at(given)],
        ) == m.at(f) by {
            lemma_canon_value(g, m, given);
            assert((m.func)(p.accessor, s, seq![m.at(class)]) == m.at(f));
        }
    }
}

/// What applying the projection rule to `accessor(x)` in `class` does: where the
/// field of `x` can be read, the class is equated with it.
pub open spec fn projected(p: ProjApplier, g: Graph, h: Graph, class: Id, x: Id) -> bool {
    if has_field(g, p.ctor, p.index, x) {
        exists|mid: Graph, f: Id|
            #![trigger projects(mid, p.accessor, p.ctor, p.index, x, f)]
            extended(g, mid) && mid.has(f) && projects(mid, p.accessor, p.ctor, p.index, x, f)
                && h.defs() == mid.defs() && h.full() == mid.full() && (h.full() || h.facts() == g.facts().push(
                (Tm::Class(class), Tm::Class(f)),
            ))
    } else {
        extended(g, h)
    }
}

impl ProjApplier {
    /// Equates `accessor(x)`, a term of `class`, with the field of `x`, where that
    /// can be read, and gives the classes that changed.
    pub fn apply_one(&self, g: &mut Graph, class: Id, x: Id) -> (changed: Vec<Id>)
        requires
            old(g).wf(),
            old(g).has(class),
            old(g).has(x),
        ensures
            final(g).wf(),
            old(g).grows_to(*final(g)),
            coarser(*old(g), *final(g)),
            projected(*self, *old(g), *final(g), class, x),
            changed@.len() == 0 ==> keeps_classes(*old(g), *final(g)),
    {
        broadcast use {group_grows, lemma_denotes_self};

        let ghost start = *g;
        let mut memo: Vec<(Id, Option<Id>)> = Vec::new();
        let mut seen: Vec<Id> = Vec::new();
        let mut changed: Vec<Id> = Vec::new();
        proof {
            lemma_grows_refl(start);
        }
        let (found, _) = self.project(g, x, &mut memo, &mut seen, Ghost(start));
        let ghost mid = *g;
        proof {
            lemma_keeps_coarser(start, mid);
            if found is None && has_field(start, self.ctor, self.index, x) {
                let d = choose|d: nat| projectable(start, self.ctor, self.index, x, d);
                assert(some_projectable(start, self.ctor, self.index, Seq::<Id>::empty(), d));
            }
        }
        if let Some(f) = found {
            let news = g.state(class, f, Ghost(Tm::Class(class)), Ghost(Tm::Class(f)));
            proof {
                lemma_coarser_trans(start, mid, *g);
                if !news {
                    if !mid.full() {
                        lemma_keeps_trans(start, mid, *g);
                    }
                }
                assert(projects(mid, self.accessor, self.ctor, self.index, x, f));
            }
            if news {
                changed.push(g.find(class));
            }
        }
        changed
    }
}

/// The projection rule is sound where the accessor reads the constructor's argument
/// and the class is the accessor on `x`.
pub proof fn law_proj_sound(
    p: ProjApplier,
    g: Graph,
    h: Graph,
    class: Id,
    x: Id,
    tys: Seq<TypeV>,
)
    requires
        g.wf(),
        g.grows_to(h),
        forall|m: Model| #[trigger]
            g.models(m) ==> m.at(class) == (m.func)(p.accessor, tys, seq![m.at(x)]),
        projected(p, g, h, class, x),
    ensures
        follows(g, h, |m: Model| reads_field(m, p.accessor, p.ctor, p.index)),
{
    let b = |m: Model| reads_field(m, p.accessor, p.ctor, p.index);
    if !h.full() && has_field(g, p.ctor, p.index, x) {
        let (mid, f) = choose|mid: Graph, f: Id|
            #![trigger projects(mid, p.accessor, p.ctor, p.index, x, f)]
            extended(g, mid) && mid.has(f) && projects(mid, p.accessor, p.ctor, p.index, x, f)
                && h.defs() == mid.defs() && h.full() == mid.full() && (h.full() || h.facts() == g.facts().push(
                (Tm::Class(class), Tm::Class(f)),
            ));
        let fact = (Tm::Class(class), Tm::Class(f));
        assert forall|m: Model|
            #![trigger theory(h.defs(), g.facts(), m)]
            theory(h.defs(), g.facts(), m) && well_sorted(h.defs(), m) && b(m) implies h.models(
            m,
        ) by {
            lemma_theory_prefix(g.defs(), h.defs(), g.facts(), m);
            assert(g.models(m));
            assert(mid.models(m));
            assert((m.func)(p.accessor, tys, seq![m.at(x)]) == m.at(f));
            assert(equation_holds(m, fact));
            lemma_theory_grows(h.defs(), g.facts(), seq![fact], m);
            assert(g.facts() + seq![fact] =~= g.facts().push(fact));
        }
    }
}

} // verus!
