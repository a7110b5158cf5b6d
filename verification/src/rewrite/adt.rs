//! ADT rules: tags, injectivity and projection.

use crate::graph::{keeps_classes, lemma_term_value, Graph};
use crate::lang::{FuncId, Id, Node, OpV, Symbolic};
use crate::model::{lemma_tm_lit, t_lit, Model, Tm};
use crate::nums::Int;
use crate::rewrite::gather::{
    all_hold, gather, lemma_all_hold_concat, lemma_gather_holds, lemma_gather_step,
};
use crate::rewrite::pins::{
    append_pins, assert_pins, asserted, empty_pins, merges, pin_facts, pins_in, push_if, Pin,
};
use crate::terms::Expr;
use crate::vmir::{same_types, Literal, TypeV, Value};
use vstd::prelude::*;

verus! {

/// The tag of a constructor, if it is among those listed.
pub open spec fn tag_of(tags: Seq<(FuncId, usize)>, f: FuncId) -> Option<usize>
    decreases tags.len(),
{
    if tags.len() == 0 {
        None
    } else if tags[0].0 == f {
        Some(tags[0].1)
    } else {
        tag_of(tags.drop_first(), f)
    }
}

/// The tag of the first listed constructor among terms.
pub open spec fn first_tag(tags: Seq<(FuncId, usize)>, ts: Seq<Node>) -> Option<usize>
    decreases ts.len(),
{
    if ts.len() == 0 {
        None
    } else {
        match ts[0].op {
            OpV::FuncApp(f, _) if tag_of(tags, f) is Some => tag_of(tags, f),
            _ => first_tag(tags, ts.drop_first()),
        }
    }
}

/// A tag applied to a constructed value is the constructor's tag.
pub open spec fn tag_term(
    g: Graph,
    tag_fn: FuncId,
    tags: Seq<(FuncId, usize)>,
    class: Id,
    n: Node,
) -> Seq<(Tm, Tm)> {
    match n.op {
        OpV::FuncApp(f, _) if f == tag_fn && n.args.len() == 1 => match first_tag(
            tags,
            g.terms(n.args[0]),
        ) {
            Some(t) => seq![(Tm::Class(class), t_lit(Value::Int(t as int)))],
            None => Seq::empty(),
        },
        _ => Seq::empty(),
    }
}

pub open spec fn tag_facts(g: Graph, tag_fn: FuncId, tags: Seq<(FuncId, usize)>, class: Id) -> Seq<
    (Tm, Tm),
> {
    gather(g.terms(class), |n: Node| tag_term(g, tag_fn, tags, class, n))
}

/// Tags are what the constructors are listed with.
pub open spec fn tags_hold(m: Model, tag_fn: FuncId, tags: Seq<(FuncId, usize)>) -> bool {
    forall|i: int, s: Seq<TypeV>, t: Seq<TypeV>, a: Seq<Value>|
        #![trigger (m.func)(tag_fn, s, seq![(m.func)(tags[i].0, t, a)])]
        0 <= i < tags.len() ==> (m.func)(tag_fn, s, seq![(m.func)(tags[i].0, t, a)]) == Value::Int(
            tags[i].1 as int,
        )
}

fn find_tag(tags: &Vec<(FuncId, usize)>, f: FuncId) -> (r: Option<usize>)
    ensures
        r == tag_of(tags@, f),
{
    let mut i: usize = 0;
    proof {
        assert(tags@.skip(0) =~= tags@);
    }
    while i < tags.len()
        invariant
            i <= tags@.len(),
            tag_of(tags@, f) == tag_of(tags@.skip(i as int), f),
        decreases tags.len() - i,
    {
        proof {
            assert(tags@.skip(i as int)[0] == tags@[i as int]);
            assert(tags@.skip(i as int).drop_first() =~= tags@.skip(i + 1));
        }
        if tags[i].0 == f {
            return Some(tags[i].1);
        }
        i += 1;
    }
    None
}

fn class_tag(g: &Graph, tags: &Vec<(FuncId, usize)>, id: Id) -> (r: Option<usize>)
    requires
        g.wf(),
        g.has(id),
    ensures
        r == first_tag(tags@, g.terms(id)),
{
    let ts = g.terms_of(id);
    let ghost all = g.terms(id);
    let mut i: usize = 0;
    proof {
        assert(all.skip(0) =~= all);
    }
    while i < ts.len()
        invariant
            i <= ts@.len(),
            all == g.terms(id),
            ts@.len() == all.len(),
            forall|k: int| 0 <= k < ts@.len() ==> (#[trigger] ts@[k])@ == all[k],
            first_tag(tags@, all) == first_tag(tags@, all.skip(i as int)),
        decreases ts.len() - i,
    {
        proof {
            assert(all.skip(i as int)[0] == all[i as int]);
            assert(all.skip(i as int).drop_first() =~= all.skip(i + 1));
            assert(ts@[i as int]@ == all[i as int]);
        }
        if let Symbolic::FuncApp(f, _, _) = &ts[i] {
            if let Some(t) = find_tag(tags, *f) {
                return Some(t);
            }
        }
        i += 1;
    }
    None
}

/// The tag rule of an ADT.
pub struct TagApplier {
    pub tag_fn: FuncId,
    pub ctor_tags: Vec<(FuncId, usize)>,
}

impl TagApplier {
    pub fn derive(&self, g: &Graph, class: Id) -> (out: Vec<Pin>)
        requires
            g.wf(),
            g.has(class),
        ensures
            pins_in(out@, *g),
            pin_facts(out@) == tag_facts(*g, self.tag_fn, self.ctor_tags@, class),
    {
        let mut out = empty_pins();
        let ts = g.terms_of(class);
        let ghost all = g.terms(class);
        let ghost f = |n: Node| tag_term(*g, self.tag_fn, self.ctor_tags@, class, n);
        let mut i: usize = 0;
        proof {
            assert(all.take(0) =~= Seq::<Node>::empty());
        }
        while i < ts.len()
            invariant
                g.wf(),
                g.has(class),
                i <= ts@.len(),
                ts@.len() == all.len(),
                f == (|n: Node| tag_term(*g, self.tag_fn, self.ctor_tags@, class, n)),
                forall|k: int| 0 <= k < ts@.len() ==> (#[trigger] ts@[k])@ == all[k],
                forall|k: int| 0 <= k < ts@.len() ==> g.has_all((#[trigger] ts@[k])@.args),
                pins_in(out@, *g),
                pin_facts(out@) == gather(all.take(i as int), f),
            decreases ts.len() - i,
        {
            let ghost before = pin_facts(out@);
            proof {
                lemma_gather_step(all, f, i as int);
                assert(g.has_all(ts@[i as int]@.args));
            }
            if let Symbolic::FuncApp(h, _, args) = &ts[i] {
                if *h == self.tag_fn && args.len() == 1 {
                    proof {
                        assert(g.has(all[i as int].args[0]));
                    }
                    if let Some(t) = class_tag(g, &self.ctor_tags, args[0]) {
                        let pin = Pin::new(
                            Expr::Class(class),
                            Expr::Lit(Literal::Int(Int::from_usize(t))),
                        );
                        push_if(&mut out, true, pin);
                    }
                }
            }
            proof {
                assert(pin_facts(out@) =~= before + f(all[i as int]));
            }
            i += 1;
        }
        proof {
            assert(all.take(all.len() as int) =~= all);
        }
        out
    }

    /// Asserts the tags of a class, and gives the classes that changed.
    pub fn apply_one(&self, g: &mut Graph, class: Id) -> (changed: Vec<Id>)
        requires
            old(g).wf(),
            old(g).has(class),
        ensures
            asserted(*old(g), *final(g), tag_facts(*old(g), self.tag_fn, self.ctor_tags@, class)),
            changed@.len() == 0 ==> keeps_classes(*old(g), *final(g)),
            changed@.len() > 0 ==> merges(*old(g), *final(g)),
    {
        let pins = self.derive(g, class);
        assert_pins(g, &pins)
    }
}

proof fn lemma_tag_of(tags: Seq<(FuncId, usize)>, f: FuncId) -> (i: int)
    requires
        tag_of(tags, f) is Some,
    ensures
        0 <= i < tags.len(),
        tags[i].0 == f,
        tag_of(tags, f) == Some(tags[i].1),
    decreases tags.len(),
{
    if tags[0].0 == f {
        0
    } else {
        let i = lemma_tag_of(tags.drop_first(), f);
        i + 1
    }
}

proof fn lemma_first_tag(tags: Seq<(FuncId, usize)>, ts: Seq<Node>) -> (k: int)
    requires
        first_tag(tags, ts) is Some,
    ensures
        0 <= k < ts.len(),
        ts[k].op is FuncApp,
        tag_of(tags, ts[k].op->FuncApp_0) == first_tag(tags, ts),
    decreases ts.len(),
{
    match ts[0].op {
        OpV::FuncApp(f, _) if tag_of(tags, f) is Some => 0,
        _ => {
            let k = lemma_first_tag(tags, ts.drop_first());
            k + 1
        },
    }
}

/// The tag rule is sound where tags are what the constructors are listed with.
pub proof fn law_tag_sound(
    g: Graph,
    m: Model,
    tag_fn: FuncId,
    tags: Seq<(FuncId, usize)>,
    class: Id,
)
    requires
        g.wf(),
        g.models(m),
        tags_hold(m, tag_fn, tags),
        g.has(class),
    ensures
        all_hold(m, tag_facts(g, tag_fn, tags, class)),
{
    let f = |n: Node| tag_term(g, tag_fn, tags, class, n);
    assert forall|k: int| 0 <= k < g.terms(class).len() implies all_hold(
        m,
        f(#[trigger] g.terms(class)[k]),
    ) by {
        let n = g.terms(class)[k];
        lemma_term_value(g, m, class, k);
        if let OpV::FuncApp(h, s) = n.op {
            if h == tag_fn && n.args.len() == 1 && first_tag(tags, g.terms(n.args[0])) is Some {
                let x = n.args[0];
                assert(g.has(x));
                let j = lemma_first_tag(tags, g.terms(x));
                lemma_term_value(g, m, x, j);
                let c = g.terms(x)[j];
                let i = lemma_tag_of(tags, c.op->FuncApp_0);
                assert(m.all(n.args) =~= seq![m.at(x)]);
                assert((m.func)(
                    tag_fn,
                    s,
                    seq![(m.func)(tags[i].0, c.op->FuncApp_1, m.all(c.args))],
                ) == Value::Int(tags[i].1 as int));
                lemma_tm_lit(m, Value::Int(tags[i].1 as int));
            }
        }
    }
    lemma_gather_holds(m, g.terms(class), f);
}

/// The first term with an operator.
pub open spec fn first_with(ts: Seq<Node>, op: OpV) -> Option<Node>
    decreases ts.len(),
{
    if ts.len() == 0 {
        None
    } else if ts[0].op == op {
        Some(ts[0])
    } else {
        first_with(ts.drop_first(), op)
    }
}

/// Equations between two lists, position by position, as far as both go.
pub open spec fn zip_facts(a: Seq<Id>, b: Seq<Id>) -> Seq<(Tm, Tm)> {
    let n = if a.len() < b.len() {
        a.len()
    } else {
        b.len()
    };
    Seq::new(n, |i: int| (Tm::Class(a[i]), Tm::Class(b[i])))
}

/// Two applications of one constructor, at one instantiation, in one class have equal
/// arguments. Every later application is held against the first.
pub open spec fn inj_facts(ctor: FuncId, ts: Seq<Node>) -> Seq<(Tm, Tm)>
    decreases ts.len(),
{
    if ts.len() == 0 {
        Seq::empty()
    } else {
        let n = ts.last();
        inj_facts(ctor, ts.drop_last()) + match n.op {
            OpV::FuncApp(f, _) if f == ctor => match first_with(ts.drop_last(), n.op) {
                Some(rep) => zip_facts(rep.args, n.args),
                None => Seq::empty(),
            },
            _ => Seq::empty(),
        }
    }
}

/// A constructor is injective.
pub open spec fn injective(m: Model, ctor: FuncId) -> bool {
    forall|s: Seq<TypeV>, a: Seq<Value>, b: Seq<Value>|
        #![trigger (m.func)(ctor, s, a), (m.func)(ctor, s, b)]
        (m.func)(ctor, s, a) == (m.func)(ctor, s, b) ==> a == b
}

fn zip_pins(g: &Graph, a: &Vec<Id>, b: &Vec<Id>) -> (out: Vec<Pin>)
    requires
        g.has_all(a@),
        g.has_all(b@),
    ensures
        pins_in(out@, *g),
        pin_facts(out@) == zip_facts(a@, b@),
{
    let mut out = empty_pins();
    let mut i: usize = 0;
    proof {
        assert(zip_facts(a@, b@).take(0) =~= Seq::<(Tm, Tm)>::empty());
    }
    while i < a.len() && i < b.len()
        invariant
            g.has_all(a@),
            g.has_all(b@),
            i <= a@.len(),
            i <= b@.len(),
            pins_in(out@, *g),
            pin_facts(out@) == zip_facts(a@, b@).take(i as int),
        decreases a.len() - i,
    {
        proof {
            assert(g.has(a@[i as int]));
            assert(g.has(b@[i as int]));
        }
        let ghost before = pin_facts(out@);
        push_if(&mut out, true, Pin::same(a[i], b[i]));
        proof {
            assert(pin_facts(out@) =~= zip_facts(a@, b@).take(i + 1));
        }
        i += 1;
    }
    proof {
        assert(zip_facts(a@, b@).take(i as int) =~= zip_facts(a@, b@));
    }
    out
}

/// The injectivity rule of a constructor.
pub struct InjApplier {
    pub ctor: FuncId,
}

impl InjApplier {
    pub fn derive(&self, g: &Graph, class: Id) -> (out: Vec<Pin>)
        requires
            g.wf(),
            g.has(class),
        ensures
            pins_in(out@, *g),
            pin_facts(out@) == inj_facts(self.ctor, g.terms(class)),
    {
        let mut out = empty_pins();
        let ts = g.terms_of(class);
        let ghost all = g.terms(class);
        let mut i: usize = 0;
        proof {
            assert(all.take(0) =~= Seq::<Node>::empty());
        }
        while i < ts.len()
            invariant
                g.wf(),
                i <= ts@.len(),
                ts@.len() == all.len(),
                forall|k: int| 0 <= k < ts@.len() ==> (#[trigger] ts@[k])@ == all[k],
                forall|k: int| 0 <= k < ts@.len() ==> g.has_all((#[trigger] ts@[k])@.args),
                pins_in(out@, *g),
                pin_facts(out@) == inj_facts(self.ctor, all.take(i as int)),
            decreases ts.len() - i,
        {
            let ghost before = pin_facts(out@);
            let ghost prefix = all.take(i as int);
            let ghost n = all[i as int];
            proof {
                assert(all.take(i + 1).drop_last() =~= prefix);
                assert(all.take(i + 1).last() == n);
                assert(g.has_all(ts@[i as int]@.args));
            }
            let mut done: bool = false;
            if let Symbolic::FuncApp(f, tys, args) = &ts[i] {
                if *f == self.ctor {
                    let mut j: usize = 0;
                    proof {
                        assert(prefix.skip(0) =~= prefix);
                    }
                    while j < i && !done
                        invariant
                            g.wf(),
                            j <= i < ts@.len(),
                            ts@.len() == all.len(),
                            prefix == all.take(i as int),
                            n == all[i as int],
                            *f == self.ctor,
                            n.op == OpV::FuncApp(*f, crate::vmir::types_view(tys@)),
                            n.args == args@,
                            g.has_all(args@),
                            forall|k: int| 0 <= k < ts@.len() ==> (#[trigger] ts@[k])@ == all[k],
                            forall|k: int|
                                0 <= k < ts@.len() ==> g.has_all((#[trigger] ts@[k])@.args),
                            pins_in(out@, *g),
                            !done ==> first_with(prefix, n.op) == first_with(
                                prefix.skip(j as int),
                                n.op,
                            ) && pin_facts(out@) == before,
                            done ==> first_with(prefix, n.op) is Some && pin_facts(out@) == before
                                + zip_facts(first_with(prefix, n.op).unwrap().args, n.args),
                        decreases i - j,
                    {
                        proof {
                            assert(prefix.skip(j as int)[0] == all[j as int]);
                            assert(prefix.skip(j as int).drop_first() =~= prefix.skip(j + 1));
                        }
                        if let Symbolic::FuncApp(h, s, rep) = &ts[j] {
                            if *h == *f && same_types(s, tys) {
                                proof {
                                    assert(g.has_all(ts@[j as int]@.args));
                                }
                                append_pins(&mut out, zip_pins(g, rep, args));
                                done = true;
                            }
                        }
                        j += 1;
                    }
                    proof {
                        if !done {
                            assert(first_with(prefix, n.op) is None);
                        }
                    }
                }
            }
            proof {
                assert(pin_facts(out@) =~= inj_facts(self.ctor, all.take(i + 1)));
            }
            i += 1;
        }
        proof {
            assert(all.take(all.len() as int) =~= all);
        }
        out
    }

    /// Asserts the equalities of arguments in a class, and gives the classes that
    /// changed.
    pub fn apply_one(&self, g: &mut Graph, class: Id) -> (changed: Vec<Id>)
        requires
            old(g).wf(),
            old(g).has(class),
        ensures
            asserted(*old(g), *final(g), inj_facts(self.ctor, old(g).terms(class))),
            changed@.len() == 0 ==> keeps_classes(*old(g), *final(g)),
            changed@.len() > 0 ==> merges(*old(g), *final(g)),
    {
        let pins = self.derive(g, class);
        assert_pins(g, &pins)
    }
}

proof fn lemma_first_with(ts: Seq<Node>, op: OpV) -> (k: int)
    requires
        first_with(ts, op) is Some,
    ensures
        0 <= k < ts.len(),
        ts[k].op == op,
        first_with(ts, op) == Some(ts[k]),
    decreases ts.len(),
{
    if ts[0].op == op {
        0
    } else {
        let k = lemma_first_with(ts.drop_first(), op);
        k + 1
    }
}

proof fn lemma_inj_prefix(g: Graph, m: Model, ctor: FuncId, class: Id, k: nat)
    requires
        g.wf(),
        g.models(m),
        injective(m, ctor),
        g.has(class),
        k <= g.terms(class).len(),
    ensures
        all_hold(m, inj_facts(ctor, g.terms(class).take(k as int))),
    decreases k,
{
    if k > 0 {
        let ts = g.terms(class).take(k as int);
        lemma_inj_prefix(g, m, ctor, class, (k - 1) as nat);
        let front = ts.drop_last();
        assert(front =~= g.terms(class).take(k - 1));
        let n = ts.last();
        lemma_term_value(g, m, class, k - 1);
        if n.op is FuncApp && n.op->FuncApp_0 == ctor && first_with(front, n.op) is Some {
            let j = lemma_first_with(front, n.op);
            let rep = front[j];
            assert(rep == g.terms(class)[j]);
            lemma_term_value(g, m, class, j);
            assert((m.func)(ctor, n.op->FuncApp_1, m.all(rep.args)) == (m.func)(
                ctor,
                n.op->FuncApp_1,
                m.all(n.args),
            ));
            let z = zip_facts(rep.args, n.args);
            assert forall|i: int| 0 <= i < z.len() implies crate::model::equation_holds(
                m,
                #[trigger] z[i],
            ) by {
                assert(m.all(rep.args)[i] == m.all(n.args)[i]);
            }
            lemma_all_hold_concat(m, inj_facts(ctor, front), z);
        } else {
            assert(inj_facts(ctor, ts) =~= inj_facts(ctor, front));
        }
    }
}

/// The injectivity rule is sound for an injective constructor.
pub proof fn law_inj_sound(g: Graph, m: Model, ctor: FuncId, class: Id)
    requires
        g.wf(),
        g.models(m),
        injective(m, ctor),
        g.has(class),
    ensures
        all_hold(m, inj_facts(ctor, g.terms(class))),
{
    lemma_inj_prefix(g, m, ctor, class, g.terms(class).len());
    assert(g.terms(class).take(g.terms(class).len() as int) =~= g.terms(class));
}

} // verus!
