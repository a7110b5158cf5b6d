//! `ite` reduction: the rule that decomposes and collapses conditionals.
//!
//! Two kinds of inference run over the same terms: decomposition, where the class's
//! known value constrains its parts, and reduction, where the parts' known values
//! collapse the class.

use crate::graph::{keeps_classes, lemma_canon_value, lemma_term_value, Graph};
use crate::lang::{Id, Node, OpV, Symbolic};
use crate::model::{equation_holds, lemma_tm_lit, t_bool, Model, Tm};
use crate::rewrite::pins::{
    append_pins, assert_pins, asserted, empty_pins, fact_if, merges, pin_facts, pins_in,
    plain_fact, plain_facts, push_if, Pin,
};
use crate::rewrite::prints::{apart, distinct_variants, lemma_told_apart, told_apart, Ctor};
use crate::terms::{lemma_known, only_truths};
use crate::vmir::Value;
use vstd::prelude::*;

verus! {

/// The class's proven truth value constrains the parts of `c ? t : e`.
pub open spec fn ite_parts(g: Graph, class: Id, c: Id, t: Id, e: Id) -> Seq<(Tm, Tm)> {
    let own = g.known_truth(class);
    let (tl, el) = (g.known_truth(t), g.known_truth(e));
    if own == Some(true) && el == Some(false) {
        // `a && b`, proven.
        seq![(Tm::Class(c), t_bool(true)), (Tm::Class(t), t_bool(true))]
    } else if own == Some(true) && tl == Some(false) && el == Some(true) {
        // `!a`, proven.
        seq![(Tm::Class(c), t_bool(false))]
    } else if own == Some(false) && tl == Some(false) && el == Some(true) {
        // `!a`, refuted.
        seq![(Tm::Class(c), t_bool(true))]
    } else if own == Some(false) && tl == Some(true) {
        // `a || b`, refuted.
        seq![(Tm::Class(c), t_bool(false)), (Tm::Class(e), t_bool(false))]
    } else {
        Seq::empty()
    }
}

/// An arm that the class's fingerprint rules out decides the condition.
pub open spec fn ite_arms(g: Graph, cs: Seq<Ctor>, class: Id, c: Id, t: Id, e: Id) -> Seq<
    (Tm, Tm),
> {
    fact_if(told_apart(g, cs, t, class), (Tm::Class(c), t_bool(false))) + fact_if(
        told_apart(g, cs, e, class),
        (Tm::Class(c), t_bool(true)),
    )
}

/// The parts of `c ? t : e` collapse the class.
pub open spec fn ite_whole(g: Graph, class: Id, c: Id, t: Id, e: Id) -> Seq<(Tm, Tm)> {
    let (tl, el) = (g.known_truth(t), g.known_truth(e));
    fact_if(g.known_truth(c) == Some(true), (Tm::Class(class), Tm::Class(t))) + fact_if(
        g.known_truth(c) == Some(false),
        (Tm::Class(class), Tm::Class(e)),
    ) + fact_if(t == e, (Tm::Class(class), Tm::Class(t))) + fact_if(
        tl == Some(true) && el == Some(false),
        (Tm::Class(class), Tm::Class(c)),
    ) + fact_if(t == c && el == Some(false), (Tm::Class(class), Tm::Class(c))) + fact_if(
        tl == Some(true) && e == c,
        (Tm::Class(class), Tm::Class(c)),
    ) + fact_if(t == c && el == Some(true), (Tm::Class(class), t_bool(true))) + fact_if(
        tl == Some(false) && e == c,
        (Tm::Class(class), t_bool(false)),
    )
}

/// What follows from one term of a class.
pub open spec fn ite_term_facts(g: Graph, cs: Seq<Ctor>, class: Id, n: Node) -> Seq<(Tm, Tm)> {
    if n.op is Ite && n.args.len() == 3 {
        let (c, t, e) = (g.canon(n.args[0]), g.canon(n.args[1]), g.canon(n.args[2]));
        ite_parts(g, class, c, t, e) + ite_arms(g, cs, class, c, t, e) + ite_whole(
            g,
            class,
            c,
            t,
            e,
        )
    } else {
        Seq::empty()
    }
}

/// What follows from terms of a class, in their order.
pub open spec fn ite_facts(g: Graph, cs: Seq<Ctor>, class: Id, ts: Seq<Node>) -> Seq<(Tm, Tm)>
    decreases ts.len(),
{
    if ts.len() == 0 {
        Seq::empty()
    } else {
        ite_facts(g, cs, class, ts.drop_last()) + ite_term_facts(g, cs, class, ts.last())
    }
}

fn ite_parts_pins(g: &Graph, class: Id, c: Id, t: Id, e: Id) -> (out: Vec<Pin>)
    requires
        g.wf(),
        g.has(class),
        g.has(c),
        g.has(t),
        g.has(e),
    ensures
        pins_in(out@, *g),
        pin_facts(out@) == ite_parts(*g, class, c, t, e),
{
    let own = g.known_bool(class);
    let tl = g.known_bool(t);
    let el = g.known_bool(e);
    let mut out = empty_pins();
    if own == Some(true) && el == Some(false) {
        push_if(&mut out, true, Pin::truth(c, true));
        push_if(&mut out, true, Pin::truth(t, true));
    } else if own == Some(true) && tl == Some(false) && el == Some(true) {
        push_if(&mut out, true, Pin::truth(c, false));
    } else if own == Some(false) && tl == Some(false) && el == Some(true) {
        push_if(&mut out, true, Pin::truth(c, true));
    } else if own == Some(false) && tl == Some(true) {
        push_if(&mut out, true, Pin::truth(c, false));
        push_if(&mut out, true, Pin::truth(e, false));
    }
    proof {
        assert(pin_facts(out@) =~= ite_parts(*g, class, c, t, e));
    }
    out
}

fn ite_arms_pins(g: &Graph, cs: &Vec<Ctor>, class: Id, c: Id, t: Id, e: Id) -> (out: Vec<Pin>)
    requires
        g.wf(),
        g.has(class),
        g.has(c),
        g.has(t),
        g.has(e),
    ensures
        pins_in(out@, *g),
        pin_facts(out@) == ite_arms(*g, cs@, class, c, t, e),
{
    let mut out = empty_pins();
    push_if(&mut out, apart(g, cs, t, class), Pin::truth(c, false));
    push_if(&mut out, apart(g, cs, e, class), Pin::truth(c, true));
    proof {
        assert(pin_facts(out@) =~= ite_arms(*g, cs@, class, c, t, e));
    }
    out
}

fn ite_whole_pins(g: &Graph, class: Id, c: Id, t: Id, e: Id) -> (out: Vec<Pin>)
    requires
        g.wf(),
        g.has(class),
        g.has(c),
        g.has(t),
        g.has(e),
    ensures
        pins_in(out@, *g),
        pin_facts(out@) == ite_whole(*g, class, c, t, e),
{
    let tl = g.known_bool(t);
    let el = g.known_bool(e);
    let kc = g.known_bool(c);
    let mut out = empty_pins();
    push_if(&mut out, kc == Some(true), Pin::same(class, t));
    proof {
        assert(pin_facts(out@) =~= fact_if(kc == Some(true), (Tm::Class(class), Tm::Class(t))));
    }
    push_if(&mut out, kc == Some(false), Pin::same(class, e));
    push_if(&mut out, t == e, Pin::same(class, t));
    push_if(&mut out, tl == Some(true) && el == Some(false), Pin::same(class, c));
    push_if(&mut out, t == c && el == Some(false), Pin::same(class, c));
    push_if(&mut out, tl == Some(true) && e == c, Pin::same(class, c));
    push_if(&mut out, t == c && el == Some(true), Pin::truth(class, true));
    push_if(&mut out, tl == Some(false) && e == c, Pin::truth(class, false));
    out
}

/// What follows from the term `c ? t : e` of a class.
fn ite_term_pins(g: &Graph, cs: &Vec<Ctor>, class: Id, ids: [Id; 3]) -> (out: Vec<Pin>)
    requires
        g.wf(),
        g.has(class),
        g.has(ids@[0]),
        g.has(ids@[1]),
        g.has(ids@[2]),
    ensures
        pins_in(out@, *g),
        pin_facts(out@) == ite_term_facts(*g, cs@, class, Node { op: OpV::Ite, args: ids@ }),
{
    let c = g.find(ids[0]);
    let t = g.find(ids[1]);
    let e = g.find(ids[2]);
    let mut out = ite_parts_pins(g, class, c, t, e);
    append_pins(&mut out, ite_arms_pins(g, cs, class, c, t, e));
    append_pins(&mut out, ite_whole_pins(g, class, c, t, e));
    out
}

/// What the `ite` rule derives of a class.
pub fn ite_pins(g: &Graph, cs: &Vec<Ctor>, class: Id) -> (out: Vec<Pin>)
    requires
        g.wf(),
        g.has(class),
    ensures
        pins_in(out@, *g),
        pin_facts(out@) == ite_facts(*g, cs@, class, g.terms(class)),
{
    let ts = g.terms_of(class);
    let ghost all = g.terms(class);
    let mut out: Vec<Pin> = Vec::new();
    let mut i: usize = 0;
    proof {
        assert(all.take(0) =~= Seq::<Node>::empty());
        assert(pin_facts(out@) =~= Seq::<(Tm, Tm)>::empty());
    }
    while i < ts.len()
        invariant
            g.wf(),
            g.has(class),
            i <= ts@.len(),
            ts@.len() == all.len(),
            forall|k: int| 0 <= k < ts@.len() ==> (#[trigger] ts@[k])@ == all[k],
            forall|k: int| 0 <= k < ts@.len() ==> g.has_all((#[trigger] ts@[k])@.args),
            pins_in(out@, *g),
            pin_facts(out@) == ite_facts(*g, cs@, class, all.take(i as int)),
        decreases ts.len() - i,
    {
        proof {
            assert(all.take(i + 1).drop_last() =~= all.take(i as int));
            assert(all.take(i + 1).last() == all[i as int]);
            assert(g.has_all(ts@[i as int]@.args));
        }
        let ghost before = pin_facts(out@);
        if let Symbolic::Ite(ids) = &ts[i] {
            proof {
                assert(g.has(all[i as int].args[0]));
                assert(g.has(all[i as int].args[1]));
                assert(g.has(all[i as int].args[2]));
            }
            append_pins(&mut out, ite_term_pins(g, cs, class, *ids));
        } else {
            proof {
                assert(pin_facts(out@) =~= before + ite_term_facts(
                    *g,
                    cs@,
                    class,
                    all[i as int],
                ));
            }
        }
        i += 1;
    }
    proof {
        assert(all.take(all.len() as int) =~= all);
    }
    out
}

proof fn lemma_plain_joined(a: Seq<(Tm, Tm)>, b: Seq<(Tm, Tm)>)
    requires
        plain_facts(a),
        plain_facts(b),
    ensures
        plain_facts(a + b),
{
    let all = a + b;
    assert forall|i: int| 0 <= i < all.len() implies plain_fact(#[trigger] all[i]) by {
        if i < a.len() {
            assert(all[i] == a[i]);
        } else {
            assert(all[i] == b[i - a.len()]);
        }
    }
}

proof fn lemma_plain_if(a: Seq<(Tm, Tm)>, b: bool, f: (Tm, Tm))
    requires
        plain_facts(a),
        plain_fact(f),
    ensures
        plain_facts(a + fact_if(b, f)),
{
    lemma_plain_joined(a, fact_if(b, f));
}

proof fn lemma_whole_plain(g: Graph, class: Id, c: Id, t: Id, e: Id)
    ensures
        plain_facts(ite_whole(g, class, c, t, e)),
{
    let (tl, el) = (g.known_truth(t), g.known_truth(e));
    let own = Tm::Class(class);
    let s0 = fact_if(g.known_truth(c) == Some(true), (own, Tm::Class(t)));
    lemma_plain_if(s0, g.known_truth(c) == Some(false), (own, Tm::Class(e)));
    let s1 = s0 + fact_if(g.known_truth(c) == Some(false), (own, Tm::Class(e)));
    lemma_plain_if(s1, t == e, (own, Tm::Class(t)));
    let s2 = s1 + fact_if(t == e, (own, Tm::Class(t)));
    lemma_plain_if(s2, tl == Some(true) && el == Some(false), (own, Tm::Class(c)));
    let s3 = s2 + fact_if(tl == Some(true) && el == Some(false), (own, Tm::Class(c)));
    lemma_plain_if(s3, t == c && el == Some(false), (own, Tm::Class(c)));
    let s4 = s3 + fact_if(t == c && el == Some(false), (own, Tm::Class(c)));
    lemma_plain_if(s4, tl == Some(true) && e == c, (own, Tm::Class(c)));
    let s5 = s4 + fact_if(tl == Some(true) && e == c, (own, Tm::Class(c)));
    lemma_plain_if(s5, t == c && el == Some(true), (own, t_bool(true)));
    let s6 = s5 + fact_if(t == c && el == Some(true), (own, t_bool(true)));
    lemma_plain_if(s6, tl == Some(false) && e == c, (own, t_bool(false)));
}

/// The rule speaks of classes and truth values alone.
proof fn lemma_ite_plain(g: Graph, cs: Seq<Ctor>, class: Id, ts: Seq<Node>)
    ensures
        plain_facts(ite_facts(g, cs, class, ts)),
    decreases ts.len(),
{
    if ts.len() > 0 {
        lemma_ite_plain(g, cs, class, ts.drop_last());
        let n = ts.last();
        if n.op is Ite && n.args.len() == 3 {
            let (c, t, e) = (g.canon(n.args[0]), g.canon(n.args[1]), g.canon(n.args[2]));
            let parts = ite_parts(g, class, c, t, e);
            let no = fact_if(told_apart(g, cs, t, class), (Tm::Class(c), t_bool(false)));
            lemma_plain_if(no, told_apart(g, cs, e, class), (Tm::Class(c), t_bool(true)));
            let arms = ite_arms(g, cs, class, c, t, e);
            lemma_plain_joined(parts, arms);
            lemma_whole_plain(g, class, c, t, e);
            lemma_plain_joined(parts + arms, ite_whole(g, class, c, t, e));
        }
        lemma_plain_joined(
            ite_facts(g, cs, class, ts.drop_last()),
            ite_term_facts(g, cs, class, n),
        );
    }
}

/// The `ite` reduction rule.
pub struct IteReduceApplier;

impl IteReduceApplier {
    /// Asserts everything that the rule derives of a class, and gives the classes
    /// that changed.
    pub fn apply_one(&self, g: &mut Graph, cs: &Vec<Ctor>, class: Id) -> (changed: Vec<Id>)
        requires
            old(g).wf(),
            old(g).has(class),
        ensures
            asserted(*old(g), *final(g), ite_facts(*old(g), cs@, class, old(g).terms(class))),
            changed@.len() == 0 ==> keeps_classes(*old(g), *final(g)),
            changed@.len() > 0 ==> merges(*old(g), *final(g)),
            only_truths(*old(g), *final(g)),
    {
        let pins = ite_pins(g, cs, class);
        proof {
            lemma_ite_plain(*g, cs@, class, g.terms(class));
        }
        assert_pins(g, &pins)
    }
}

/// What follows from one term of a class holds in every model.
proof fn lemma_ite_term_sound(g: Graph, cs: Seq<Ctor>, m: Model, class: Id, k: int)
    requires
        g.wf(),
        g.models(m),
        distinct_variants(cs, m),
        g.has(class),
        0 <= k < g.terms(class).len(),
    ensures
        forall|i: int|
            0 <= i < ite_term_facts(g, cs, class, g.terms(class)[k]).len() ==> equation_holds(
                m,
                #[trigger] ite_term_facts(g, cs, class, g.terms(class)[k])[i],
            ),
{
    let n = g.terms(class)[k];
    lemma_term_value(g, m, class, k);
    if n.op is Ite && n.args.len() == 3 {
        assert(g.has(n.args[0]) && g.has(n.args[1]) && g.has(n.args[2]));
        let (c, t, e) = (g.canon(n.args[0]), g.canon(n.args[1]), g.canon(n.args[2]));
        lemma_canon_value(g, m, n.args[0]);
        lemma_canon_value(g, m, n.args[1]);
        lemma_canon_value(g, m, n.args[2]);
        assert(m.all(n.args)[0] == m.at(c));
        assert(m.all(n.args)[1] == m.at(t));
        assert(m.all(n.args)[2] == m.at(e));
        assert(m.at(c) is Bool);
        assert(m.at(class) == if m.is(c, true) {
            m.at(t)
        } else {
            m.at(e)
        });
        lemma_known(g, m, class);
        lemma_known(g, m, c);
        lemma_known(g, m, t);
        lemma_known(g, m, e);
        lemma_tm_lit(m, Value::Bool(true));
        lemma_tm_lit(m, Value::Bool(false));
        if told_apart(g, cs, t, class) {
            lemma_told_apart(g, cs, m, t, class);
        }
        if told_apart(g, cs, e, class) {
            lemma_told_apart(g, cs, m, e, class);
        }
        let parts = ite_parts(g, class, c, t, e);
        let arms = ite_arms(g, cs, class, c, t, e);
        let whole = ite_whole(g, class, c, t, e);
        assert forall|i: int| 0 <= i < parts.len() implies equation_holds(
            m,
            #[trigger] parts[i],
        ) by {}
        assert forall|i: int| 0 <= i < arms.len() implies equation_holds(m, #[trigger] arms[i]) by {}
        assert forall|i: int| 0 <= i < whole.len() implies equation_holds(
            m,
            #[trigger] whole[i],
        ) by {}
        assert forall|i: int|
            0 <= i < ite_term_facts(g, cs, class, n).len() implies equation_holds(
            m,
            #[trigger] ite_term_facts(g, cs, class, n)[i],
        ) by {
            if i < parts.len() {
                assert(ite_term_facts(g, cs, class, n)[i] == parts[i]);
            } else if i < parts.len() + arms.len() {
                assert(ite_term_facts(g, cs, class, n)[i] == arms[i - parts.len()]);
            } else {
                assert(ite_term_facts(g, cs, class, n)[i] == whole[i - parts.len() - arms.len()]);
            }
        }
    }
}

/// The `ite` rule is sound: in every model of the graph in which variants are
/// distinct, everything that it derives of a class holds.
pub proof fn law_ite_sound(g: Graph, cs: Seq<Ctor>, m: Model, class: Id)
    requires
        g.wf(),
        g.models(m),
        distinct_variants(cs, m),
        g.has(class),
    ensures
        forall|i: int|
            0 <= i < ite_facts(g, cs, class, g.terms(class)).len() ==> equation_holds(
                m,
                #[trigger] ite_facts(g, cs, class, g.terms(class))[i],
            ),
{
    lemma_ite_prefix_sound(g, cs, m, class, g.terms(class).len());
    assert(g.terms(class).take(g.terms(class).len() as int) =~= g.terms(class));
}

proof fn lemma_ite_prefix_sound(g: Graph, cs: Seq<Ctor>, m: Model, class: Id, n: nat)
    requires
        g.wf(),
        g.models(m),
        distinct_variants(cs, m),
        g.has(class),
        n <= g.terms(class).len(),
    ensures
        forall|i: int|
            0 <= i < ite_facts(g, cs, class, g.terms(class).take(n as int)).len()
                ==> equation_holds(
                m,
                #[trigger] ite_facts(g, cs, class, g.terms(class).take(n as int))[i],
            ),
    decreases n,
{
    if n > 0 {
        let ts = g.terms(class).take(n as int);
        lemma_ite_prefix_sound(g, cs, m, class, (n - 1) as nat);
        lemma_ite_term_sound(g, cs, m, class, n - 1);
        assert(ts.drop_last() =~= g.terms(class).take(n - 1));
        assert(ts.last() == g.terms(class)[n - 1]);
        let front = ite_facts(g, cs, class, ts.drop_last());
        let back = ite_term_facts(g, cs, class, ts.last());
        assert forall|i: int| 0 <= i < ite_facts(g, cs, class, ts).len() implies equation_holds(
            m,
            #[trigger] ite_facts(g, cs, class, ts)[i],
        ) by {
            if i < front.len() {
                assert(ite_facts(g, cs, class, ts)[i] == front[i]);
            } else {
                assert(ite_facts(g, cs, class, ts)[i] == back[i - front.len()]);
            }
        }
    }
}

} // verus!
