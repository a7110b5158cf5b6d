//! Fingerprints: what a class is pinned to, strongly enough that two different
//! fingerprints never denote one value.

use crate::graph::{lemma_term_value, Graph};
use crate::lang::{FuncId, Id, Node, OpV, Symbolic};
use crate::model::Model;
use crate::terms::lemma_known;
use crate::vmir::{Literal, MemberId, TypeV, Value};
use vstd::prelude::*;

verus! {

/// A constructor of an ADT: its function, the ADT and the variant it builds.
#[derive(Debug, Clone, Copy, PartialEq, Eq, Hash, Structural)]
pub struct Ctor {
    pub func: FuncId,
    pub adt: MemberId,
    pub variant: usize,
}

/// The ADT and variant that a function constructs, if it is a constructor.
pub open spec fn ctor_of(cs: Seq<Ctor>, f: FuncId) -> Option<(MemberId, usize)>
    decreases cs.len(),
{
    if cs.len() == 0 {
        None
    } else if cs[0].func == f {
        Some((cs[0].adt, cs[0].variant))
    } else {
        ctor_of(cs.drop_first(), f)
    }
}

/// Constructors of one ADT that build different variants never build one value.
pub open spec fn distinct_variants(cs: Seq<Ctor>, m: Model) -> bool {
    forall|i: int, j: int, s: Seq<TypeV>, t: Seq<TypeV>, a: Seq<Value>, b: Seq<Value>|
        #![trigger (m.func)(cs[i].func, s, a), (m.func)(cs[j].func, t, b)]
        0 <= i < cs.len() && 0 <= j < cs.len() && cs[i].adt == cs[j].adt && cs[i].variant
            != cs[j].variant ==> (m.func)(cs[i].func, s, a) != (m.func)(cs[j].func, t, b)
}

pub ghost enum Print {
    Lit(Value),
    Ctor(MemberId, usize),
}

/// What a class is pinned to.
pub enum Fingerprint {
    Lit(Literal),
    Ctor(MemberId, usize),
}

impl View for Fingerprint {
    type V = Print;

    open spec fn view(&self) -> Print {
        match self {
            Fingerprint::Lit(l) => Print::Lit(l@),
            Fingerprint::Ctor(a, v) => Print::Ctor(*a, *v),
        }
    }
}

/// The first constructor application among terms.
pub open spec fn first_ctor(cs: Seq<Ctor>, ts: Seq<Node>) -> Option<(MemberId, usize)>
    decreases ts.len(),
{
    if ts.len() == 0 {
        None
    } else {
        match ts[0].op {
            OpV::FuncApp(f, _) if ctor_of(cs, f) is Some => ctor_of(cs, f),
            _ => first_ctor(cs, ts.drop_first()),
        }
    }
}

/// The literal that a class is known to be, or else the constructor that built it.
pub open spec fn print_of(g: Graph, cs: Seq<Ctor>, id: Id) -> Option<Print> {
    match g.known_value(id) {
        Some(v) => Some(Print::Lit(v)),
        None => match first_ctor(cs, g.terms(id)) {
            Some((a, v)) => Some(Print::Ctor(a, v)),
            None => None,
        },
    }
}

/// Two fingerprints that no one value has: different literals, or different variants
/// of one ADT.
pub open spec fn prints_differ(p: Print, q: Print) -> bool {
    match (p, q) {
        (Print::Lit(a), Print::Lit(b)) => a != b,
        (Print::Ctor(a, v), Print::Ctor(b, w)) => a == b && v != w,
        _ => false,
    }
}

/// Both classes are pinned, to fingerprints that differ.
pub open spec fn told_apart(g: Graph, cs: Seq<Ctor>, a: Id, b: Id) -> bool {
    match (print_of(g, cs, a), print_of(g, cs, b)) {
        (Some(p), Some(q)) => prints_differ(p, q),
        _ => false,
    }
}

/// The ADT and variant that a function constructs, if it is a constructor.
pub fn find_ctor(cs: &Vec<Ctor>, f: FuncId) -> (r: Option<(MemberId, usize)>)
    ensures
        r == ctor_of(cs@, f),
{
    let mut i: usize = 0;
    proof {
        assert(cs@.skip(0) =~= cs@);
    }
    while i < cs.len()
        invariant
            i <= cs@.len(),
            ctor_of(cs@, f) == ctor_of(cs@.skip(i as int), f),
        decreases cs.len() - i,
    {
        proof {
            assert(cs@.skip(i as int)[0] == cs@[i as int]);
            assert(cs@.skip(i as int).drop_first() =~= cs@.skip(i + 1));
        }
        if cs[i].func == f {
            return Some((cs[i].adt, cs[i].variant));
        }
        i += 1;
    }
    None
}

/// What a class is pinned to, if anything.
pub fn fingerprint(g: &Graph, cs: &Vec<Ctor>, id: Id) -> (r: Option<Fingerprint>)
    requires
        g.wf(),
        g.has(id),
    ensures
        r is Some == print_of(*g, cs@, id) is Some,
        r matches Some(p) ==> print_of(*g, cs@, id) == Some(p@),
{
    if let Some(l) = g.known(id) {
        return Some(Fingerprint::Lit(l));
    }
    let ts = g.terms_of(id);
    let ghost all = g.terms(id);
    let mut i: usize = 0;
    proof {
        assert(all.skip(0) =~= all);
    }
    while i < ts.len()
        invariant
            i <= ts@.len(),
            ts@.len() == all.len(),
            all == g.terms(id),
            g.known_value(id) is None,
            forall|k: int| 0 <= k < ts@.len() ==> (#[trigger] ts@[k])@ == all[k],
            first_ctor(cs@, all) == first_ctor(cs@, all.skip(i as int)),
        decreases ts.len() - i,
    {
        proof {
            assert(all.skip(i as int)[0] == all[i as int]);
            assert(all.skip(i as int).drop_first() =~= all.skip(i + 1));
        }
        if let Symbolic::FuncApp(f, _, _) = &ts[i] {
            if let Some((a, v)) = find_ctor(cs, *f) {
                return Some(Fingerprint::Ctor(a, v));
            }
        }
        i += 1;
    }
    None
}

impl Fingerprint {
    /// Whether no value has both fingerprints.
    pub fn differs_from(&self, other: &Fingerprint) -> (r: bool)
        ensures
            r == prints_differ(self@, other@),
    {
        match (self, other) {
            (Fingerprint::Lit(a), Fingerprint::Lit(b)) => !a.same(b),
            (Fingerprint::Ctor(a, v), Fingerprint::Ctor(b, w)) => *a == *b && *v != *w,
            _ => false,
        }
    }
}

/// Whether both classes are pinned, to fingerprints that differ.
pub fn apart(g: &Graph, cs: &Vec<Ctor>, a: Id, b: Id) -> (r: bool)
    requires
        g.wf(),
        g.has(a),
        g.has(b),
    ensures
        r == told_apart(*g, cs@, a, b),
{
    match (fingerprint(g, cs, a), fingerprint(g, cs, b)) {
        (Some(p), Some(q)) => p.differs_from(&q),
        _ => false,
    }
}

proof fn lemma_ctor_of(cs: Seq<Ctor>, f: FuncId) -> (i: int)
    requires
        ctor_of(cs, f) is Some,
    ensures
        0 <= i < cs.len(),
        cs[i].func == f,
        ctor_of(cs, f) == Some((cs[i].adt, cs[i].variant)),
    decreases cs.len(),
{
    if cs[0].func == f {
        0
    } else {
        let i = lemma_ctor_of(cs.drop_first(), f);
        i + 1
    }
}

proof fn lemma_first_ctor(cs: Seq<Ctor>, ts: Seq<Node>) -> (k: int)
    requires
        first_ctor(cs, ts) is Some,
    ensures
        0 <= k < ts.len(),
        ts[k].op is FuncApp,
        ctor_of(cs, ts[k].op->FuncApp_0) == first_ctor(cs, ts),
    decreases ts.len(),
{
    match ts[0].op {
        OpV::FuncApp(f, _) if ctor_of(cs, f) is Some => 0,
        _ => {
            let k = lemma_first_ctor(cs, ts.drop_first());
            k + 1
        },
    }
}

/// Classes that fingerprints tell apart have different values in every model in
/// which variants are distinct.
pub proof fn lemma_told_apart(g: Graph, cs: Seq<Ctor>, m: Model, a: Id, b: Id)
    requires
        g.wf(),
        g.models(m),
        distinct_variants(cs, m),
        g.has(a),
        g.has(b),
        told_apart(g, cs, a, b),
    ensures
        m.at(a) != m.at(b),
{
    lemma_known(g, m, a);
    lemma_known(g, m, b);
    if g.known_value(a) is None {
        let k = lemma_first_ctor(cs, g.terms(a));
        let l = lemma_first_ctor(cs, g.terms(b));
        lemma_term_value(g, m, a, k);
        lemma_term_value(g, m, b, l);
        let (n, p) = (g.terms(a)[k], g.terms(b)[l]);
        let i = lemma_ctor_of(cs, n.op->FuncApp_0);
        let j = lemma_ctor_of(cs, p.op->FuncApp_0);
        assert((m.func)(cs[i].func, n.op->FuncApp_1, m.all(n.args)) != (m.func)(
            cs[j].func,
            p.op->FuncApp_1,
            m.all(p.args),
        ));
    }
}

} // verus!
