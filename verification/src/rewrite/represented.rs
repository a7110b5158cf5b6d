//! What a trigger finds: the bindings whose instance the graph represents.

use crate::graph::{lemma_canon_in, lemma_terms_in, Graph};
use crate::lang::{FuncId, Id, Node, OpV};
use crate::rewrite::quantified::{
    lists_literal, match_args, match_each, match_terms, match_tm, pattern_ok, patterns_ok,
    PreparedTerm,
};
use crate::vmir::{types_view, TypeV};
use vstd::prelude::*;

verus! {

/// A binding keeps what another binds.
pub open spec fn binds_more(a: Seq<Option<Id>>, b: Seq<Option<Id>>) -> bool {
    &&& b.len() == a.len()
    &&& forall|i: int| 0 <= i < a.len() && #[trigger] a[i] is Some ==> b[i] == a[i]
}

/// What a binding binds beyond another is named by classes.
pub open spec fn binds_classes(g: Graph, a: Seq<Option<Id>>, b: Seq<Option<Id>>) -> bool {
    forall|i: int|
        0 <= i < a.len() && #[trigger] a[i] is None ==> (b[i] matches Some(x) ==> g.canon(x) == x)
}

/// A class represents a pattern under a binding: it is what a binder or a capture names,
/// or it lists the literal, or an application whose arguments represent the patterns.
pub open spec fn represents(
    g: Graph,
    t: PreparedTerm,
    class: Id,
    caps: Seq<Id>,
    b: Seq<Option<Id>>,
) -> bool
    decreases t, 1int, 0nat,
{
    match t {
        PreparedTerm::Bound(i) => b[i as int] matches Some(x) && g.canon(x) == g.canon(class),
        PreparedTerm::Capture(c) => g.canon(caps[c as int]) == g.canon(class),
        PreparedTerm::Lit(l) => lists_literal(g.terms(class), l@),
        PreparedTerm::App { func, type_args, args } => some_represents(
            g,
            func,
            types_view(type_args@),
            args@,
            g.terms(class),
            caps,
            b,
        ),
    }
}

/// One of the terms is an application whose arguments represent the patterns.
pub open spec fn some_represents(
    g: Graph,
    func: FuncId,
    tys: Seq<TypeV>,
    args: Seq<PreparedTerm>,
    ts: Seq<Node>,
    caps: Seq<Id>,
    b: Seq<Option<Id>>,
) -> bool
    decreases args, 1int, ts.len(),
{
    ts.len() > 0 && (some_represents(g, func, tys, args, ts.drop_last(), caps, b) || (ts.last().op
        == OpV::FuncApp(func, tys) && ts.last().args.len() == args.len() && all_represent(
        g,
        args,
        ts.last().args,
        caps,
        b,
    )))
}

/// Classes represent patterns, position by position.
pub open spec fn all_represent(
    g: Graph,
    args: Seq<PreparedTerm>,
    children: Seq<Id>,
    caps: Seq<Id>,
    b: Seq<Option<Id>>,
) -> bool
    decreases args, 0int, 0nat,
{
    args.len() == 0 || children.len() == 0 || (all_represent(
        g,
        args.drop_last(),
        children.drop_last(),
        caps,
        b,
    ) && represents(g, args.last(), children.last(), caps, b))
}

proof fn lemma_represents_more(
    g: Graph,
    t: PreparedTerm,
    class: Id,
    caps: Seq<Id>,
    a: Seq<Option<Id>>,
    b: Seq<Option<Id>>,
)
    requires
        pattern_ok(t, a.len(), caps.len()),
        represents(g, t, class, caps, a),
        binds_more(a, b),
    ensures
        represents(g, t, class, caps, b),
    decreases t, 1int, 0nat,
{
    match t {
        PreparedTerm::App { func, type_args, args } => {
            lemma_some_more(g, func, types_view(type_args@), args@, g.terms(class), caps, a, b);
        },
        PreparedTerm::Bound(i) => {
            assert(a[i as int] is Some);
        },
        _ => {},
    }
}

proof fn lemma_some_more(
    g: Graph,
    func: FuncId,
    tys: Seq<TypeV>,
    args: Seq<PreparedTerm>,
    ts: Seq<Node>,
    caps: Seq<Id>,
    a: Seq<Option<Id>>,
    b: Seq<Option<Id>>,
)
    requires
        patterns_ok(args, a.len(), caps.len()),
        some_represents(g, func, tys, args, ts, caps, a),
        binds_more(a, b),
    ensures
        some_represents(g, func, tys, args, ts, caps, b),
    decreases args, 1int, ts.len(),
{
    if some_represents(g, func, tys, args, ts.drop_last(), caps, a) {
        lemma_some_more(g, func, tys, args, ts.drop_last(), caps, a, b);
    } else {
        lemma_all_more(g, args, ts.last().args, caps, a, b);
    }
}

proof fn lemma_all_more(
    g: Graph,
    args: Seq<PreparedTerm>,
    children: Seq<Id>,
    caps: Seq<Id>,
    a: Seq<Option<Id>>,
    b: Seq<Option<Id>>,
)
    requires
        patterns_ok(args, a.len(), caps.len()),
        all_represent(g, args, children, caps, a),
        binds_more(a, b),
    ensures
        all_represent(g, args, children, caps, b),
    decreases args, 0int, 0nat,
{
    if args.len() > 0 && children.len() > 0 {
        lemma_all_more(g, args.drop_last(), children.drop_last(), caps, a, b);
        lemma_represents_more(g, args.last(), children.last(), caps, a, b);
    }
}

/// Terms whose arguments exist.
spec fn terms_in(g: Graph, ts: Seq<Node>) -> bool {
    forall|k: int| 0 <= k < ts.len() ==> g.has_all((#[trigger] ts[k]).args)
}

proof fn lemma_class_in(g: Graph, class: Id)
    requires
        g.wf(),
        g.has(class),
    ensures
        terms_in(g, g.terms(class)),
{
    assert forall|k: int| 0 <= k < g.terms(class).len() implies g.has_all(
        (#[trigger] g.terms(class)[k]).args,
    ) by {
        lemma_terms_in(g, class, k);
    }
}

proof fn lemma_found(
    g: Graph,
    t: PreparedTerm,
    class: Id,
    caps: Seq<Id>,
    sigma: Seq<Option<Id>>,
    r: Seq<Option<Id>>,
)
    requires
        g.wf(),
        g.has(class),
        pattern_ok(t, sigma.len(), caps.len()),
        match_tm(g, t, class, caps, sigma).contains(r),
    ensures
        binds_more(sigma, r),
        represents(g, t, class, caps, r),
    decreases t, 1int, 0nat,
{
    let all = match_tm(g, t, class, caps, sigma);
    let k = all.index_of(r);
    assert(all[k] == r);
    match t {
        PreparedTerm::Bound(i) => {
            lemma_canon_in(g, class);
        },
        PreparedTerm::App { func, type_args, args } => {
            lemma_class_in(g, class);
            let tys = types_view(type_args@);
            lemma_found_terms(g, func, tys, args@, g.terms(class), caps, sigma, r);
        },
        _ => {},
    }
}

proof fn lemma_found_terms(
    g: Graph,
    func: FuncId,
    tys: Seq<TypeV>,
    args: Seq<PreparedTerm>,
    ts: Seq<Node>,
    caps: Seq<Id>,
    sigma: Seq<Option<Id>>,
    r: Seq<Option<Id>>,
)
    requires
        g.wf(),
        terms_in(g, ts),
        patterns_ok(args, sigma.len(), caps.len()),
        match_terms(g, func, tys, args, ts, caps, sigma).contains(r),
    ensures
        binds_more(sigma, r),
        some_represents(g, func, tys, args, ts, caps, r),
    decreases args, 1int, ts.len(),
{
    let all = match_terms(g, func, tys, args, ts, caps, sigma);
    let k = all.index_of(r);
    assert(all[k] == r);
    if ts.len() > 0 {
        let front = match_terms(g, func, tys, args, ts.drop_last(), caps, sigma);
        if k < front.len() {
            assert(front[k] == r);
            assert(terms_in(g, ts.drop_last())) by {
                assert forall|j: int| 0 <= j < ts.len() - 1 implies g.has_all(
                    (#[trigger] ts.drop_last()[j]).args,
                ) by {
                    assert(ts.drop_last()[j] == ts[j]);
                }
            }
            lemma_found_terms(g, func, tys, args, ts.drop_last(), caps, sigma, r);
        } else {
            let n = ts.last();
            assert(g.has_all(ts[ts.len() - 1].args));
            let rest = match_args(g, args, n.args, caps, sigma);
            assert(rest[k - front.len()] == r);
            lemma_found_args(g, args, n.args, caps, sigma, r);
        }
    }
}

proof fn lemma_found_args(
    g: Graph,
    args: Seq<PreparedTerm>,
    children: Seq<Id>,
    caps: Seq<Id>,
    sigma: Seq<Option<Id>>,
    r: Seq<Option<Id>>,
)
    requires
        g.wf(),
        g.has_all(children),
        patterns_ok(args, sigma.len(), caps.len()),
        match_args(g, args, children, caps, sigma).contains(r),
    ensures
        binds_more(sigma, r),
        all_represent(g, args, children, caps, r),
    decreases args, 0int, 0nat,
{
    if args.len() == 0 || children.len() == 0 {
        let k = match_args(g, args, children, caps, sigma).index_of(r);
        assert(seq![sigma][k] == r);
    } else {
        let (front, below) = (args.drop_last(), children.drop_last());
        assert(g.has(children[children.len() - 1]));
        assert forall|j: int| 0 <= j < below.len() implies g.has(#[trigger] below[j]) by {
            assert(below[j] == children[j]);
        }
        let firsts = match_args(g, front, below, caps, sigma);
        assert forall|j: int| 0 <= j < firsts.len() implies (#[trigger] firsts[j]).len()
            == sigma.len() by {
            assert(firsts.contains(firsts[j]));
            lemma_found_args(g, front, below, caps, sigma, firsts[j]);
        }
        let j = lemma_found_each(g, args.last(), children.last(), caps, firsts, sigma.len(), r);
        assert(firsts.contains(firsts[j]));
        lemma_found_args(g, front, below, caps, sigma, firsts[j]);
        lemma_all_more(g, front, below, caps, firsts[j], r);
        assert forall|i: int| 0 <= i < sigma.len() && #[trigger] sigma[i] is Some implies r[i]
            == sigma[i] by {
            assert(firsts[j][i] == sigma[i]);
        }
    }
}

proof fn lemma_found_each(
    g: Graph,
    t: PreparedTerm,
    class: Id,
    caps: Seq<Id>,
    sigmas: Seq<Seq<Option<Id>>>,
    n: nat,
    r: Seq<Option<Id>>,
) -> (j: int)
    requires
        g.wf(),
        g.has(class),
        pattern_ok(t, n, caps.len()),
        forall|i: int| 0 <= i < sigmas.len() ==> (#[trigger] sigmas[i]).len() == n,
        match_each(g, t, class, caps, sigmas).contains(r),
    ensures
        0 <= j < sigmas.len(),
        binds_more(sigmas[j], r),
        represents(g, t, class, caps, r),
    decreases t, 2int, sigmas.len(),
{
    let all = match_each(g, t, class, caps, sigmas);
    let k = all.index_of(r);
    assert(all[k] == r);
    let front = sigmas.drop_last();
    let before = match_each(g, t, class, caps, front);
    if k < before.len() {
        assert(before[k] == r);
        assert forall|i: int| 0 <= i < front.len() implies (#[trigger] front[i]).len() == n by {
            assert(front[i] == sigmas[i]);
        }
        let j = lemma_found_each(g, t, class, caps, front, n, r);
        assert(front[j] == sigmas[j]);
        j
    } else {
        let rest = match_tm(g, t, class, caps, sigmas.last());
        assert(rest[k - before.len()] == r);
        assert(sigmas[sigmas.len() - 1].len() == n);
        lemma_found(g, t, class, caps, sigmas.last(), r);
        sigmas.len() - 1
    }
}

proof fn lemma_finds(
    g: Graph,
    t: PreparedTerm,
    class: Id,
    caps: Seq<Id>,
    sigma: Seq<Option<Id>>,
    b: Seq<Option<Id>>,
) -> (r: Seq<Option<Id>>)
    requires
        g.wf(),
        g.has(class),
        pattern_ok(t, sigma.len(), caps.len()),
        binds_more(sigma, b),
        binds_classes(g, sigma, b),
        represents(g, t, class, caps, b),
    ensures
        match_tm(g, t, class, caps, sigma).contains(r),
        binds_more(sigma, r),
        binds_more(r, b),
    decreases t, 1int, 0nat,
{
    let all = match_tm(g, t, class, caps, sigma);
    match t {
        PreparedTerm::Bound(i) => {
            lemma_canon_in(g, class);
            if sigma[i as int] is Some {
                assert(all[0] == sigma);
                sigma
            } else {
                assert(sigma[i as int] is None);
                let r = sigma.update(i as int, Some(g.canon(class)));
                assert(all[0] == r);
                r
            }
        },
        PreparedTerm::App { func, type_args, args } => {
            lemma_class_in(g, class);
            let tys = types_view(type_args@);
            lemma_finds_terms(g, func, tys, args@, g.terms(class), caps, sigma, b)
        },
        _ => {
            assert(all[0] == sigma);
            sigma
        },
    }
}

proof fn lemma_finds_terms(
    g: Graph,
    func: FuncId,
    tys: Seq<TypeV>,
    args: Seq<PreparedTerm>,
    ts: Seq<Node>,
    caps: Seq<Id>,
    sigma: Seq<Option<Id>>,
    b: Seq<Option<Id>>,
) -> (r: Seq<Option<Id>>)
    requires
        g.wf(),
        terms_in(g, ts),
        patterns_ok(args, sigma.len(), caps.len()),
        binds_more(sigma, b),
        binds_classes(g, sigma, b),
        some_represents(g, func, tys, args, ts, caps, b),
    ensures
        match_terms(g, func, tys, args, ts, caps, sigma).contains(r),
        binds_more(sigma, r),
        binds_more(r, b),
    decreases args, 1int, ts.len(),
{
    let all = match_terms(g, func, tys, args, ts, caps, sigma);
    let front = match_terms(g, func, tys, args, ts.drop_last(), caps, sigma);
    if some_represents(g, func, tys, args, ts.drop_last(), caps, b) {
        assert(terms_in(g, ts.drop_last())) by {
            assert forall|j: int| 0 <= j < ts.len() - 1 implies g.has_all(
                (#[trigger] ts.drop_last()[j]).args,
            ) by {
                assert(ts.drop_last()[j] == ts[j]);
            }
        }
        let r = lemma_finds_terms(g, func, tys, args, ts.drop_last(), caps, sigma, b);
        let k = front.index_of(r);
        assert(all[k] == r);
        r
    } else {
        assert(g.has_all(ts[ts.len() - 1].args));
        let r = lemma_finds_args(g, args, ts.last().args, caps, sigma, b);
        let k = match_args(g, args, ts.last().args, caps, sigma).index_of(r);
        assert(all[front.len() + k] == r);
        r
    }
}

proof fn lemma_finds_args(
    g: Graph,
    args: Seq<PreparedTerm>,
    children: Seq<Id>,
    caps: Seq<Id>,
    sigma: Seq<Option<Id>>,
    b: Seq<Option<Id>>,
) -> (r: Seq<Option<Id>>)
    requires
        g.wf(),
        g.has_all(children),
        patterns_ok(args, sigma.len(), caps.len()),
        binds_more(sigma, b),
        binds_classes(g, sigma, b),
        all_represent(g, args, children, caps, b),
    ensures
        match_args(g, args, children, caps, sigma).contains(r),
        binds_more(sigma, r),
        binds_more(r, b),
    decreases args, 0int, 0nat,
{
    if args.len() == 0 || children.len() == 0 {
        assert(match_args(g, args, children, caps, sigma)[0] == sigma);
        sigma
    } else {
        let (front, below) = (args.drop_last(), children.drop_last());
        assert(g.has(children[children.len() - 1]));
        assert forall|j: int| 0 <= j < below.len() implies g.has(#[trigger] below[j]) by {
            assert(below[j] == children[j]);
        }
        let first = lemma_finds_args(g, front, below, caps, sigma, b);
        assert forall|i: int| 0 <= i < first.len() && #[trigger] first[i] is None implies (b[i] matches Some(
            x,
        ) ==> g.canon(x) == x) by {
            assert(sigma[i] is None);
        }
        let firsts = match_args(g, front, below, caps, sigma);
        let r = lemma_finds_each(g, args.last(), children.last(), caps, firsts, first, b);
        assert forall|i: int| 0 <= i < sigma.len() && #[trigger] sigma[i] is Some implies r[i]
            == sigma[i] by {
            assert(first[i] == sigma[i]);
        }
        r
    }
}

proof fn lemma_finds_each(
    g: Graph,
    t: PreparedTerm,
    class: Id,
    caps: Seq<Id>,
    sigmas: Seq<Seq<Option<Id>>>,
    first: Seq<Option<Id>>,
    b: Seq<Option<Id>>,
) -> (r: Seq<Option<Id>>)
    requires
        g.wf(),
        g.has(class),
        pattern_ok(t, first.len(), caps.len()),
        sigmas.contains(first),
        binds_more(first, b),
        binds_classes(g, first, b),
        represents(g, t, class, caps, b),
    ensures
        match_each(g, t, class, caps, sigmas).contains(r),
        binds_more(first, r),
        binds_more(r, b),
    decreases t, 2int, sigmas.len(),
{
    let all = match_each(g, t, class, caps, sigmas);
    let front = sigmas.drop_last();
    let before = match_each(g, t, class, caps, front);
    let k = sigmas.index_of(first);
    assert(sigmas[k] == first);
    if k < front.len() {
        assert(front[k] == first);
        let r = lemma_finds_each(g, t, class, caps, front, first, b);
        assert(all[before.index_of(r)] == r);
        r
    } else {
        let r = lemma_finds(g, t, class, caps, first, b);
        let j = match_tm(g, t, class, caps, first).index_of(r);
        assert(all[before.len() + j] == r);
        r
    }
}

/// A pattern is matched exactly where the graph represents an instance of it: every match
/// keeps the binding that it started from and its instance is represented, and every
/// binding whose instance is represented keeps a match.
pub proof fn law_matches_represented(
    g: Graph,
    t: PreparedTerm,
    class: Id,
    caps: Seq<Id>,
    sigma: Seq<Option<Id>>,
)
    requires
        g.wf(),
        g.has(class),
        pattern_ok(t, sigma.len(), caps.len()),
    ensures
        forall|r: Seq<Option<Id>>| #[trigger]
            match_tm(g, t, class, caps, sigma).contains(r) ==> binds_more(sigma, r) && represents(
                g,
                t,
                class,
                caps,
                r,
            ),
        forall|b: Seq<Option<Id>>|
            binds_more(sigma, b) && binds_classes(g, sigma, b) && #[trigger] represents(
                g,
                t,
                class,
                caps,
                b,
            ) ==> exists|r: Seq<Option<Id>>| #[trigger]
                match_tm(g, t, class, caps, sigma).contains(r) && binds_more(r, b),
{
    assert forall|r: Seq<Option<Id>>| #[trigger]
        match_tm(g, t, class, caps, sigma).contains(r) implies binds_more(sigma, r) && represents(
        g,
        t,
        class,
        caps,
        r,
    ) by {
        lemma_found(g, t, class, caps, sigma, r);
    }
    assert forall|b: Seq<Option<Id>>|
        binds_more(sigma, b) && binds_classes(g, sigma, b) && #[trigger] represents(
            g,
            t,
            class,
            caps,
            b,
        ) implies exists|r: Seq<Option<Id>>| #[trigger]
        match_tm(g, t, class, caps, sigma).contains(r) && binds_more(r, b) by {
        let r = lemma_finds(g, t, class, caps, sigma, b);
        assert(match_tm(g, t, class, caps, sigma).contains(r));
    }
}

} // verus!
