//! Quantifiers: matching triggers against the graph, and instantiating bodies.

use crate::graph::Graph;
use crate::lang::{FuncId, Id, Node, OpV, Symbolic};
use crate::vmir::{same_types, types_view, Literal, Type, TypeV, Value};
use vstd::prelude::*;

verus! {

/// A trigger pattern: a binder, a captured value, a literal, or an application
/// whose arguments are patterns.
pub enum PreparedTerm {
    Bound(usize),
    Capture(usize),
    Lit(Literal),
    App { func: FuncId, type_args: Vec<Type>, args: Vec<PreparedTerm> },
}

/// A partial substitution, one slot per binder.
pub type Sigma = Vec<Option<Id>>;

/// Whether a class lists a literal.
pub open spec fn lists_literal(ts: Seq<Node>, v: Value) -> bool {
    exists|k: int| 0 <= k < ts.len() && (#[trigger] ts[k]).op == OpV::Lit(v)
}

/// What one pattern gives for each of a list of partial substitutions, in order.
pub open spec fn match_each(
    g: Graph,
    t: PreparedTerm,
    class: Id,
    caps: Seq<Id>,
    sigmas: Seq<Seq<Option<Id>>>,
) -> Seq<Seq<Option<Id>>>
    decreases t, 2int, sigmas.len(),
{
    if sigmas.len() == 0 {
        Seq::empty()
    } else {
        match_each(g, t, class, caps, sigmas.drop_last()) + match_tm(
            g,
            t,
            class,
            caps,
            sigmas.last(),
        )
    }
}

/// The substitutions under which patterns match classes, position by position, the
/// substitution threaded from left to right.
pub open spec fn match_args(
    g: Graph,
    args: Seq<PreparedTerm>,
    children: Seq<Id>,
    caps: Seq<Id>,
    sigma: Seq<Option<Id>>,
) -> Seq<Seq<Option<Id>>>
    decreases args, 0int, 0nat,
{
    if args.len() == 0 || children.len() == 0 {
        seq![sigma]
    } else {
        match_each(
            g,
            args.last(),
            children.last(),
            caps,
            match_args(g, args.drop_last(), children.drop_last(), caps, sigma),
        )
    }
}

/// The substitutions under which an application pattern matches one of the terms.
pub open spec fn match_terms(
    g: Graph,
    func: FuncId,
    tys: Seq<TypeV>,
    args: Seq<PreparedTerm>,
    ts: Seq<Node>,
    caps: Seq<Id>,
    sigma: Seq<Option<Id>>,
) -> Seq<Seq<Option<Id>>>
    decreases args, 1int, ts.len(),
{
    if ts.len() == 0 {
        Seq::empty()
    } else {
        let n = ts.last();
        match_terms(g, func, tys, args, ts.drop_last(), caps, sigma) + if n.op == OpV::FuncApp(
            func,
            tys,
        ) && n.args.len() == args.len() {
            match_args(g, args, n.args, caps, sigma)
        } else {
            Seq::empty()
        }
    }
}

/// The extensions of a substitution under which a pattern matches a class. A binder
/// that is already bound must land on the same class.
pub open spec fn match_tm(
    g: Graph,
    t: PreparedTerm,
    class: Id,
    caps: Seq<Id>,
    sigma: Seq<Option<Id>>,
) -> Seq<Seq<Option<Id>>>
    decreases t, 1int, 0nat,
{
    match t {
        PreparedTerm::Bound(i) => match sigma[i as int] {
            Some(prev) => if g.canon(prev) == g.canon(class) {
                seq![sigma]
            } else {
                Seq::empty()
            },
            None => seq![sigma.update(i as int, Some(g.canon(class)))],
        },
        PreparedTerm::Capture(c) => if g.canon(caps[c as int]) == g.canon(class) {
            seq![sigma]
        } else {
            Seq::empty()
        },
        PreparedTerm::Lit(l) => if lists_literal(g.terms(class), l@) {
            seq![sigma]
        } else {
            Seq::empty()
        },
        PreparedTerm::App { func, type_args, args } => match_terms(
            g,
            func,
            types_view(type_args@),
            args@,
            g.terms(class),
            caps,
            sigma,
        ),
    }
}

/// A pattern names binders and captures that exist.
pub open spec fn pattern_ok(t: PreparedTerm, n_bound: nat, n_caps: nat) -> bool
    decreases t,
{
    match t {
        PreparedTerm::Bound(i) => i < n_bound,
        PreparedTerm::Capture(c) => c < n_caps,
        PreparedTerm::Lit(_) => true,
        PreparedTerm::App { func, type_args, args } => patterns_ok(args@, n_bound, n_caps),
    }
}

pub open spec fn patterns_ok(ts: Seq<PreparedTerm>, n_bound: nat, n_caps: nat) -> bool
    decreases ts,
{
    ts.len() == 0 || (patterns_ok(ts.drop_last(), n_bound, n_caps) && pattern_ok(
        ts.last(),
        n_bound,
        n_caps,
    ))
}

/// Substitutions, by their slots.
pub open spec fn sigmas_view(ss: Seq<Sigma>) -> Seq<Seq<Option<Id>>> {
    Seq::new(ss.len(), |i: int| ss[i]@)
}

/// A substitution over `n` binders, bound to classes that exist.
pub open spec fn sigma_in(g: Graph, n: nat, s: Seq<Option<Id>>) -> bool {
    &&& s.len() == n
    &&& forall|i: int| 0 <= i < s.len() ==> (#[trigger] s[i] matches Some(id) ==> g.has(id))
}

pub open spec fn sigmas_in(g: Graph, n: nat, ss: Seq<Sigma>) -> bool {
    forall|i: int| 0 <= i < ss.len() ==> sigma_in(g, n, (#[trigger] ss[i])@)
}

fn copy_sigma(s: &Sigma) -> (r: Sigma)
    ensures
        r@ == s@,
{
    let mut out: Sigma = Vec::new();
    let mut i: usize = 0;
    while i < s.len()
        invariant
            i <= s@.len(),
            out@ == s@.take(i as int),
        decreases s.len() - i,
    {
        out.push(s[i]);
        proof {
            assert(s@.take(i + 1) =~= s@.take(i as int).push(s@[i as int]));
        }
        i += 1;
    }
    proof {
        assert(s@.take(s@.len() as int) =~= s@);
    }
    out
}

fn only(s: Sigma) -> (r: Vec<Sigma>)
    ensures
        sigmas_view(r@) == seq![s@],
        forall|g: Graph, n: nat| sigma_in(g, n, s@) ==> #[trigger] sigmas_in(g, n, r@),
{
    let mut out: Vec<Sigma> = Vec::new();
    out.push(s);
    proof {
        assert(sigmas_view(out@) =~= seq![s@]);
    }
    out
}

pub fn no_match() -> (r: Vec<Sigma>)
    ensures
        sigmas_view(r@) == Seq::<Seq<Option<Id>>>::empty(),
        forall|g: Graph, n: nat| #[trigger] sigmas_in(g, n, r@),
{
    let out: Vec<Sigma> = Vec::new();
    proof {
        assert(sigmas_view(out@) =~= Seq::empty());
    }
    out
}

pub fn append_sigmas(out: &mut Vec<Sigma>, more: Vec<Sigma>)
    ensures
        sigmas_view(final(out)@) == sigmas_view(old(out)@) + sigmas_view(more@),
        forall|g: Graph, n: nat|
            sigmas_in(g, n, old(out)@) && sigmas_in(g, n, more@) ==> #[trigger] sigmas_in(
                g,
                n,
                final(out)@,
            ),
{
    let ghost before = out@;
    let ghost rest = more@;
    let mut more = more;
    out.append(&mut more);
    proof {
        assert(out@ =~= before + rest);
        assert(sigmas_view(out@) =~= sigmas_view(before) + sigmas_view(rest));
        assert forall|g: Graph, n: nat|
            sigmas_in(g, n, before) && sigmas_in(g, n, rest) implies #[trigger] sigmas_in(
            g,
            n,
            out@,
        ) by {
            assert forall|i: int| 0 <= i < out@.len() implies sigma_in(g, n, (#[trigger] out@[i])@) by {
                if i < before.len() {
                    assert(out@[i] == before[i]);
                } else {
                    assert(out@[i] == rest[i - before.len()]);
                }
            }
        }
    }
}

fn find_literal(g: &Graph, class: Id, l: &Literal) -> (r: bool)
    requires
        g.wf(),
        g.has(class),
    ensures
        r == lists_literal(g.terms(class), l@),
{
    let ts = g.terms_of(class);
    let mut i: usize = 0;
    while i < ts.len()
        invariant
            i <= ts@.len(),
            ts@.len() == g.terms(class).len(),
            forall|k: int| 0 <= k < ts@.len() ==> (#[trigger] ts@[k])@ == g.terms(class)[k],
            forall|k: int| 0 <= k < i ==> (#[trigger] g.terms(class)[k]).op != OpV::Lit(l@),
        decreases ts.len() - i,
    {
        proof {
            assert(ts@[i as int]@ == g.terms(class)[i as int]);
        }
        if let Symbolic::Lit(other) = &ts[i] {
            if other.same(l) {
                return true;
            }
        }
        i += 1;
    }
    false
}

/// The extensions of a substitution under which a pattern matches a class.
pub fn match_term(g: &Graph, term: &PreparedTerm, class: Id, caps: &Vec<Id>, sigma: &Sigma) -> (out: Vec<
    Sigma,
>)
    requires
        g.wf(),
        g.has(class),
        g.has_all(caps@),
        sigma_in(*g, sigma@.len(), sigma@),
        pattern_ok(*term, sigma@.len(), caps@.len()),
    ensures
        sigmas_view(out@) == match_tm(*g, *term, class, caps@, sigma@),
        sigmas_in(*g, sigma@.len(), out@),
    decreases *term, 1int,
{
    match term {
        PreparedTerm::Bound(i) => match sigma[*i] {
            Some(prev) => {
                proof {
                    assert(sigma@[*i as int] == Some(prev));
                }
                if g.find(prev) == g.find(class) {
                    only(copy_sigma(sigma))
                } else {
                    no_match()
                }
            },
            None => {
                let mut next = copy_sigma(sigma);
                next.set(*i, Some(g.find(class)));
                only(next)
            },
        },
        PreparedTerm::Capture(c) => {
            proof {
                assert(g.has(caps@[*c as int]));
            }
            if g.find(caps[*c]) == g.find(class) {
                only(copy_sigma(sigma))
            } else {
                no_match()
            }
        },
        PreparedTerm::Lit(l) => if find_literal(g, class, l) {
            only(copy_sigma(sigma))
        } else {
            no_match()
        },
        PreparedTerm::App { func, type_args, args } => {
            let ghost tys = types_view(type_args@);
            let ghost all = g.terms(class);
            let ts = g.terms_of(class);
            let mut out = no_match();
            let mut i: usize = 0;
            proof {
                assert(all.take(0) =~= Seq::<Node>::empty());
            }
            while i < ts.len()
                invariant
                    g.wf(),
                    g.has_all(caps@),
                    sigma_in(*g, sigma@.len(), sigma@),
                    patterns_ok(args@, sigma@.len(), caps@.len()),
                    tys == types_view(type_args@),
                    i <= ts@.len(),
                    ts@.len() == all.len(),
                    forall|k: int| 0 <= k < ts@.len() ==> (#[trigger] ts@[k])@ == all[k],
                    forall|k: int| 0 <= k < ts@.len() ==> g.has_all((#[trigger] ts@[k])@.args),
                    decreases_to!(*term => args),
                    sigmas_view(out@) == match_terms(
                        *g,
                        *func,
                        tys,
                        args@,
                        all.take(i as int),
                        caps@,
                        sigma@,
                    ),
                    sigmas_in(*g, sigma@.len(), out@),
                decreases ts.len() - i,
            {
                let ghost before = sigmas_view(out@);
                proof {
                    assert(all.take(i + 1).drop_last() =~= all.take(i as int));
                    assert(all.take(i + 1).last() == all[i as int]);
                    assert(g.has_all(ts@[i as int]@.args));
                    assert(before + Seq::empty() =~= before);
                }
                if let Symbolic::FuncApp(f, tys2, children) = &ts[i] {
                    if *f == *func && same_types(tys2, type_args) && children.len() == args.len() {
                        append_sigmas(&mut out, match_children(g, args, children, caps, sigma));
                    }
                }
                i += 1;
            }
            proof {
                assert(all.take(all.len() as int) =~= all);
            }
            out
        },
    }
}

pub proof fn lemma_pattern_at(ts: Seq<PreparedTerm>, n_bound: nat, n_caps: nat, i: int)
    requires
        patterns_ok(ts, n_bound, n_caps),
        0 <= i < ts.len(),
    ensures
        pattern_ok(ts[i], n_bound, n_caps),
    decreases ts.len(),
{
    if i < ts.len() - 1 {
        lemma_pattern_at(ts.drop_last(), n_bound, n_caps, i);
    }
}

fn match_children(
    g: &Graph,
    args: &Vec<PreparedTerm>,
    children: &Vec<Id>,
    caps: &Vec<Id>,
    sigma: &Sigma,
) -> (out: Vec<Sigma>)
    requires
        g.wf(),
        g.has_all(children@),
        g.has_all(caps@),
        sigma_in(*g, sigma@.len(), sigma@),
        patterns_ok(args@, sigma@.len(), caps@.len()),
        children@.len() == args@.len(),
    ensures
        sigmas_view(out@) == match_args(*g, args@, children@, caps@, sigma@),
        sigmas_in(*g, sigma@.len(), out@),
    decreases *args, 0int,
{
    let mut out = only(copy_sigma(sigma));
    let mut i: usize = 0;
    proof {
        assert(args@.take(0) =~= Seq::empty());
    }
    while i < args.len()
        invariant
            g.wf(),
            g.has_all(children@),
            g.has_all(caps@),
            patterns_ok(args@, sigma@.len(), caps@.len()),
            children@.len() == args@.len(),
            i <= args@.len(),
            sigmas_view(out@) == match_args(
                *g,
                args@.take(i as int),
                children@.take(i as int),
                caps@,
                sigma@,
            ),
            sigmas_in(*g, sigma@.len(), out@),
        decreases args.len() - i,
    {
        proof {
            lemma_pattern_at(args@, sigma@.len(), caps@.len(), i as int);
            assert(g.has(children@[i as int]));
            assert(args@.take(i + 1).drop_last() =~= args@.take(i as int));
            assert(children@.take(i + 1).drop_last() =~= children@.take(i as int));
            assert(args@.take(i + 1).last() == args@[i as int]);
            assert(children@.take(i + 1).last() == children@[i as int]);
            assert(decreases_to!(args => args@[i as int]));
        }
        let ghost all = sigmas_view(out@);
        let mut next = no_match();
        let mut j: usize = 0;
        proof {
            assert(all.take(0) =~= Seq::empty());
        }
        while j < out.len()
            invariant
                g.wf(),
                g.has_all(caps@),
                i < args@.len(),
                i < children@.len(),
                g.has(children@[i as int]),
                pattern_ok(args@[i as int], sigma@.len(), caps@.len()),
                decreases_to!(args => args@[i as int]),
                j <= out@.len(),
                all == sigmas_view(out@),
                sigmas_in(*g, sigma@.len(), out@),
                sigmas_view(next@) == match_each(
                    *g,
                    args@[i as int],
                    children@[i as int],
                    caps@,
                    all.take(j as int),
                ),
                sigmas_in(*g, sigma@.len(), next@),
            decreases out.len() - j,
        {
            proof {
                assert(sigma_in(*g, sigma@.len(), out@[j as int]@));
                assert(all.take(j + 1).drop_last() =~= all.take(j as int));
                assert(all.take(j + 1).last() == out@[j as int]@);
            }
            append_sigmas(&mut next, match_term(g, &args[i], children[i], caps, &out[j]));
            j += 1;
        }
        proof {
            assert(all.take(all.len() as int) =~= all);
        }
        out = next;
        i += 1;
    }
    proof {
        assert(args@.take(args@.len() as int) =~= args@);
        assert(children@.take(children@.len() as int) =~= children@);
    }
    out
}

/// Every substitution of a list has `n` slots.
pub open spec fn all_len(ss: Seq<Seq<Option<Id>>>, n: nat) -> bool {
    forall|i: int| 0 <= i < ss.len() ==> (#[trigger] ss[i]).len() == n
}

pub proof fn lemma_all_len_concat(a: Seq<Seq<Option<Id>>>, b: Seq<Seq<Option<Id>>>, n: nat)
    requires
        all_len(a, n),
        all_len(b, n),
    ensures
        all_len(a + b, n),
{
    assert forall|i: int| 0 <= i < (a + b).len() implies (#[trigger] (a + b)[i]).len() == n by {
        if i < a.len() {
            assert((a + b)[i] == a[i]);
        } else {
            assert((a + b)[i] == b[i - a.len()]);
        }
    }
}

proof fn lemma_each_len(
    g: Graph,
    t: PreparedTerm,
    class: Id,
    caps: Seq<Id>,
    sigmas: Seq<Seq<Option<Id>>>,
    n: nat,
)
    requires
        all_len(sigmas, n),
        pattern_ok(t, n, caps.len()),
    ensures
        all_len(match_each(g, t, class, caps, sigmas), n),
    decreases t, 2int, sigmas.len(),
{
    if sigmas.len() > 0 {
        assert forall|i: int| 0 <= i < sigmas.drop_last().len() implies (
        #[trigger] sigmas.drop_last()[i]).len() == n by {
            assert(sigmas.drop_last()[i] == sigmas[i]);
        }
        lemma_each_len(g, t, class, caps, sigmas.drop_last(), n);
        assert(sigmas[sigmas.len() - 1].len() == n);
        lemma_match_len(g, t, class, caps, sigmas.last());
        lemma_all_len_concat(
            match_each(g, t, class, caps, sigmas.drop_last()),
            match_tm(g, t, class, caps, sigmas.last()),
            n,
        );
    }
}

proof fn lemma_args_len(
    g: Graph,
    args: Seq<PreparedTerm>,
    children: Seq<Id>,
    caps: Seq<Id>,
    sigma: Seq<Option<Id>>,
)
    requires
        patterns_ok(args, sigma.len(), caps.len()),
    ensures
        all_len(match_args(g, args, children, caps, sigma), sigma.len()),
    decreases args, 0int, 0nat,
{
    if args.len() == 0 || children.len() == 0 {
    } else {
        lemma_args_len(g, args.drop_last(), children.drop_last(), caps, sigma);
        lemma_each_len(
            g,
            args.last(),
            children.last(),
            caps,
            match_args(g, args.drop_last(), children.drop_last(), caps, sigma),
            sigma.len(),
        );
    }
}

proof fn lemma_terms_len(
    g: Graph,
    func: FuncId,
    tys: Seq<TypeV>,
    args: Seq<PreparedTerm>,
    ts: Seq<Node>,
    caps: Seq<Id>,
    sigma: Seq<Option<Id>>,
)
    requires
        patterns_ok(args, sigma.len(), caps.len()),
    ensures
        all_len(match_terms(g, func, tys, args, ts, caps, sigma), sigma.len()),
    decreases args, 1int, ts.len(),
{
    if ts.len() > 0 {
        lemma_terms_len(g, func, tys, args, ts.drop_last(), caps, sigma);
        lemma_args_len(g, args, ts.last().args, caps, sigma);
        let front = match_terms(g, func, tys, args, ts.drop_last(), caps, sigma);
        let back = match_args(g, args, ts.last().args, caps, sigma);
        lemma_all_len_concat(front, back, sigma.len());
        lemma_all_len_concat(front, Seq::empty(), sigma.len());
    }
}

/// Matching keeps the slots.
pub proof fn lemma_match_len(
    g: Graph,
    t: PreparedTerm,
    class: Id,
    caps: Seq<Id>,
    sigma: Seq<Option<Id>>,
)
    requires
        pattern_ok(t, sigma.len(), caps.len()),
    ensures
        all_len(match_tm(g, t, class, caps, sigma), sigma.len()),
    decreases t, 1int, 0nat,
{
    match t {
        PreparedTerm::App { func, type_args, args } => {
            let tys = types_view(type_args@);
            lemma_terms_len(g, func, tys, args@, g.terms(class), caps, sigma);
        },
        _ => {},
    }
}

} // verus!
