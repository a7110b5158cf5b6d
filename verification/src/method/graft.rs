//! Carrying what was proven of a resource over to a caller.

use crate::context::{
    builds, fresh_node, learns, lemma_builds_refl, lemma_leads_trans, lemma_learns_asserted,
    lemma_learns_extended, lemma_learns_refl, lemma_learns_trans, t_fresh, Context,
};
use crate::graph::{lemma_canon_in, lemma_canon_value, lemma_len_bound, lemma_terms_in, Graph};
use crate::lang::{Id, Node, Symbolic};
use crate::method::merge::{absorb, adds_up, holds_joined, learns_agreements};
use crate::method::plain::{entries_in, lemma_entries_grow, Chunk, Heap};
use crate::method::subtract::same_fact;
use crate::model::{equation_holds, t_node, Model, Tm};
use crate::terms::{built, group_grows, lemma_grows_denotes};
use crate::types::Oracle;
use crate::vmir::Polarity;
use vstd::prelude::*;

verus! {

broadcast use crate::context::lemma_builds_trans;

/// What was proven of a resource: its graph, the classes of its parameters, of the
/// addresses, permissions and values that it asks for, and of its boolean.
pub struct ResourceCertificate {
    pub graph: Graph,
    pub types: Oracle,
    pub params: Vec<Id>,
    pub delta: Vec<(Id, Id, Id)>,
    pub bool_id: Id,
}

/// An id that stands for its class.
pub open spec fn canonical(g: Graph, id: Id) -> bool {
    g.has(id) && g.canon(id) == id
}

impl ResourceCertificate {
    /// The graph is sound, and every id stands for its class in it.
    pub open spec fn wf(self) -> bool {
        &&& self.graph.wf()
        &&& self.graph.has_all(self.params@)
        &&& forall|i: int|
            0 <= i < self.params@.len() ==> canonical(self.graph, #[trigger] self.params@[i])
        &&& canonical(self.graph, self.bool_id)
        &&& forall|i: int|
            0 <= i < self.delta@.len() ==> canonical(self.graph, (#[trigger] self.delta@[i]).0)
                && canonical(self.graph, self.delta@[i].1) && canonical(
                self.graph,
                self.delta@[i].2,
            )
    }
}

/// Two images that were given to one class are one.
pub open spec fn seed_fact(g: Graph, from: Seq<Id>, to: Seq<Id>, f: (Tm, Tm)) -> bool {
    exists|j: int, k: int|
        {
            &&& 0 <= j < from.len()
            &&& 0 <= k < from.len()
            &&& g.canon(from[j]) == g.canon(from[k])
            &&& f == #[trigger] same_fact(to[j], to[k])
        }
}

/// The image of a class is the image of a term of it.
pub open spec fn term_fact(g: Graph, map: Seq<Option<Id>>, f: (Tm, Tm)) -> bool {
    exists|class: Id, k: int|
        {
            &&& g.has(class)
            &&& 0 <= k < g.terms(class).len()
            &&& image_of(g, map, class) is Some
            &&& carried(g, map, g.terms(class)[k])
            &&& f == #[trigger] carried_fact(g, map, class, k)
        }
}

/// What a term says of the image of its class.
pub open spec fn carried_fact(g: Graph, map: Seq<Option<Id>>, class: Id, k: int) -> (Tm, Tm) {
    (
        Tm::Class(image_of(g, map, class).unwrap()),
        t_node(image_term(g, map, g.terms(class)[k])),
    )
}

pub open spec fn seed_facts(g: Graph, from: Seq<Id>, to: Seq<Id>, fs: Seq<(Tm, Tm)>) -> bool {
    forall|i: int| 0 <= i < fs.len() ==> seed_fact(g, from, to, #[trigger] fs[i])
}

pub open spec fn term_facts(g: Graph, map: Seq<Option<Id>>, fs: Seq<(Tm, Tm)>) -> bool {
    forall|i: int| 0 <= i < fs.len() ==> term_fact(g, map, #[trigger] fs[i])
}

/// A later state that learned of images of one class that they are one, and nothing else.
pub open spec fn learns_seeds(
    g: Graph,
    from: Seq<Id>,
    to: Seq<Id>,
    a: Context,
    b: Context,
) -> bool {
    exists|fs: Seq<(Tm, Tm)>| #[trigger] learns(a, b, fs) && seed_facts(g, from, to, fs)
}

/// A later state that learned of the images of classes what their terms say, and nothing
/// else.
pub open spec fn learns_terms(g: Graph, map: Seq<Option<Id>>, a: Context, b: Context) -> bool {
    exists|fs: Seq<(Tm, Tm)>| #[trigger] learns(a, b, fs) && term_facts(g, map, fs)
}

/// A later state that learned what a graph says of images of its classes: `to` for `from`,
/// and new symbols and what is built over them for the others.
pub open spec fn learns_image(
    g: Graph,
    map: Seq<Option<Id>>,
    from: Seq<Id>,
    to: Seq<Id>,
    a: Context,
    b: Context,
) -> bool {
    exists|c: Context, d: Context, e: Context|
        {
            &&& #[trigger] learns_seeds(g, from, to, a, c)
            &&& builds(c, d)
            &&& #[trigger] learns_terms(g, map, d, e)
            &&& builds(e, b)
        }
}

/// What a graph says of images of its classes was learned.
pub open spec fn learns_cert(g: Graph, from: Seq<Id>, to: Seq<Id>, a: Context, b: Context) -> bool {
    exists|map: Seq<Option<Id>>| #[trigger] learns_image(g, map, from, to, a, b)
}

proof fn lemma_seeds_step(
    g: Graph,
    from: Seq<Id>,
    to: Seq<Id>,
    a: Context,
    b: Context,
    c: Context,
    f: (Tm, Tm),
)
    requires
        learns_seeds(g, from, to, a, b),
        learns(b, c, seq![f]),
        seed_fact(g, from, to, f),
    ensures
        learns_seeds(g, from, to, a, c),
{
    let fs = choose|fs: Seq<(Tm, Tm)>| #[trigger] learns(a, b, fs) && seed_facts(g, from, to, fs);
    lemma_learns_trans(a, b, c, fs, seq![f]);
    let all = fs + seq![f];
    assert forall|i: int| 0 <= i < all.len() implies seed_fact(g, from, to, #[trigger] all[i]) by {
        if i < fs.len() {
            assert(all[i] == fs[i]);
        } else {
            assert(all[i] == f);
        }
    }
    assert(learns(a, c, all) && seed_facts(g, from, to, all));
}

proof fn lemma_terms_refl(g: Graph, map: Seq<Option<Id>>, a: Context)
    requires
        a.wf(),
    ensures
        learns_terms(g, map, a, a),
{
    lemma_learns_refl(a);
    assert(term_facts(g, map, Seq::empty()));
}

proof fn lemma_terms_trans(g: Graph, map: Seq<Option<Id>>, a: Context, b: Context, c: Context)
    requires
        learns_terms(g, map, a, b),
        learns_terms(g, map, b, c),
    ensures
        learns_terms(g, map, a, c),
{
    let p = choose|fs: Seq<(Tm, Tm)>| #[trigger] learns(a, b, fs) && term_facts(g, map, fs);
    let q = choose|fs: Seq<(Tm, Tm)>| #[trigger] learns(b, c, fs) && term_facts(g, map, fs);
    lemma_learns_trans(a, b, c, p, q);
    let all = p + q;
    assert forall|i: int| 0 <= i < all.len() implies term_fact(g, map, #[trigger] all[i]) by {
        if i < p.len() {
            assert(all[i] == p[i]);
        } else {
            assert(all[i] == q[i - p.len()]);
        }
    }
    assert(learns(a, c, all) && term_facts(g, map, all));
}

proof fn lemma_terms_built(g: Graph, map: Seq<Option<Id>>, a: Context, b: Context)
    requires
        a.wf(),
        builds(a, b),
    ensures
        learns_terms(g, map, a, b),
{
    lemma_learns_refl(a);
    lemma_learns_extended(a, a, b, Seq::empty());
    assert(term_facts(g, map, Seq::empty()));
}

proof fn lemma_image_built(
    g: Graph,
    map: Seq<Option<Id>>,
    from: Seq<Id>,
    to: Seq<Id>,
    a: Context,
    b: Context,
    c: Context,
)
    requires
        learns_image(g, map, from, to, a, b),
        builds(b, c),
    ensures
        learns_image(g, map, from, to, a, c),
{
    let (x, y, z) = choose|x: Context, y: Context, z: Context|
        {
            &&& #[trigger] learns_seeds(g, from, to, a, x)
            &&& builds(x, y)
            &&& #[trigger] learns_terms(g, map, y, z)
            &&& builds(z, b)
        };
    assert(builds(z, c));
    assert(learns_seeds(g, from, to, a, x) && learns_terms(g, map, y, z));
}

/// Makes two classes one.
pub fn unite(ctx: &mut Context, a: Id, b: Id)
    requires
        old(ctx).wf(),
        old(ctx).graph.has(a),
        old(ctx).graph.has(b),
    ensures
        learns(*old(ctx), *final(ctx), seq![same_fact(a, b)]),
        equal_in(final(ctx).graph, a, b),
{
    let ghost c0 = *ctx;
    ctx.union(a, b);
    proof {
        let f = same_fact(a, b);
        lemma_learns_refl(c0);
        lemma_learns_asserted(c0, c0, *ctx, Seq::empty(), seq![f]);
        assert(Seq::<(Tm, Tm)>::empty() + seq![f] =~= seq![f]);
        if !ctx.graph.full() {
            assert forall|m: Model| #[trigger] ctx.graph.models(m) implies m.at(a) == m.at(b) by {
                crate::context::lemma_learns_holds(c0, *ctx, seq![f], m);
                assert(equation_holds(m, seq![f][0]));
            }
        }
    }
}

/// In every model of the graph, two classes have one value.
pub open spec fn equal_in(g: Graph, a: Id, b: Id) -> bool {
    g.full() || forall|m: Model| #[trigger] g.models(m) ==> m.at(a) == m.at(b)
}

pub proof fn lemma_equal_grows(g: Graph, h: Graph, a: Id, b: Id)
    requires
        g.grows_to(h),
        equal_in(g, a, b),
    ensures
        equal_in(h, a, b),
{
    broadcast use group_grows;

}

/// The image of a class of the resource's graph.
pub open spec fn image_of(g: Graph, map: Seq<Option<Id>>, id: Id) -> Option<Id> {
    map[g.canon(id) as int]
}

/// Whether every class of a list has an image.
pub open spec fn all_mapped(g: Graph, map: Seq<Option<Id>>, ids: Seq<Id>) -> bool {
    forall|j: int| 0 <= j < ids.len() ==> image_of(g, map, #[trigger] ids[j]) is Some
}

/// The images of classes.
pub open spec fn images(g: Graph, map: Seq<Option<Id>>, ids: Seq<Id>) -> Seq<Id> {
    Seq::new(ids.len(), |j: int| image_of(g, map, ids[j]).unwrap())
}

/// A term that holds of its class's image: its children have images, and it is no
/// symbol. Symbols stand for themselves.
pub open spec fn carried(g: Graph, map: Seq<Option<Id>>, n: Node) -> bool {
    !(n.op is Fresh) && all_mapped(g, map, n.args)
}

/// The image of a term.
pub open spec fn image_term(g: Graph, map: Seq<Option<Id>>, n: Node) -> Node {
    Node { op: n.op, args: images(g, map, n.args) }
}

/// Images are classes of the caller's graph.
pub open spec fn map_in(g: Graph, map: Seq<Option<Id>>, h: Graph) -> bool {
    &&& map.len() == g.len()
    &&& forall|i: int| 0 <= i < map.len() ==> (#[trigger] map[i] matches Some(x) ==> h.has(x))
}

/// The first `n` terms of a class hold of its image.
pub open spec fn terms_carried(
    g: Graph,
    map: Seq<Option<Id>>,
    h: Graph,
    class: Id,
    n: int,
) -> bool {
    forall|k: int|
        #![trigger g.terms(class)[k]]
        0 <= k < n && image_of(g, map, class) is Some && carried(g, map, g.terms(class)[k])
            ==> h.denotes(
            image_of(g, map, class).unwrap(),
            t_node(image_term(g, map, g.terms(class)[k])),
        )
}

/// Every term of a class holds of its image.
pub open spec fn class_carried(g: Graph, map: Seq<Option<Id>>, h: Graph, class: Id) -> bool {
    terms_carried(g, map, h, class, g.terms(class).len() as int)
}

/// Every term of every class that has an image holds of the image.
pub open spec fn grafted(g: Graph, map: Seq<Option<Id>>, h: Graph) -> bool {
    forall|class: Id| g.has(class) ==> #[trigger] class_carried(g, map, h, class)
}

proof fn lemma_map_grows(g: Graph, map: Seq<Option<Id>>, h: Graph, k: Graph)
    requires
        map_in(g, map, h),
        h.grows_to(k),
    ensures
        map_in(g, map, k),
{
    assert forall|i: int| 0 <= i < map.len() implies (#[trigger] map[i] matches Some(x) ==> k.has(
        x,
    )) by {
        assert(map[i] matches Some(x) ==> h.has(x));
    }
}

proof fn lemma_carried_grows(
    g: Graph,
    map: Seq<Option<Id>>,
    h: Graph,
    k: Graph,
    class: Id,
    n: int,
)
    requires
        h.grows_to(k),
        terms_carried(g, map, h, class, n),
    ensures
        terms_carried(g, map, k, class, n),
{
    assert forall|j: int|
        #![trigger g.terms(class)[j]]
        0 <= j < n && image_of(g, map, class) is Some && carried(
            g,
            map,
            g.terms(class)[j],
        ) implies k.denotes(
        image_of(g, map, class).unwrap(),
        t_node(image_term(g, map, g.terms(class)[j])),
    ) by {
        lemma_grows_denotes(
            h,
            k,
            image_of(g, map, class).unwrap(),
            t_node(image_term(g, map, g.terms(class)[j])),
        );
    }
}

/// The images of the children of a term, where all have one.
fn image_args(g: &Graph, map: &Vec<Option<Id>>, args: &Vec<Id>, h: Ghost<Graph>) -> (r: Option<
    Vec<Id>,
>)
    requires
        g.wf(),
        g.has_all(args@),
        map_in(*g, map@, h@),
    ensures
        r is Some == all_mapped(*g, map@, args@),
        r matches Some(xs) ==> xs@ == images(*g, map@, args@) && h@.has_all(xs@),
{
    let mut out: Vec<Id> = Vec::new();
    let mut i: usize = 0;
    while i < args.len()
        invariant
            g.wf(),
            g.has_all(args@),
            map_in(*g, map@, h@),
            i <= args@.len(),
            out@.len() == i,
            forall|j: int|
                0 <= j < i ==> image_of(*g, map@, #[trigger] args@[j]) == Some(out@[j]) && h@.has(
                    out@[j],
                ),
        decreases args.len() - i,
    {
        proof {
            assert(g.has(args@[i as int]));
            lemma_canon_in(*g, args@[i as int]);
        }
        let c = g.find(args[i]);
        match map[c as usize] {
            Some(x) => {
                proof {
                    assert(map@[c as int] matches Some(x) ==> h@.has(x));
                }
                out.push(x);
            },
            None => {
                assert(image_of(*g, map@, args@[i as int]) is None);
                return None;
            },
        }
        i += 1;
    }
    proof {
        assert(out@ =~= images(*g, map@, args@));
        assert forall|j: int| 0 <= j < out@.len() implies h@.has(#[trigger] out@[j]) by {
            assert(image_of(*g, map@, args@[j]) == Some(out@[j]));
        }
    }
    Some(out)
}

/// Every given class has an image that equals what it was given.
pub open spec fn seeded(
    g: Graph,
    map: Seq<Option<Id>>,
    h: Graph,
    from: Seq<Id>,
    to: Seq<Id>,
    n: int,
) -> bool {
    forall|j: int|
        0 <= j < n ==> (image_of(g, map, #[trigger] from[j]) matches Some(x) && equal_in(
            h,
            x,
            to[j],
        ))
}

/// `b` has the images of `a`, and maybe more.
pub open spec fn map_extends(a: Seq<Option<Id>>, b: Seq<Option<Id>>) -> bool {
    &&& a.len() == b.len()
    &&& forall|i: int| 0 <= i < a.len() ==> (#[trigger] a[i] is Some ==> b[i] == a[i])
}

proof fn lemma_seeded_grows(
    g: Graph,
    a: Seq<Option<Id>>,
    b: Seq<Option<Id>>,
    h: Graph,
    k: Graph,
    from: Seq<Id>,
    to: Seq<Id>,
    n: int,
)
    requires
        g.wf(),
        g.has_all(from),
        n <= from.len(),
        a.len() == g.len(),
        h.grows_to(k),
        map_extends(a, b),
        seeded(g, a, h, from, to, n),
    ensures
        seeded(g, b, k, from, to, n),
{
    assert forall|j: int| 0 <= j < n implies (image_of(g, b, #[trigger] from[j]) matches Some(x)
        && equal_in(k, x, to[j])) by {
        assert(g.has(from[j]));
        lemma_canon_in(g, from[j]);
        assert(image_of(g, a, from[j]) is Some);
        assert(a[g.canon(from[j]) as int] is Some);
        lemma_equal_grows(h, k, image_of(g, a, from[j]).unwrap(), to[j]);
    }
}

/// A class was given an image.
pub open spec fn gives_image(
    g: Graph,
    from: Seq<Id>,
    to: Seq<Id>,
    k: int,
    class: int,
    x: Id,
) -> bool {
    g.canon(from[k]) as int == class && to[k] == x
}

/// Every image was given to its class, by one of the first `n` pairs.
spec fn given_images(
    g: Graph,
    from: Seq<Id>,
    to: Seq<Id>,
    map: Seq<Option<Id>>,
    n: int,
) -> bool {
    forall|i: int|
        0 <= i < map.len() && #[trigger] map[i] is Some ==> exists|k: int|
            0 <= k < n && #[trigger] gives_image(g, from, to, k, i, map[i].unwrap())
}

/// Gives the classes `from` the images `to`. Two images of one class become one.
fn seed(ctx: &mut Context, g: &Graph, from: &Vec<Id>, to: &Vec<Id>) -> (map: Vec<Option<Id>>)
    requires
        old(ctx).wf(),
        g.wf(),
        g.has_all(from@),
        old(ctx).graph.has_all(to@),
        from@.len() == to@.len(),
    ensures
        learns_seeds(*g, from@, to@, *old(ctx), *final(ctx)),
        map_in(*g, map@, final(ctx).graph),
        seeded(*g, map@, final(ctx).graph, from@, to@, from@.len() as int),
{
    let ghost c0 = *ctx;
    let n: usize = g.size();
    let mut map: Vec<Option<Id>> = Vec::new();
    let mut i: usize = 0;
    while i < n
        invariant
            i <= n,
            map@.len() == i,
            forall|k: int| 0 <= k < i ==> #[trigger] map@[k] is None,
        decreases n - i,
    {
        map.push(None);
        i += 1;
    }
    let mut j: usize = 0;
    proof {
        lemma_learns_refl(c0);
        assert(seed_facts(*g, from@, to@, Seq::empty()));
    }
    while j < from.len()
        invariant
            j <= from@.len(),
            from@.len() == to@.len(),
            g.wf(),
            ctx.wf(),
            g.has_all(from@),
            c0.graph.has_all(to@),
            learns_seeds(*g, from@, to@, c0, *ctx),
            given_images(*g, from@, to@, map@, j as int),
            map_in(*g, map@, ctx.graph),
            seeded(*g, map@, ctx.graph, from@, to@, j as int),
        decreases from.len() - j,
    {
        let ghost c1 = *ctx;
        let ghost before = map@;
        proof {
            assert(g.has(from@[j as int]));
            assert(c0.graph.has(to@[j as int]));
            lemma_canon_in(*g, from@[j as int]);
        }
        let c = g.find(from[j]);
        match map[c as usize] {
            Some(x) => {
                proof {
                    assert(before[c as int] matches Some(x) ==> c1.graph.has(x));
                }
                unite(ctx, x, to[j]);
                proof {
                    lemma_map_grows(*g, map@, c1.graph, ctx.graph);
                    let k = choose|k: int|
                        0 <= k < j && #[trigger] gives_image(*g, from@, to@, k, c as int, x);
                    assert(gives_image(*g, from@, to@, k, c as int, x));
                    let f = same_fact(to@[k], to@[j as int]);
                    assert(seed_fact(*g, from@, to@, f));
                    lemma_seeds_step(*g, from@, to@, c0, c1, *ctx, f);
                }
            },
            None => {
                map.set(c as usize, Some(to[j]));
                proof {
                    assert forall|k: int| 0 <= k < map@.len() implies (#[trigger] map@[k] matches Some(
                        x,
                    ) ==> ctx.graph.has(x)) by {
                        if k != c {
                            assert(map@[k] == before[k]);
                        }
                    }
                    assert(equal_in(ctx.graph, to@[j as int], to@[j as int]));
                    crate::terms::lemma_grows_refl(ctx.graph);
                }
            },
        }
        proof {
            assert(map_extends(before, map@));
            assert(gives_image(*g, from@, to@, j as int, c as int, to@[j as int]));
            assert forall|i: int| 0 <= i < map@.len() && #[trigger] map@[i] is Some implies exists|
                k: int,
            |
                0 <= k < j + 1 && #[trigger] gives_image(
                    *g,
                    from@,
                    to@,
                    k,
                    i,
                    map@[i].unwrap(),
                ) by {
                if before[i] is Some {
                    let k = choose|k: int|
                        0 <= k < j && #[trigger] gives_image(
                            *g,
                            from@,
                            to@,
                            k,
                            i,
                            before[i].unwrap(),
                        );
                    assert(gives_image(*g, from@, to@, k, i, map@[i].unwrap()));
                }
            }
            lemma_seeded_grows(
                *g,
                before,
                map@,
                c1.graph,
                ctx.graph,
                from@,
                to@,
                j as int,
            );
        }
        j += 1;
    }
    map
}

/// A term that gives its class an image: a symbol, or a term whose children have
/// images.
pub open spec fn mappable(g: Graph, map: Seq<Option<Id>>, n: Node) -> bool {
    n.op is Fresh || all_mapped(g, map, n.args)
}

/// None of the first `n` terms of a class gives it an image.
pub open spec fn unmappable(g: Graph, map: Seq<Option<Id>>, class: Id, n: int) -> bool {
    forall|k: int| 0 <= k < n ==> !mappable(g, map, #[trigger] g.terms(class)[k])
}

/// What a term gives its class as an image: for a symbol a new one, for another term
/// its image.
pub open spec fn image_made(
    c: Context,
    d: Context,
    g: Graph,
    map: Seq<Option<Id>>,
    n: Node,
    x: Id,
) -> bool {
    if n.op is Fresh {
        new_symbol(c, d, x)
    } else {
        built(c.graph, d.graph, x, t_node(image_term(g, map, n)))
    }
}

/// The class of a symbol that was not listed before.
pub open spec fn new_symbol(c: Context, d: Context, x: Id) -> bool {
    exists|n: u32|
        c.next_fresh <= n && built(c.graph, d.graph, x, #[trigger] t_fresh(n)) && (n < u32::MAX
            ==> !c.graph.lists(fresh_node(n)))
}

/// What a search for an image finds: what the first term that gives one makes, or
/// nothing where no term does.
pub open spec fn image_found(
    c: Context,
    d: Context,
    g: Graph,
    map: Seq<Option<Id>>,
    class: Id,
    r: Option<Id>,
) -> bool {
    match r {
        Some(x) => exists|k: int|
            {
                &&& 0 <= k < g.terms(class).len()
                &&& mappable(g, map, #[trigger] g.terms(class)[k])
                &&& unmappable(g, map, class, k)
                &&& image_made(c, d, g, map, g.terms(class)[k], x)
            },
        None => d == c && unmappable(g, map, class, g.terms(class).len() as int),
    }
}

/// Finds an image for a class: that of a term whose children have images, or a new
/// symbol for a symbol.
fn find_image(ctx: &mut Context, g: &Graph, map: &Vec<Option<Id>>, class: Id) -> (r: Option<Id>)
    requires
        old(ctx).wf(),
        g.wf(),
        g.has(class),
        map_in(*g, map@, old(ctx).graph),
    ensures
        old(ctx).leads_to(*final(ctx)),
        builds(*old(ctx), *final(ctx)),
        r matches Some(x) ==> final(ctx).graph.has(x),
        image_found(*old(ctx), *final(ctx), *g, map@, class, r),
{
    let ghost c0 = *ctx;
    let ts = g.terms_of(class);
    let mut k: usize = 0;
    while k < ts.len()
        invariant
            k <= ts@.len(),
            *ctx == c0,
            c0 == *old(ctx),
            c0.wf(),
            g.wf(),
            g.has(class),
            ts@.len() == g.terms(class).len(),
            forall|i: int| 0 <= i < ts@.len() ==> (#[trigger] ts@[i])@ == g.terms(class)[i],
            map_in(*g, map@, c0.graph),
            unmappable(*g, map@, class, k as int),
        decreases ts.len() - k,
    {
        proof {
            assert(ts@[k as int]@ == g.terms(class)[k as int]);
            lemma_terms_in(*g, class, k as int);
        }
        if let Symbolic::Fresh(_) = &ts[k] {
            let x = ctx.fresh();
            proof {
                assert(new_symbol(c0, *ctx, x));
                assert(mappable(*g, map@, g.terms(class)[k as int]));
                assert(image_made(c0, *ctx, *g, map@, g.terms(class)[k as int], x));
            }
            return Some(x);
        }
        let args = ts[k].children();
        if let Some(xs) = image_args(g, map, &args, Ghost(c0.graph)) {
            let op = ts[k].operator();
            let n = Symbolic::build(&op, &xs);
            let x = ctx.add(&n);
            proof {
                assert(mappable(*g, map@, g.terms(class)[k as int]));
                assert(n@ == image_term(*g, map@, g.terms(class)[k as int]));
                assert(image_made(c0, *ctx, *g, map@, g.terms(class)[k as int], x));
            }
            return Some(x);
        }
        k += 1;
    }
    proof {
        crate::context::lemma_leads_refl(c0);
    }
    None
}

/// Every class without an image lists no term that gives it one.
pub open spec fn discovered(g: Graph, map: Seq<Option<Id>>) -> bool {
    forall|class: Id| #[trigger]
        g.has(class) && image_of(g, map, class) is None ==> unmappable(
            g,
            map,
            class,
            g.terms(class).len() as int,
        )
}

/// The number of images.
spec fn mapped(map: Seq<Option<Id>>) -> nat
    decreases map.len(),
{
    if map.len() == 0 {
        0
    } else {
        mapped(map.drop_last()) + if map.last() is Some {
            1nat
        } else {
            0nat
        }
    }
}

proof fn lemma_mapped_bound(map: Seq<Option<Id>>)
    ensures
        mapped(map) <= map.len(),
        mapped(map) == map.len() ==> forall|i: int| 0 <= i < map.len() ==> #[trigger] map[i] is Some,
    decreases map.len(),
{
    if map.len() > 0 {
        lemma_mapped_bound(map.drop_last());
        if mapped(map) == map.len() {
            assert forall|i: int| 0 <= i < map.len() implies #[trigger] map[i] is Some by {
                if i < map.len() - 1 {
                    assert(map.drop_last()[i] is Some);
                }
            }
        }
    }
}

proof fn lemma_mapped_set(map: Seq<Option<Id>>, i: int, x: Id)
    requires
        0 <= i < map.len(),
        map[i] is None,
    ensures
        mapped(map.update(i, Some(x))) == mapped(map) + 1,
    decreases map.len(),
{
    let now = map.update(i, Some(x));
    if i < map.len() - 1 {
        lemma_mapped_set(map.drop_last(), i, x);
        assert(now.drop_last() =~= map.drop_last().update(i, Some(x)));
    } else {
        assert(now.drop_last() =~= map.drop_last());
    }
}

/// None of the first `n` classes without an image lists a term that gives it one.
spec fn discovered_below(g: Graph, map: Seq<Option<Id>>, n: int) -> bool {
    forall|class: Id|
        class < n && g.canon(class) == class && map[class as int] is None ==> #[trigger] unmappable(
            g,
            map,
            class,
            g.terms(class).len() as int,
        )
}

proof fn lemma_discovered(g: Graph, map: Seq<Option<Id>>)
    requires
        g.wf(),
        map.len() == g.len(),
        discovered_below(g, map, g.len() as int),
    ensures
        discovered(g, map),
{
    assert forall|class: Id| #[trigger]
        g.has(class) && image_of(g, map, class) is None implies unmappable(
        g,
        map,
        class,
        g.terms(class).len() as int,
    ) by {
        let c = g.canon(class);
        lemma_canon_in(g, class);
        assert(unmappable(g, map, c, g.terms(c).len() as int));
        assert forall|k: int| 0 <= k < g.terms(class).len() implies !mappable(
            g,
            map,
            #[trigger] g.terms(class)[k],
        ) by {
            assert(!mappable(g, map, g.terms(c)[k]));
        }
    }
}

/// Gives images to classes until no more can get one.
fn discover(
    ctx: &mut Context,
    g: &Graph,
    map: &mut Vec<Option<Id>>,
    from: Ghost<Seq<Id>>,
    to: Ghost<Seq<Id>>,
)
    requires
        old(ctx).wf(),
        g.wf(),
        g.has_all(from@),
        map_in(*g, old(map)@, old(ctx).graph),
        seeded(*g, old(map)@, old(ctx).graph, from@, to@, from@.len() as int),
    ensures
        builds(*old(ctx), *final(ctx)),
        map_in(*g, final(map)@, final(ctx).graph),
        map_extends(old(map)@, final(map)@),
        discovered(*g, final(map)@),
        seeded(*g, final(map)@, final(ctx).graph, from@, to@, from@.len() as int),
{
    let ghost c0 = *ctx;
    let ghost m0 = map@;
    let n: usize = g.size();
    let mut round: usize = 0;
    let mut progress: bool = true;
    proof {
        lemma_builds_refl(c0);
        lemma_len_bound(*g);
    }
    while progress && round < n
        invariant
            round <= n,
            n == g.len(),
            n <= u32::MAX,
            g.wf(),
            ctx.wf(),
            g.has_all(from@),
            map@.len() == n,
            m0.len() == n,
            builds(c0, *ctx),
            map_in(*g, map@, ctx.graph),
            map_extends(m0, map@),
            seeded(*g, map@, ctx.graph, from@, to@, from@.len() as int),
            progress ==> mapped(map@) >= round,
            !progress ==> discovered(*g, map@),
        decreases n - round,
    {
        let ghost m1 = map@;
        progress = false;
        let mut i: usize = 0;
        while i < n
            invariant
                i <= n,
                n == g.len(),
                n <= u32::MAX,
                g.wf(),
                ctx.wf(),
                g.has_all(from@),
                map@.len() == n,
                m0.len() == n,
                builds(c0, *ctx),
                map_in(*g, map@, ctx.graph),
                map_extends(m0, map@),
                seeded(*g, map@, ctx.graph, from@, to@, from@.len() as int),
                mapped(m1) >= round,
                progress ==> mapped(map@) > mapped(m1),
                !progress ==> map@ == m1 && discovered_below(*g, map@, i as int),
            decreases n - i,
        {
            let id: Id = i as Id;
            if g.find(id) == id && map[i].is_none() {
                let ghost c1 = *ctx;
                let ghost before = map@;
                let found = find_image(ctx, g, map, id);
                proof {
                    assert(builds(c0, c1) && builds(c1, *ctx));
                    lemma_map_grows(*g, before, c1.graph, ctx.graph);
                }
                if let Some(x) = found {
                    map.set(i, Some(x));
                    progress = true;
                    proof {
                        lemma_mapped_set(before, i as int, x);
                        assert forall|k: int| 0 <= k < map@.len() implies (
                        #[trigger] map@[k] matches Some(x) ==> ctx.graph.has(x)) by {
                            if k != i {
                                assert(map@[k] == before[k]);
                            }
                        }
                    }
                }
                proof {
                    assert(map_extends(before, map@));
                    assert(map_extends(m0, map@)) by {
                        assert forall|k: int| 0 <= k < m0.len() implies (
                        #[trigger] m0[k] is Some ==> map@[k] == m0[k]) by {
                            assert(m0[k] is Some ==> before[k] == m0[k]);
                        }
                    }
                    lemma_seeded_grows(
                        *g,
                        before,
                        map@,
                        c1.graph,
                        ctx.graph,
                        from@,
                        to@,
                        from@.len() as int,
                    );
                }
            }
            i += 1;
        }
        proof {
            if !progress {
                lemma_discovered(*g, map@);
            }
        }
        round += 1;
    }
    proof {
        if progress {
            lemma_mapped_bound(map@);
            assert forall|class: Id| #[trigger] g.has(class) implies image_of(
                *g,
                map@,
                class,
            ) is Some by {
                lemma_canon_in(*g, class);
            }
        }
    }
}

/// Asserts of the image of a class what its terms say.
fn carry_class(ctx: &mut Context, g: &Graph, map: &Vec<Option<Id>>, class: Id)
    requires
        old(ctx).wf(),
        g.wf(),
        g.has(class),
        map_in(*g, map@, old(ctx).graph),
    ensures
        learns_terms(*g, map@, *old(ctx), *final(ctx)),
        map_in(*g, map@, final(ctx).graph),
        terms_carried(*g, map@, final(ctx).graph, class, g.terms(class).len() as int),
{
    let ghost c0 = *ctx;
    proof {
        lemma_terms_refl(*g, map@, c0);
        lemma_canon_in(*g, class);
    }
    let c = g.find(class);
    let image = match map[c as usize] {
        Some(x) => x,
        None => {
            assert(image_of(*g, map@, class) is None);
            return;
        },
    };
    let ts = g.terms_of(class);
    let mut k: usize = 0;
    while k < ts.len()
        invariant
            k <= ts@.len(),
            g.wf(),
            g.has(class),
            ctx.wf(),
            image_of(*g, map@, class) == Some(image),
            c as int == g.canon(class) as int,
            0 <= c < map@.len(),
            ts@.len() == g.terms(class).len(),
            forall|i: int| 0 <= i < ts@.len() ==> (#[trigger] ts@[i])@ == g.terms(class)[i],
            map_in(*g, map@, ctx.graph),
            learns_terms(*g, map@, c0, *ctx),
            terms_carried(*g, map@, ctx.graph, class, k as int),
        decreases ts.len() - k,
    {
        let ghost c1 = *ctx;
        proof {
            assert(ts@[k as int]@ == g.terms(class)[k as int]);
            lemma_terms_in(*g, class, k as int);
            assert(map@[c as int] matches Some(x) ==> c1.graph.has(x));
        }
        let symbol = match &ts[k] {
            Symbolic::Fresh(_) => true,
            _ => false,
        };
        let args = ts[k].children();
        let found = image_args(g, map, &args, Ghost(c1.graph));
        if let Some(xs) = found {
            if !symbol {
                let op = ts[k].operator();
                let n = Symbolic::build(&op, &xs);
                let x = ctx.add(&n);
                let ghost c2 = *ctx;
                ctx.equate(image, x, Ghost(Tm::Class(image)), Ghost(t_node(n@)));
                proof {
                    let f = (Tm::Class(image), t_node(n@));
                    assert(n@ == image_term(*g, map@, g.terms(class)[k as int]));
                    assert(f == carried_fact(*g, map@, class, k as int));
                    assert(term_fact(*g, map@, f));
                    lemma_learns_refl(c2);
                    lemma_learns_asserted(c2, c2, *ctx, Seq::empty(), seq![f]);
                    assert(Seq::<(Tm, Tm)>::empty() + seq![f] =~= seq![f]);
                    assert(term_facts(*g, map@, seq![f]));
                    lemma_terms_built(*g, map@, c1, c2);
                    lemma_terms_trans(*g, map@, c1, c2, *ctx);
                    lemma_terms_trans(*g, map@, c0, c1, *ctx);
                    assert(equal_in(ctx.graph, image, x)) by {
                        if !ctx.graph.full() {
                            assert forall|m: Model| #[trigger] ctx.graph.models(m) implies m.at(
                                image,
                            ) == m.at(x) by {
                                lemma_canon_value(ctx.graph, m, image);
                                lemma_canon_value(ctx.graph, m, x);
                            }
                        }
                    }
                    lemma_map_grows(*g, map@, c1.graph, c2.graph);
                    lemma_map_grows(*g, map@, c2.graph, ctx.graph);
                    lemma_carried_grows(*g, map@, c1.graph, c2.graph, class, k as int);
                    lemma_carried_grows(*g, map@, c2.graph, ctx.graph, class, k as int);
                    assert(n@ == image_term(*g, map@, g.terms(class)[k as int]));
                    lemma_grows_denotes(c2.graph, ctx.graph, x, t_node(n@));
                    lemma_denotes_equal(ctx.graph, image, x, t_node(n@));
                }
            }
        }
        k += 1;
    }
}

proof fn lemma_denotes_equal(g: Graph, a: Id, b: Id, t: Tm)
    requires
        equal_in(g, a, b),
        g.denotes(b, t),
    ensures
        g.denotes(a, t),
{
}

/// Asserts of all images what the terms of their classes say.
fn carry_all(ctx: &mut Context, g: &Graph, map: &Vec<Option<Id>>)
    requires
        old(ctx).wf(),
        g.wf(),
        map_in(*g, map@, old(ctx).graph),
    ensures
        learns_terms(*g, map@, *old(ctx), *final(ctx)),
        map_in(*g, map@, final(ctx).graph),
        grafted(*g, map@, final(ctx).graph),
{
    let ghost c0 = *ctx;
    let n: usize = g.size();
    let mut i: usize = 0;
    proof {
        lemma_terms_refl(*g, map@, c0);
        lemma_len_bound(*g);
    }
    while i < n
        invariant
            i <= n,
            n == g.len(),
            n <= u32::MAX,
            g.wf(),
            ctx.wf(),
            learns_terms(*g, map@, c0, *ctx),
            map_in(*g, map@, ctx.graph),
            forall|class: Id| class < i ==> #[trigger] class_carried(*g, map@, ctx.graph, class),
        decreases n - i,
    {
        let ghost c1 = *ctx;
        let id: Id = i as Id;
        carry_class(ctx, g, map, id);
        proof {
            lemma_terms_trans(*g, map@, c0, c1, *ctx);
            assert forall|class: Id| class < i + 1 implies #[trigger] class_carried(
                *g,
                map@,
                ctx.graph,
                class,
            ) by {
                if class < i {
                    assert(class_carried(*g, map@, c1.graph, class));
                    lemma_carried_grows(
                        *g,
                        map@,
                        c1.graph,
                        ctx.graph,
                        class,
                        g.terms(class).len() as int,
                    );
                } else {
                    assert(class == id);
                }
            }
        }
        i += 1;
    }
}

/// Carries a graph over into a context: the classes `from` become `to`, other symbols
/// become new ones, and every term holds of the image of its class.
pub fn graft(ctx: &mut Context, g: &Graph, from: &Vec<Id>, to: &Vec<Id>) -> (map: Vec<Option<Id>>)
    requires
        old(ctx).wf(),
        g.wf(),
        g.has_all(from@),
        old(ctx).graph.has_all(to@),
        from@.len() == to@.len(),
    ensures
        learns_image(*g, map@, from@, to@, *old(ctx), *final(ctx)),
        map_in(*g, map@, final(ctx).graph),
        seeded(*g, map@, final(ctx).graph, from@, to@, from@.len() as int),
        discovered(*g, map@),
        grafted(*g, map@, final(ctx).graph),
{
    let ghost c0 = *ctx;
    let mut map = seed(ctx, g, from, to);
    let ghost c1 = *ctx;
    discover(ctx, g, &mut map, Ghost(from@), Ghost(to@));
    let ghost c2 = *ctx;
    carry_all(ctx, g, &map);
    proof {
        lemma_builds_refl(*ctx);
        assert(learns_seeds(*g, from@, to@, c0, c1) && learns_terms(*g, map@, c2, *ctx));
        lemma_seeded_grows(
            *g,
            map@,
            map@,
            c2.graph,
            ctx.graph,
            from@,
            to@,
            from@.len() as int,
        );
    }
    map
}

/// `r` is the image of a class; a class without one has any.
pub open spec fn image_is(g: Graph, map: Seq<Option<Id>>, h: Graph, id: Id, r: Id) -> bool {
    h.has(r) && (image_of(g, map, id) matches Some(x) ==> r == x)
}

/// The image of a class. A class that has none gets a new symbol.
fn image(ctx: &mut Context, g: &Graph, map: &Vec<Option<Id>>, id: Id) -> (r: Id)
    requires
        old(ctx).wf(),
        g.wf(),
        g.has(id),
        map_in(*g, map@, old(ctx).graph),
    ensures
        old(ctx).leads_to(*final(ctx)),
        builds(*old(ctx), *final(ctx)),
        image_is(*g, map@, final(ctx).graph, id, r),
{
    proof {
        lemma_canon_in(*g, id);
        crate::context::lemma_leads_refl(*ctx);
    }
    let c = g.find(id);
    match map[c as usize] {
        Some(x) => {
            proof {
                assert(map@[c as int] matches Some(x) ==> ctx.graph.has(x));
            }
            x
        },
        None => ctx.fresh(),
    }
}

/// A certificate was carried over: every class that can have an image has one, the
/// images hold what its graph says, and those of the classes `from` equal `to`.
pub open spec fn carried_over(
    cert: ResourceCertificate,
    map: Seq<Option<Id>>,
    h: Graph,
    from: Seq<Id>,
    to: Seq<Id>,
) -> bool {
    &&& map_in(cert.graph, map, h)
    &&& discovered(cert.graph, map)
    &&& grafted(cert.graph, map, h)
    &&& seeded(cert.graph, map, h, from, to, from.len() as int)
}

proof fn lemma_carried_over_grows(
    cert: ResourceCertificate,
    map: Seq<Option<Id>>,
    h: Graph,
    k: Graph,
    from: Seq<Id>,
    to: Seq<Id>,
)
    requires
        cert.graph.wf(),
        cert.graph.has_all(from),
        h.grows_to(k),
        carried_over(cert, map, h, from, to),
    ensures
        carried_over(cert, map, k, from, to),
{
    let g = cert.graph;
    lemma_map_grows(g, map, h, k);
    lemma_seeded_grows(g, map, map, h, k, from, to, from.len() as int);
    assert forall|class: Id| g.has(class) implies #[trigger] class_carried(g, map, k, class) by {
        assert(class_carried(g, map, h, class));
        lemma_carried_grows(g, map, h, k, class, g.terms(class).len() as int);
    }
}

/// The images of what a resource asks for.
pub open spec fn delta_images(
    cert: ResourceCertificate,
    map: Seq<Option<Id>>,
    h: Graph,
    es: Seq<(Id, Chunk)>,
    n: int,
) -> bool {
    &&& es.len() == n
    &&& forall|i: int|
        0 <= i < n ==> image_is(cert.graph, map, h, cert.delta@[i].0, (#[trigger] es[i]).0)
            && image_is(cert.graph, map, h, cert.delta@[i].1, es[i].1.perm) && image_is(
            cert.graph,
            map,
            h,
            cert.delta@[i].2,
            es[i].1.value,
        )
}

/// What a resource asks for, address by address, in the caller's terms.
fn delta_entries(ctx: &mut Context, cert: &ResourceCertificate, map: &Vec<Option<Id>>) -> (r: Vec<
    (Id, Chunk),
>)
    requires
        old(ctx).wf(),
        cert.wf(),
        map_in(cert.graph, map@, old(ctx).graph),
    ensures
        old(ctx).leads_to(*final(ctx)),
        builds(*old(ctx), *final(ctx)),
        delta_images(*cert, map@, final(ctx).graph, r@, cert.delta@.len() as int),
        entries_in(final(ctx).graph, r@),
{
    let ghost c0 = *ctx;
    let mut out: Vec<(Id, Chunk)> = Vec::new();
    let mut i: usize = 0;
    proof {
        crate::context::lemma_leads_refl(c0);
    }
    while i < cert.delta.len()
        invariant
            i <= cert.delta@.len(),
            cert.wf(),
            ctx.wf(),
            c0.leads_to(*ctx),
            builds(c0, *ctx),
            map_in(cert.graph, map@, ctx.graph),
            delta_images(*cert, map@, ctx.graph, out@, i as int),
            entries_in(ctx.graph, out@),
        decreases cert.delta.len() - i,
    {
        let ghost c1 = *ctx;
        let ghost before = out@;
        let (a, p, v) = cert.delta[i];
        proof {
            assert(cert.graph.has(cert.delta@[i as int].0));
        }
        let x = image(ctx, &cert.graph, map, a);
        let ghost c2 = *ctx;
        proof {
            lemma_map_grows(cert.graph, map@, c1.graph, c2.graph);
        }
        let y = image(ctx, &cert.graph, map, p);
        let ghost c3 = *ctx;
        proof {
            lemma_map_grows(cert.graph, map@, c2.graph, c3.graph);
        }
        let z = image(ctx, &cert.graph, map, v);
        out.push((x, Chunk::new(y, z)));
        proof {
            lemma_leads_trans(c0, c1, c2);
            lemma_leads_trans(c0, c2, c3);
            lemma_leads_trans(c0, c3, *ctx);
            lemma_map_grows(cert.graph, map@, c3.graph, ctx.graph);
            let g = cert.graph;
            assert forall|k: int| 0 <= k < i + 1 implies image_is(
                g,
                map@,
                ctx.graph,
                cert.delta@[k].0,
                (#[trigger] out@[k]).0,
            ) && image_is(g, map@, ctx.graph, cert.delta@[k].1, out@[k].1.perm) && image_is(
                g,
                map@,
                ctx.graph,
                cert.delta@[k].2,
                out@[k].1.value,
            ) by {
                if k < i {
                    assert(out@[k] == before[k]);
                }
            }
            assert forall|k: int| 0 <= k < out@.len() implies ctx.graph.has((#[trigger] out@[k]).0)
                && ctx.graph.has(out@[k].1.perm) && ctx.graph.has(out@[k].1.value) by {
                if k < i {
                    assert(out@[k] == before[k]);
                }
            }
        }
        i += 1;
    }
    out
}

/// What a caller gets of a certificate: the heap that the resource asks for, and its
/// boolean.
pub open spec fn graft_result(
    cert: ResourceCertificate,
    args: Seq<Id>,
    h: Graph,
    heap: Heap,
    b: Id,
) -> bool {
    exists|map: Seq<Option<Id>>, es: Seq<(Id, Chunk)>|
        {
            &&& #[trigger] carried_over(cert, map, h, cert.params@, args)
            &&& #[trigger] delta_images(cert, map, h, es, cert.delta@.len() as int)
            &&& entries_in(h, es)
            &&& entries_in(h, heap.list())
            &&& holds_joined(h, heap@, Map::empty(), es)
            &&& adds_up(h, heap.list(), Seq::empty(), es)
            &&& image_is(cert.graph, map, h, cert.bool_id, b)
        }
}

/// A later state that learned what a resource says of images of its classes, and of the
/// chunks that it asks for that they agree at one address.
pub open spec fn learns_graft(
    cert: ResourceCertificate,
    args: Seq<Id>,
    a: Context,
    b: Context,
) -> bool {
    exists|mid: Context, map: Seq<Option<Id>>, es: Seq<(Id, Chunk)>|
        {
            &&& #[trigger] learns_image(cert.graph, map, cert.params@, args, a, mid)
            &&& #[trigger] delta_images(cert, map, b.graph, es, cert.delta@.len() as int)
            &&& learns_agreements(mid, b, Seq::empty(), es)
        }
}

/// Carries a certificate over to a call: the heap that the resource asks for of the
/// arguments, and its boolean. What was proven of the resource comes along.
pub fn graft_certificate(ctx: &mut Context, cert: &ResourceCertificate, args: &Vec<Id>) -> (r: (
    Heap,
    Id,
))
    requires
        old(ctx).wf(),
        cert.wf(),
        old(ctx).graph.has_all(args@),
        args@.len() == cert.params@.len(),
    ensures
        learns_graft(*cert, args@, *old(ctx), *final(ctx)),
        old(ctx).leads_to(*final(ctx)),
        graft_result(*cert, args@, final(ctx).graph, r.0, r.1),
        entries_in(final(ctx).graph, r.0.list()),
        final(ctx).graph.has(r.1),
{
    let ghost c0 = *ctx;
    let map = graft(ctx, &cert.graph, &cert.params, args);
    let ghost c1 = *ctx;
    let es = delta_entries(ctx, cert, &map);
    let ghost c2 = *ctx;
    proof {
        lemma_map_grows(cert.graph, map@, c1.graph, c2.graph);
    }
    let b = image(ctx, &cert.graph, &map, cert.bool_id);
    let ghost c3 = *ctx;
    let none = Heap::empty();
    let always: Vec<(Id, Polarity)> = Vec::new();
    proof {
        lemma_entries_grow(c2.graph, c3.graph, es@);
        assert(always@ =~= Seq::empty());
    }
    let heap = absorb(ctx, &none, &es, &always);
    proof {
        lemma_image_built(cert.graph, map@, cert.params@, args@, c0, c1, c2);
        lemma_image_built(cert.graph, map@, cert.params@, args@, c0, c2, c3);
        assert(none.list() + es@ =~= es@);
        assert(learns_agreements(c3, *ctx, Seq::empty(), es@));
        lemma_leads_trans(c0, c3, *ctx);
        lemma_leads_trans(c1, c2, c3);
        lemma_leads_trans(c1, c3, *ctx);
        lemma_leads_trans(c2, c3, *ctx);
        lemma_carried_over_grows(
            *cert,
            map@,
            c1.graph,
            ctx.graph,
            cert.params@,
            args@,
        );
        assert forall|i: int| 0 <= i < es@.len() implies image_is(
            cert.graph,
            map@,
            ctx.graph,
            cert.delta@[i].0,
            (#[trigger] es@[i]).0,
        ) && image_is(cert.graph, map@, ctx.graph, cert.delta@[i].1, es@[i].1.perm) && image_is(
            cert.graph,
            map@,
            ctx.graph,
            cert.delta@[i].2,
            es@[i].1.value,
        ) by {
            assert(image_is(cert.graph, map@, c2.graph, cert.delta@[i].0, es@[i].0));
        }
        lemma_entries_grow(c3.graph, ctx.graph, es@);
        assert(none.list() =~= Seq::empty());
        assert(carried_over(*cert, map@, ctx.graph, cert.params@, args@));
        assert(delta_images(*cert, map@, ctx.graph, es@, cert.delta@.len() as int));
        assert(learns_image(cert.graph, map@, cert.params@, args@, c0, c3));
    }
    (heap, b)
}

/// The addresses and permissions that a resource asks for, in the caller's terms.
pub open spec fn footprint_result(
    cert: ResourceCertificate,
    args: Seq<Id>,
    h: Graph,
    fp: Seq<(Id, Chunk)>,
) -> bool {
    exists|map: Seq<Option<Id>>| #[trigger]
        carried_over(cert, map, h, cert.params@, args) && delta_images(
            cert,
            map,
            h,
            fp,
            cert.delta@.len() as int,
        )
}

/// What a resource asks for of the arguments, slot by slot.
pub fn graft_footprint(ctx: &mut Context, cert: &ResourceCertificate, args: &Vec<Id>) -> (fp: Vec<
    (Id, Chunk),
>)
    requires
        old(ctx).wf(),
        cert.wf(),
        old(ctx).graph.has_all(args@),
        args@.len() == cert.params@.len(),
    ensures
        learns_cert(cert.graph, cert.params@, args@, *old(ctx), *final(ctx)),
        footprint_result(*cert, args@, final(ctx).graph, fp@),
        entries_in(final(ctx).graph, fp@),
        fp@.len() == cert.delta@.len(),
{
    let ghost c0 = *ctx;
    let map = graft(ctx, &cert.graph, &cert.params, args);
    let ghost c1 = *ctx;
    let es = delta_entries(ctx, cert, &map);
    proof {
        lemma_image_built(cert.graph, map@, cert.params@, args@, c0, c1, *ctx);
        lemma_carried_over_grows(*cert, map@, c1.graph, ctx.graph, cert.params@, args@);
    }
    es
}

/// The values that a resource asks for.
pub open spec fn delta_values(cert: ResourceCertificate) -> Seq<Id> {
    Seq::new(cert.delta@.len(), |i: int| cert.delta@[i].2)
}

/// The boolean of a resource, in the caller's terms, where its slots hold the given
/// values.
pub open spec fn bool_result(
    cert: ResourceCertificate,
    args: Seq<Id>,
    values: Seq<Id>,
    h: Graph,
    b: Id,
) -> bool {
    exists|map: Seq<Option<Id>>| #[trigger]
        carried_over(cert, map, h, cert.params@ + delta_values(cert), args + values) && image_is(
            cert.graph,
            map,
            h,
            cert.bool_id,
            b,
        )
}

pub fn join_ids(a: &Vec<Id>, b: &Vec<Id>) -> (r: Vec<Id>)
    ensures
        r@ == a@ + b@,
{
    let mut out = crate::rewrite::function::copy_ids(a);
    let mut more = crate::rewrite::function::copy_ids(b);
    out.append(&mut more);
    out
}

fn read_values(cert: &ResourceCertificate) -> (r: Vec<Id>)
    ensures
        r@ == delta_values(*cert),
{
    let mut out: Vec<Id> = Vec::new();
    let mut i: usize = 0;
    while i < cert.delta.len()
        invariant
            i <= cert.delta@.len(),
            out@ == delta_values(*cert).take(i as int),
        decreases cert.delta.len() - i,
    {
        out.push(cert.delta[i].2);
        i += 1;
        proof {
            assert(delta_values(*cert).take(i as int) =~= delta_values(*cert).take(i - 1).push(
                delta_values(*cert)[i - 1],
            ));
        }
    }
    proof {
        assert(delta_values(*cert).take(cert.delta@.len() as int) =~= delta_values(*cert));
    }
    out
}

/// The boolean of a resource where its slots hold the given values.
pub fn graft_pred_bool(
    ctx: &mut Context,
    cert: &ResourceCertificate,
    args: &Vec<Id>,
    values: &Vec<Id>,
) -> (r: Id)
    requires
        old(ctx).wf(),
        cert.wf(),
        old(ctx).graph.has_all(args@),
        old(ctx).graph.has_all(values@),
        args@.len() == cert.params@.len(),
        values@.len() == cert.delta@.len(),
    ensures
        learns_cert(
            cert.graph,
            cert.params@ + delta_values(*cert),
            args@ + values@,
            *old(ctx),
            *final(ctx),
        ),
        bool_result(*cert, args@, values@, final(ctx).graph, r),
        final(ctx).graph.has(r),
{
    let ghost c0 = *ctx;
    let slots = read_values(cert);
    let from = join_ids(&cert.params, &slots);
    let to = join_ids(args, values);
    proof {
        assert forall|j: int| 0 <= j < from@.len() implies cert.graph.has(#[trigger] from@[j]) by {
            if j < cert.params@.len() {
                assert(from@[j] == cert.params@[j]);
            } else {
                let i = j - cert.params@.len();
                assert(from@[j] == delta_values(*cert)[i]);
                assert(cert.graph.has(cert.delta@[i].0));
            }
        }
        assert forall|j: int| 0 <= j < to@.len() implies c0.graph.has(#[trigger] to@[j]) by {
            if j < args@.len() {
                assert(to@[j] == args@[j]);
            } else {
                assert(to@[j] == values@[j - args@.len()]);
            }
        }
    }
    let map = graft(ctx, &cert.graph, &from, &to);
    let ghost c1 = *ctx;
    let b = image(ctx, &cert.graph, &map, cert.bool_id);
    proof {
        lemma_image_built(cert.graph, map@, from@, to@, c0, c1, *ctx);
        lemma_carried_over_grows(*cert, map@, c1.graph, ctx.graph, from@, to@);
    }
    b
}

} // verus!
