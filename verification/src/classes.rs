//! Equivalence classes of plain nodes, closed under congruence by the `egg` crate.
//!
//! A plain node is an operator code with the ids of its children. Every id names a
//! class; classes only ever grow together.

use vstd::prelude::*;

verus! {

/// An e-graph of `egg`, over its language of symbols with no analysis. A plain
/// operator code is the symbol that spells it in decimal.
#[verifier::external_body]
pub struct Classes {
    inner: egg::EGraph<egg::SymbolLang, ()>,
}

/// The canonical id of every id that the graph has handed out.
pub uninterp spec fn class_of(g: Classes) -> Seq<u32>;

/// The nodes of every class, by its canonical id.
pub uninterp spec fn class_nodes(g: Classes) -> Map<u32, Seq<(u32, Seq<u32>)>>;

/// The ids of the nodes that have a class among their children, by its canonical id.
pub uninterp spec fn class_parents(g: Classes) -> Map<u32, Seq<u32>>;

/// The same children, each by its canonical id.
pub open spec fn canonical(find: Seq<u32>, args: Seq<u32>) -> Seq<u32> {
    Seq::new(args.len(), |i: int| find[args[i] as int])
}

/// Ids are dense, canonical ids are their own class, and a node's children exist.
pub open spec fn shaped(g: Classes) -> bool {
    let find = class_of(g);
    let nodes = class_nodes(g);
    &&& find.len() <= u32::MAX
    &&& forall|i: int|
        0 <= i < find.len() ==> (#[trigger] find[i]) < find.len() && find[find[i] as int] == find[i]
    &&& forall|c: u32| #[trigger]
        nodes.dom().contains(c) <==> c < find.len() && find[c as int] == c
    &&& forall|c: u32, k: int, j: int|
        #![trigger nodes[c][k].1[j]]
        nodes.dom().contains(c) && 0 <= k < nodes[c].len() && 0 <= j < nodes[c][k].1.len()
            ==> nodes[c][k].1[j] < find.len()
}

/// Whether some class holds exactly this node.
pub open spec fn node_present(g: Classes, op: u32, args: Seq<u32>) -> bool {
    exists|c: u32| #[trigger]
        class_nodes(g).dom().contains(c) && class_nodes(g)[c].contains((op, args))
}

/// `h` is `g` with the distinct classes `root` and `other` made one, named `root`.
pub open spec fn absorbed(g: Classes, h: Classes, root: u32, other: u32) -> bool {
    &&& class_of(h) == Seq::new(
        class_of(g).len(),
        |i: int|
            if class_of(g)[i] == other {
                root
            } else {
                class_of(g)[i]
            },
    )
    &&& class_nodes(h).dom() == class_nodes(g).dom().remove(other)
    &&& forall|c: u32|
        c != root && c != other && class_nodes(g).dom().contains(c)
            ==> #[trigger] class_nodes(h)[c] == class_nodes(g)[c]
    &&& forall|n: (u32, Seq<u32>)| #[trigger]
        class_nodes(h)[root].contains(n) <==> class_nodes(g)[root].contains(n)
            || class_nodes(g)[other].contains(n)
}

/// `h` is `g` with the distinct classes `x` and `y` made one, under either name.
pub open spec fn joined(g: Classes, h: Classes, x: u32, y: u32) -> bool {
    absorbed(g, h, x, y) || absorbed(g, h, y, x)
}

/// `e` relates the ids of `g` as an equivalence that holds of everything `g` has
/// merged and of any two nodes with the same operator and related children.
pub open spec fn congruence(g: Classes, e: spec_fn(u32, u32) -> bool) -> bool {
    let find = class_of(g);
    let nodes = class_nodes(g);
    &&& forall|a: u32| #[trigger] e(a, a)
    &&& forall|a: u32, b: u32| #[trigger] e(a, b) ==> e(b, a)
    &&& forall|a: u32, b: u32, c: u32| #[trigger] e(a, b) && #[trigger] e(b, c) ==> e(a, c)
    &&& forall|i: u32| i < find.len() ==> #[trigger] e(i, find[i as int])
    &&& forall|c: u32, d: u32, n: (u32, Seq<u32>), m: (u32, Seq<u32>)|
        #![trigger nodes[c].contains(n), nodes[d].contains(m)]
        {
            &&& nodes.dom().contains(c) && nodes[c].contains(n)
            &&& nodes.dom().contains(d) && nodes[d].contains(m)
            &&& n.0 == m.0 && n.1.len() == m.1.len()
            &&& forall|j: int| 0 <= j < n.1.len() ==> e(#[trigger] n.1[j], m.1[j])
        } ==> e(c, d)
}

/// `h` is the congruence closure of `g`.
pub open spec fn closure_of(g: Classes, h: Classes) -> bool {
    let find = class_of(h);
    &&& find.len() == class_of(g).len()
    &&& forall|i: int, j: int|
        0 <= i < find.len() && 0 <= j < find.len() && class_of(g)[i] == class_of(g)[j]
            ==> #[trigger] find[i] == #[trigger] find[j]
    &&& forall|e: spec_fn(u32, u32) -> bool, i: u32, j: u32|
        #![trigger e(i, j), congruence(g, e)]
        congruence(g, e) && i < find.len() && j < find.len() && find[i as int] == find[j as int]
            ==> e(i, j)
    &&& forall|c: u32, n: (u32, Seq<u32>)|
        #![trigger class_nodes(h)[c].contains(n)]
        class_nodes(h).dom().contains(c) && class_nodes(h)[c].contains(n) ==> exists|
            d: u32,
            m: (u32, Seq<u32>),
        |
            {
                &&& #[trigger] class_nodes(g).dom().contains(d)
                &&& find[d as int] == c
                &&& #[trigger] class_nodes(g)[d].contains(m)
                &&& n == (m.0, canonical(find, m.1))
            }
    &&& forall|d: u32, m: (u32, Seq<u32>)|
        #![trigger class_nodes(g)[d].contains(m)]
        class_nodes(g).dom().contains(d) && class_nodes(g)[d].contains(m)
            ==> class_nodes(h)[find[d as int]].contains((m.0, canonical(find, m.1)))
    &&& forall|c: u32, d: u32, n: (u32, Seq<u32>)|
        #![trigger class_nodes(h)[c].contains(n), class_nodes(h)[d].contains(n)]
        class_nodes(h).dom().contains(c) && class_nodes(h)[c].contains(n) && class_nodes(
            h,
        ).dom().contains(d) && class_nodes(h)[d].contains(n) ==> c == d
}

/// `egg::EGraph::new`: a graph without ids.
#[verifier::external_body]
pub(crate) fn classes_new() -> (r: Classes)
    ensures
        shaped(r),
        class_of(r).len() == 0,
        class_nodes(r).dom() == Set::<u32>::empty(),
{
    Classes { inner: egg::EGraph::new(()) }
}

/// `egg::EGraph`'s `Clone`: the same ids, classes and nodes.
#[verifier::external_body]
pub(crate) fn classes_clone(g: &Classes) -> (r: Classes)
    ensures
        class_of(r) == class_of(*g),
        class_nodes(r) == class_nodes(*g),
        class_parents(r) == class_parents(*g),
{
    Classes { inner: g.inner.clone() }
}

/// `egg::EGraph::nodes`: its length is the number of ids handed out.
#[verifier::external_body]
pub(crate) fn classes_len(g: &Classes) -> (r: usize)
    ensures
        r == class_of(*g).len(),
{
    g.inner.nodes().len()
}

/// `egg::EGraph::find`: the canonical id. It panics on an id never handed out.
#[verifier::external_body]
pub(crate) fn classes_find(g: &Classes, id: u32) -> (r: u32)
    requires
        id < class_of(*g).len(),
    ensures
        r == class_of(*g)[id as int],
{
    usize::from(g.inner.find(egg::Id::from(id as usize))) as u32
}

/// `egg::EGraph`'s `Index`: the nodes of the class of `id`, in its order. It panics
/// on an id never handed out.
#[verifier::external_body]
pub(crate) fn classes_nodes(g: &Classes, id: u32) -> (r: Vec<(u32, Vec<u32>)>)
    requires
        shaped(*g),
        id < class_of(*g).len(),
    ensures
        r@.len() == class_nodes(*g)[class_of(*g)[id as int]].len(),
        forall|k: int|
            0 <= k < r@.len() ==> (#[trigger] r@[k]).0 == class_nodes(*g)[class_of(
                *g,
            )[id as int]][k].0 && r@[k].1@ == class_nodes(*g)[class_of(*g)[id as int]][k].1,
{
    let plain = |i: &egg::Id| usize::from(*i) as u32;
    let code = |op: egg::Symbol| op.as_str().parse::<u32>().unwrap();
    let class = &g.inner[egg::Id::from(id as usize)];
    class.nodes.iter().map(|n| (code(n.op), n.children.iter().map(plain).collect())).collect()
}

/// Whether a class lists a node that has `x` among its children.
pub open spec fn lists_child(g: Classes, d: u32, x: u32) -> bool {
    exists|k: int, j: int|
        0 <= k < class_nodes(g)[d].len() && 0 <= j < class_nodes(g)[d][k].1.len() && class_of(
            g,
        )[(#[trigger] class_nodes(g)[d][k].1[j]) as int] == x
}

/// `egg::EClass::parents`: the ids of the nodes that have the class of `id` among
/// their children. Their classes are the ones that list such a node.
#[verifier::external_body]
pub(crate) fn classes_parents(g: &Classes, id: u32) -> (r: Vec<u32>)
    requires
        shaped(*g),
        id < class_of(*g).len(),
    ensures
        r@ == class_parents(*g)[class_of(*g)[id as int]],
        forall|k: int| 0 <= k < r@.len() ==> #[trigger] r@[k] < class_of(*g).len(),
        forall|d: u32| #[trigger]
            class_nodes(*g).dom().contains(d) ==> (lists_child(*g, d, class_of(*g)[id as int])
                == exists|k: int| 0 <= k < r@.len() && class_of(*g)[(#[trigger] r@[k]) as int] == d),
{
    g.inner[egg::Id::from(id as usize)].parents().map(|p| usize::from(p) as u32).collect()
}

/// `egg::EGraph::dot` with two lines of its configuration, shown: a picture of the
/// graph for Graphviz. Its classes come in the order of a hash map, so nothing is said
/// of the text.
#[verifier::external_body]
pub(crate) fn classes_draw(g: &Classes, first: &str, second: &str) -> (r: String)
    requires
        shaped(*g),
{
    g.inner.dot().with_config_line(first).with_config_line(second).to_string()
}

/// `egg::EGraph::lookup`: the class that holds the node, its children taken by their
/// canonical ids; `None` where no class holds it.
#[verifier::external_body]
pub(crate) fn classes_lookup(g: &Classes, op: u32, args: &Vec<u32>) -> (r: Option<u32>)
    requires
        shaped(*g),
        forall|j: int| 0 <= j < args@.len() ==> #[trigger] args@[j] < class_of(*g).len(),
    ensures
        r is Some == node_present(*g, op, canonical(class_of(*g), args@)),
        r matches Some(c) ==> class_nodes(*g).dom().contains(c) && class_nodes(*g)[c].contains(
            (op, canonical(class_of(*g), args@)),
        ),
{
    let children = args.iter().map(|a| egg::Id::from(*a as usize)).collect();
    let op = egg::Symbol::from(op.to_string().as_str());
    g.inner.lookup(egg::SymbolLang { op, children }).map(|c| usize::from(c) as u32)
}

/// `egg::EGraph::add`: the class that holds the node, which is a new one where no
/// class held it. Ids are 32 bits wide, so there must be one left.
#[verifier::external_body]
pub(crate) fn classes_add(g: &mut Classes, op: u32, args: &Vec<u32>) -> (r: u32)
    requires
        shaped(*old(g)),
        class_of(*old(g)).len() < u32::MAX,
        forall|j: int| 0 <= j < args@.len() ==> #[trigger] args@[j] < class_of(*old(g)).len(),
    ensures
        shaped(*final(g)),
        node_present(*old(g), op, canonical(class_of(*old(g)), args@)) ==> class_of(*final(g))
            == class_of(*old(g)) && class_nodes(*final(g)) == class_nodes(*old(g)) && class_nodes(
            *old(g),
        ).dom().contains(r) && class_nodes(*old(g))[r].contains(
            (op, canonical(class_of(*old(g)), args@)),
        ),
        !node_present(*old(g), op, canonical(class_of(*old(g)), args@)) ==> r == class_of(
            *old(g),
        ).len() && class_of(*final(g)) == class_of(*old(g)).push(r) && class_nodes(*final(g))
            == class_nodes(*old(g)).insert(r, seq![(op, canonical(class_of(*old(g)), args@))]),
{
    let children = args.iter().map(|a| egg::Id::from(*a as usize)).collect();
    let op = egg::Symbol::from(op.to_string().as_str());
    usize::from(g.inner.add(egg::SymbolLang { op, children })) as u32
}

/// `egg::EGraph::union`: makes the classes of two ids one, and says whether they
/// were two. Which of the two canonical ids stays, and the order in which the nodes
/// end up, are left open.
#[verifier::external_body]
pub(crate) fn classes_union(g: &mut Classes, a: u32, b: u32) -> (r: bool)
    requires
        shaped(*old(g)),
        a < class_of(*old(g)).len(),
        b < class_of(*old(g)).len(),
    ensures
        shaped(*final(g)),
        r == (class_of(*old(g))[a as int] != class_of(*old(g))[b as int]),
        !r ==> class_of(*final(g)) == class_of(*old(g)) && class_nodes(*final(g)) == class_nodes(
            *old(g),
        ),
        r ==> joined(
            *old(g),
            *final(g),
            class_of(*old(g))[a as int],
            class_of(*old(g))[b as int],
        ),
{
    g.inner.union(egg::Id::from(a as usize), egg::Id::from(b as usize))
}

/// `egg::EGraph::rebuild`: restores congruence. Classes are merged where, and only
/// where, nodes with the same operator have equal children; every node then lists
/// its children by their canonical ids.
#[verifier::external_body]
pub(crate) fn classes_rebuild(g: &mut Classes)
    requires
        shaped(*old(g)),
    ensures
        shaped(*final(g)),
        closure_of(*old(g), *final(g)),
{
    g.inner.rebuild();
}

} // verus!
