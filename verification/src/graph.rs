//! The e-graph of terms.
//!
//! The graph is the theory of what was put into it: a definition for every id, and
//! the facts that were asserted between ids. Classes are what follows from them by
//! congruence.

use crate::classes::{
    absorbed, canonical, class_nodes, class_of, classes_add, classes_clone, classes_draw, classes_find,
    classes_len, classes_lookup, classes_new, classes_nodes, classes_parents, classes_rebuild,
    classes_union, closure_of, congruence, class_parents, joined, lists_child, node_present, shaped,
    Classes,
};
use crate::lang::{arity_ok, Id, Node, Op, Symbolic};
use crate::model::{equation_holds, lemma_tm_node, t_node, term_value, theory, tm_value, Model, Tm};
use vstd::prelude::*;

verus! {

pub struct Graph {
    classes: Classes,
    ops: Vec<Op>,
    full: bool,
    defs: Ghost<Seq<Node>>,
    facts: Ghost<Seq<(Tm, Tm)>>,
}

/// The term that a plain node stands for.
pub open spec fn decode(ops: Seq<Op>, n: (u32, Seq<u32>)) -> Node {
    Node { op: ops[n.0 as int]@, args: n.1 }
}

impl Graph {
    /// The term that defines each id.
    pub closed spec fn defs(self) -> Seq<Node> {
        self.defs@
    }

    /// The equalities asserted so far.
    pub closed spec fn facts(self) -> Seq<(Tm, Tm)> {
        self.facts@
    }

    /// Whether an id was asked for when none was left. Ids are 32 bits wide.
    pub closed spec fn full(self) -> bool {
        self.full
    }

    /// The number of ids.
    pub closed spec fn len(self) -> nat {
        class_of(self.classes).len()
    }

    /// The canonical id of a class.
    pub closed spec fn canon(self, id: Id) -> Id {
        class_of(self.classes)[id as int]
    }

    /// The terms of a class.
    pub closed spec fn terms(self, id: Id) -> Seq<Node> {
        let ns = class_nodes(self.classes)[self.canon(id)];
        Seq::new(ns.len(), |k: int| decode(self.ops@, ns[k]))
    }

    /// The ids of the terms that have a class among their children.
    pub closed spec fn parents(self, id: Id) -> Seq<Id> {
        class_parents(self.classes)[self.canon(id)]
    }

    /// The models of the graph's theory.
    pub open spec fn models(self, m: Model) -> bool {
        theory(self.defs(), self.facts(), m)
    }

    /// Classes hold only what follows from the theory.
    spec fn sound_in(self, m: Model) -> bool {
        &&& forall|i: Id| i < self.len() ==> m.at(i) == m.at(#[trigger] self.canon(i))
        &&& forall|c: Id, n: (u32, Seq<u32>)|
            #![trigger class_nodes(self.classes)[c].contains(n)]
            class_nodes(self.classes).dom().contains(c) && class_nodes(self.classes)[c].contains(n)
                ==> term_value(m, decode(self.ops@, n)) == Some(m.at(c))
    }

    /// The definition of `i` spells the term `n`, up to classes.
    pub open spec fn spells(self, i: int, n: Node) -> bool {
        &&& 0 <= i < self.len()
        &&& self.defs()[i].op == n.op
        &&& self.defs()[i].args.len() == n.args.len()
        &&& forall|j: int|
            0 <= j < n.args.len() ==> self.canon(self.defs()[i].args[j]) == self.canon(
                #[trigger] n.args[j],
            )
    }

    pub closed spec fn wf(self) -> bool {
        &&& shaped(self.classes)
        &&& self.ops@.len() <= self.len()
        &&& forall|i: int, j: int|
            0 <= i < j < self.ops@.len() ==> (#[trigger] self.ops@[i])@ != (#[trigger] self.ops@[j])@
        &&& forall|c: Id, n: (u32, Seq<u32>)|
            #![trigger class_nodes(self.classes)[c].contains(n)]
            class_nodes(self.classes).dom().contains(c) && class_nodes(self.classes)[c].contains(n)
                ==> n.0 < self.ops@.len() && arity_ok(decode(self.ops@, n))
        &&& self.defs().len() == self.len()
        &&& forall|i: int, j: int|
            #![trigger self.defs()[i].args[j]]
            0 <= i < self.len() && 0 <= j < self.defs()[i].args.len() ==> self.defs()[i].args[j]
                < self.len()
        &&& forall|m: Model| #[trigger] self.models(m) ==> self.sound_in(m)
        &&& forall|c: Id, n: (u32, Seq<u32>)|
            #![trigger class_nodes(self.classes)[c].contains(n)]
            class_nodes(self.classes).dom().contains(c) && class_nodes(self.classes)[c].contains(n)
                ==> exists|i: int| #[trigger] self.spells(i, decode(self.ops@, n))
    }

    /// Whether `id` names a class.
    pub open spec fn has(self, id: Id) -> bool {
        id < self.len()
    }

    /// Whether every child of a term names a class.
    pub open spec fn has_all(self, ids: Seq<Id>) -> bool {
        forall|j: int| 0 <= j < ids.len() ==> self.has(#[trigger] ids[j])
    }

    /// The same term, its children taken by their canonical ids.
    pub open spec fn canon_term(self, n: Node) -> Node {
        Node { op: n.op, args: Seq::new(n.args.len(), |j: int| self.canon(n.args[j])) }
    }

    /// Whether some class lists the term.
    pub open spec fn lists(self, n: Node) -> bool {
        exists|c: Id| #[trigger] self.has(c) && self.terms(c).contains(n)
    }

    /// In every model of the graph, the class has the value of the term. A full
    /// graph says nothing of a class.
    pub open spec fn denotes(self, id: Id, t: Tm) -> bool {
        self.full() || forall|m: Model| #[trigger]
            self.models(m) ==> tm_value(m, t) == Some(m.at(id))
    }

    /// `other` holds what `self` holds, and maybe more definitions and facts.
    pub open spec fn grows_to(self, other: Graph) -> bool {
        &&& self.len() <= other.len()
        &&& self.full() ==> other.full()
        &&& self.defs().is_prefix_of(other.defs())
        &&& self.facts().is_prefix_of(other.facts())
    }
}

/// No two classes list one term, and terms list their children by canonical ids.
pub open spec fn congruent(g: Graph) -> bool {
    &&& forall|c: Id, d: Id, n: Node|
        #![trigger g.terms(c).contains(n), g.terms(d).contains(n)]
        g.has(c) && g.has(d) && g.terms(c).contains(n) && g.terms(d).contains(n) ==> g.canon(c)
            == g.canon(d)
    &&& forall|c: Id, n: Node| #[trigger]
        g.has(c) && #[trigger] g.terms(c).contains(n) ==> g.canon_term(n) == n
}

/// A model's value for a class is that of its canonical id.
pub proof fn lemma_canon_value(g: Graph, m: Model, id: Id)
    requires
        g.wf(),
        g.models(m),
        g.has(id),
    ensures
        m.at(g.canon(id)) == m.at(id),
        g.has(g.canon(id)),
        g.canon(g.canon(id)) == g.canon(id),
        g.terms(g.canon(id)) == g.terms(id),
{
}

/// Every id fits its width.
pub proof fn lemma_len_bound(g: Graph)
    requires
        g.wf(),
    ensures
        g.len() <= u32::MAX,
{
}

/// A canonical id is its own.
pub proof fn lemma_canon_in(g: Graph, id: Id)
    requires
        g.wf(),
        g.has(id),
    ensures
        g.has(g.canon(id)),
        g.canon(g.canon(id)) == g.canon(id),
        g.terms(g.canon(id)) == g.terms(id),
{
}

/// Ids of one class list the same terms.
pub proof fn lemma_class_terms(g: Graph, a: Id, b: Id)
    requires
        g.canon(a) == g.canon(b),
    ensures
        g.terms(a) == g.terms(b),
{
}

/// Two ids in one class have one value in every model.
pub proof fn lemma_same_class(g: Graph, m: Model, a: Id, b: Id)
    requires
        g.wf(),
        g.models(m),
        g.has(a),
        g.has(b),
        g.canon(a) == g.canon(b),
    ensures
        m.at(a) == m.at(b),
{
    lemma_canon_value(g, m, a);
    lemma_canon_value(g, m, b);
}

/// Every term of a class has the class's value in every model.
pub proof fn lemma_term_value(g: Graph, m: Model, id: Id, k: int)
    requires
        g.wf(),
        g.models(m),
        g.has(id),
        0 <= k < g.terms(id).len(),
    ensures
        term_value(m, g.terms(id)[k]) == Some(m.at(id)),
        arity_ok(g.terms(id)[k]),
        g.has_all(g.terms(id)[k].args),
{
    let c = g.canon(id);
    let n = class_nodes(g.classes)[c][k];
    assert(class_nodes(g.classes).dom().contains(c));
    assert(class_nodes(g.classes)[c].contains(n));
    assert(m.at(id) == m.at(g.canon(id)));
    assert forall|j: int| 0 <= j < n.1.len() implies g.has(#[trigger] g.terms(id)[k].args[j]) by {
        assert(class_nodes(g.classes)[c][k].1[j] < g.len());
    }
}

/// Every class has a definition.
pub proof fn lemma_defs_len(g: Graph)
    requires
        g.wf(),
    ensures
        g.defs().len() == g.len(),
{
}

/// Every definition is over ids of the graph.
pub proof fn lemma_defs_in(g: Graph, i: int)
    requires
        g.wf(),
        0 <= i < g.len(),
    ensures
        g.defs().len() == g.len(),
        g.has_all(g.defs()[i].args),
{
    assert forall|j: int| 0 <= j < g.defs()[i].args.len() implies g.has(
        #[trigger] g.defs()[i].args[j],
    ) by {}
}

/// Every term of a class spells a definition.
pub proof fn lemma_spelled(g: Graph, id: Id, k: int) -> (i: int)
    requires
        g.wf(),
        g.has(id),
        0 <= k < g.terms(id).len(),
    ensures
        g.spells(i, g.terms(id)[k]),
{
    let c = g.canon(id);
    let n = class_nodes(g.classes)[c][k];
    assert(class_nodes(g.classes).dom().contains(c));
    assert(class_nodes(g.classes)[c].contains(n));
    choose|i: int| #[trigger] g.spells(i, decode(g.ops@, n))
}

proof fn lemma_spells_grows(g: Graph, h: Graph, i: int, n: Node)
    requires
        g.wf(),
        g.spells(i, n),
        g.has_all(n.args),
        g.len() <= h.len(),
        h.defs()[i] == g.defs()[i],
        coarser(g, h),
    ensures
        h.spells(i, n),
{
    assert forall|j: int| 0 <= j < n.args.len() implies h.canon(h.defs()[i].args[j]) == h.canon(
        #[trigger] n.args[j],
    ) by {
        assert(g.has(n.args[j]));
        assert(g.defs()[i].args[j] < g.len());
        assert(g.canon(g.defs()[i].args[j]) == g.canon(n.args[j]));
    }
}

proof fn lemma_plain_in(g: Graph, c: Id, n: (u32, Seq<u32>))
    requires
        g.wf(),
        class_nodes(g.classes).dom().contains(c),
        class_nodes(g.classes)[c].contains(n),
    ensures
        g.has_all(n.1),
{
    let k = choose|k: int| 0 <= k < class_nodes(g.classes)[c].len() && class_nodes(g.classes)[c][k] == n;
    assert forall|j: int| 0 <= j < n.1.len() implies g.has(#[trigger] n.1[j]) by {
        assert(class_nodes(g.classes)[c][k].1[j] < class_of(g.classes).len());
    }
}

/// Every term of a class has its children in the graph.
pub proof fn lemma_terms_in(g: Graph, id: Id, k: int)
    requires
        g.wf(),
        g.has(id),
        0 <= k < g.terms(id).len(),
    ensures
        arity_ok(g.terms(id)[k]),
        g.has_all(g.terms(id)[k].args),
{
    let c = g.canon(id);
    let n = class_nodes(g.classes)[c][k];
    assert(class_nodes(g.classes).dom().contains(c));
    assert(class_nodes(g.classes)[c].contains(n));
    assert forall|j: int| 0 <= j < n.1.len() implies g.has(#[trigger] g.terms(id)[k].args[j]) by {
        assert(class_nodes(g.classes)[c][k].1[j] < g.len());
    }
}

/// The canonical form of a term has the term's value in every model.
pub proof fn lemma_canon_term(g: Graph, m: Model, n: Node)
    requires
        g.wf(),
        g.models(m),
        g.has_all(n.args),
    ensures
        term_value(m, g.canon_term(n)) == term_value(m, n),
{
    assert forall|j: int| 0 <= j < n.args.len() implies m.at(#[trigger] n.args[j]) == m.at(
        g.canon_term(n).args[j],
    ) by {
        assert(g.has(n.args[j]));
        lemma_canon_value(g, m, n.args[j]);
    }
    assert(m.all(g.canon_term(n).args) =~= m.all(n.args));
}

/// `h` has the classes of `g`, and maybe one more.
pub open spec fn keeps_classes(g: Graph, h: Graph) -> bool {
    forall|id: Id|
        #![trigger h.canon(id)]
        #![trigger h.terms(id)]
        g.has(id) ==> h.canon(id) == g.canon(id) && h.terms(id) == g.terms(id)
}

/// What `r` is after the term `n` was put into `g`, giving `h`: the class that
/// listed it, or a new one.
pub open spec fn added(g: Graph, h: Graph, n: Node, r: Id) -> bool {
    &&& h.canon(r) == r
    &&& h.terms(r).contains(g.canon_term(n))
    &&& g.lists(g.canon_term(n)) ==> g.has(r) && h.len() == g.len() && h.defs() == g.defs()
    &&& !g.lists(g.canon_term(n)) ==> r == g.len() && h.len() == g.len() + 1 && h.defs()
        == g.defs().push(n) && h.terms(r) == seq![g.canon_term(n)]
}

proof fn lemma_lists(g: Graph, code: u32, n: Node)
    requires
        g.wf(),
        code < g.ops@.len(),
        g.ops@[code as int]@ == n.op,
        g.has_all(n.args),
    ensures
        g.lists(g.canon_term(n)) == node_present(
            g.classes,
            code,
            canonical(class_of(g.classes), n.args),
        ),
        forall|c: Id|
            class_nodes(g.classes).dom().contains(c) && class_nodes(g.classes)[c].contains(
                (code, canonical(class_of(g.classes), n.args)),
            ) ==> g.has(c) && g.canon(c) == c && #[trigger] g.terms(c).contains(g.canon_term(n)),
{
    let args = canonical(class_of(g.classes), n.args);
    let plain = (code, args);
    assert(g.canon_term(n).args =~= args);
    if g.lists(g.canon_term(n)) {
        let c = choose|c: Id| #[trigger] g.has(c) && g.terms(c).contains(g.canon_term(n));
        let k = choose|k: int| 0 <= k < g.terms(c).len() && g.terms(c)[k] == g.canon_term(n);
        let d = g.canon(c);
        let found = class_nodes(g.classes)[d][k];
        assert(class_nodes(g.classes).dom().contains(d));
        assert(class_nodes(g.classes)[d].contains(found));
        assert(g.ops@[found.0 as int]@ == g.ops@[code as int]@);
        assert(found.0 == code);
        assert(found == plain);
        assert(node_present(g.classes, code, args));
    }
    assert forall|c: Id|
        class_nodes(g.classes).dom().contains(c) && class_nodes(g.classes)[c].contains(
            plain,
        ) implies g.has(c) && g.canon(c) == c && #[trigger] g.terms(c).contains(g.canon_term(n)) by {
        let k = choose|k: int|
            0 <= k < class_nodes(g.classes)[c].len() && class_nodes(g.classes)[c][k] == plain;
        assert(g.terms(c)[k] == g.canon_term(n));
    }
    if node_present(g.classes, code, args) {
        let c = choose|c: u32| #[trigger]
            class_nodes(g.classes).dom().contains(c) && class_nodes(g.classes)[c].contains(plain);
        assert(g.has(c) && g.terms(c).contains(g.canon_term(n)));
    }
}

proof fn lemma_no_code(g: Graph, n: Node)
    requires
        g.wf(),
        forall|i: int| 0 <= i < g.ops@.len() ==> (#[trigger] g.ops@[i])@ != n.op,
    ensures
        !g.lists(g.canon_term(n)),
{
    if g.lists(g.canon_term(n)) {
        let c = choose|c: Id| #[trigger] g.has(c) && g.terms(c).contains(g.canon_term(n));
        let k = choose|k: int| 0 <= k < g.terms(c).len() && g.terms(c)[k] == g.canon_term(n);
        let d = g.canon(c);
        let found = class_nodes(g.classes)[d][k];
        assert(class_nodes(g.classes).dom().contains(d));
        assert(class_nodes(g.classes)[d].contains(found));
        assert(g.ops@[found.0 as int]@ == n.op);
    }
}

impl Graph {
    /// A graph without ids.
    pub fn new() -> (r: Graph)
        ensures
            r.wf(),
            r.len() == 0,
            r.defs().len() == 0,
            r.facts().len() == 0,
            !r.full(),
    {
        Graph {
            classes: classes_new(),
            ops: Vec::new(),
            full: false,
            defs: Ghost(Seq::empty()),
            facts: Ghost(Seq::empty()),
        }
    }

    /// The number of ids.
    pub fn size(&self) -> (r: usize)
        ensures
            r == self.len(),
    {
        classes_len(&self.classes)
    }

    /// Whether an id was asked for when none was left.
    pub fn is_full(&self) -> (r: bool)
        ensures
            r == self.full(),
    {
        self.full
    }

    /// The canonical id of a class.
    pub fn find(&self, id: Id) -> (r: Id)
        requires
            self.wf(),
            self.has(id),
        ensures
            r == self.canon(id),
            self.has(r),
            self.canon(r) == r,
            self.terms(r) == self.terms(id),
    {
        classes_find(&self.classes, id)
    }

    /// The terms of a class.
    pub fn terms_of(&self, id: Id) -> (r: Vec<Symbolic>)
        requires
            self.wf(),
            self.has(id),
        ensures
            r@.len() == self.terms(id).len(),
            forall|k: int| 0 <= k < r@.len() ==> (#[trigger] r@[k])@ == self.terms(id)[k],
            forall|k: int| 0 <= k < r@.len() ==> self.has_all((#[trigger] r@[k])@.args),
    {
        let plain = classes_nodes(&self.classes, id);
        let ghost c = self.canon(id);
        let ghost ns = class_nodes(self.classes)[c];
        assert(class_nodes(self.classes).dom().contains(c));
        let mut out: Vec<Symbolic> = Vec::new();
        let mut i: usize = 0;
        while i < plain.len()
            invariant
                self.wf(),
                self.has(id),
                c == self.canon(id),
                ns == class_nodes(self.classes)[c],
                class_nodes(self.classes).dom().contains(c),
                i <= plain.len(),
                plain@.len() == ns.len(),
                forall|k: int|
                    0 <= k < plain@.len() ==> (#[trigger] plain@[k]).0 == ns[k].0 && plain@[k].1@
                        == ns[k].1,
                out@.len() == i,
                forall|k: int| 0 <= k < i ==> (#[trigger] out@[k])@ == self.terms(id)[k],
                forall|k: int| 0 <= k < i ==> self.has_all((#[trigger] out@[k])@.args),
            decreases plain.len() - i,
        {
            let code: u32 = plain[i].0;
            assert(ns.contains(ns[i as int]));
            assert(decode(self.ops@, ns[i as int]) == self.terms(id)[i as int]);
            let term = Symbolic::build(&self.ops[code as usize], &plain[i].1);
            assert forall|j: int| 0 <= j < term@.args.len() implies self.has(
                #[trigger] term@.args[j],
            ) by {
                assert(ns[i as int].1[j] < self.len());
            }
            out.push(term);
            i += 1;
        }
        out
    }

    /// The code of a term of a class, which is its label in pictures of the graph.
    pub closed spec fn code(self, id: Id, k: int) -> u32 {
        class_nodes(self.classes)[self.canon(id)][k].0
    }

    /// The codes of the terms of a class.
    pub fn codes_of(&self, id: Id) -> (r: Vec<u32>)
        requires
            self.wf(),
            self.has(id),
        ensures
            r@.len() == self.terms(id).len(),
            forall|k: int| 0 <= k < r@.len() ==> #[trigger] r@[k] == self.code(id, k),
    {
        let plain = classes_nodes(&self.classes, id);
        let mut out: Vec<u32> = Vec::new();
        let mut i: usize = 0;
        while i < plain.len()
            invariant
                i <= plain@.len(),
                plain@.len() == self.terms(id).len(),
                out@.len() == i,
                forall|k: int| 0 <= k < plain@.len() ==> (#[trigger] plain@[k]).0 == self.code(id, k),
                forall|k: int| 0 <= k < i ==> #[trigger] out@[k] == self.code(id, k),
            decreases plain.len() - i,
        {
            out.push(plain[i].0);
            i += 1;
        }
        out
    }

    /// A picture of the graph for Graphviz, with two lines of configuration. Terms are
    /// labelled with their codes. Nothing is said of the text: its classes come in no
    /// particular order.
    pub fn draw(&self, first: &str, second: &str) -> (r: String)
        requires
            self.wf(),
    {
        classes_draw(&self.classes, first, second)
    }

    /// The ids of the terms that have a class among their children. Every class that
    /// lists such a term is the class of one of them.
    pub fn parents_of(&self, id: Id) -> (r: Vec<Id>)
        requires
            self.wf(),
            self.has(id),
        ensures
            r@ == self.parents(id),
            forall|k: int| 0 <= k < r@.len() ==> self.has(#[trigger] r@[k]),
            forall|p: Id, i: int, j: int|
                #![trigger self.terms(p)[i].args[j]]
                self.has(p) && 0 <= i < self.terms(p).len() && 0 <= j < self.terms(p)[i].args.len()
                    && self.canon(self.terms(p)[i].args[j]) == self.canon(id) ==> exists|k: int|
                    0 <= k < r@.len() && self.canon(#[trigger] r@[k]) == self.canon(p),
    {
        let r = classes_parents(&self.classes, id);
        proof {
            let x = self.canon(id);
            assert forall|p: Id, i: int, j: int|
                #![trigger self.terms(p)[i].args[j]]
                self.has(p) && 0 <= i < self.terms(p).len() && 0 <= j < self.terms(p)[i].args.len()
                    && self.canon(self.terms(p)[i].args[j]) == self.canon(id) implies exists|k: int|
                0 <= k < r@.len() && self.canon(#[trigger] r@[k]) == self.canon(p) by {
                let d = self.canon(p);
                assert(class_nodes(self.classes).dom().contains(d));
                assert(class_of(self.classes)[class_nodes(self.classes)[d][i].1[j] as int] == x);
                assert(lists_child(self.classes, d, x));
                let k = choose|k: int|
                    0 <= k < r@.len() && class_of(self.classes)[(#[trigger] r@[k]) as int] == d;
                assert(self.canon(r@[k]) == self.canon(p));
            }
        }
        r
    }

    /// The code of an operator, if it has one.
    fn code_of(&self, op: &Op) -> (r: Option<u32>)
        requires
            self.wf(),
        ensures
            r matches Some(c) ==> c < self.ops@.len() && self.ops@[c as int]@ == op@,
            r is None ==> forall|i: int| 0 <= i < self.ops@.len() ==> (#[trigger] self.ops@[i])@
                != op@,
    {
        let mut i: usize = 0;
        while i < self.ops.len()
            invariant
                self.wf(),
                i <= self.ops@.len(),
                forall|k: int| 0 <= k < i ==> (#[trigger] self.ops@[k])@ != op@,
            decreases self.ops.len() - i,
        {
            if self.ops[i].same(op) {
                return Some(i as u32);
            }
            i += 1;
        }
        None
    }

    /// The class that lists a term, if one does.
    pub fn lookup(&self, n: &Symbolic) -> (r: Option<Id>)
        requires
            self.wf(),
            self.has_all(n@.args),
        ensures
            r is Some == self.lists(self.canon_term(n@)),
            r matches Some(c) ==> self.has(c) && self.canon(c) == c && self.terms(c).contains(
                self.canon_term(n@),
            ),
    {
        let op = n.operator();
        match self.code_of(&op) {
            Some(code) => {
                let args = n.children();
                proof {
                    lemma_lists(*self, code, n@);
                    assert forall|j: int| 0 <= j < args@.len() implies #[trigger] args@[j]
                        < self.len() by {
                        assert(self.has(n@.args[j]));
                    }
                }
                classes_lookup(&self.classes, code, &args)
            },
            None => {
                proof {
                    lemma_no_code(*self, n@);
                }
                None
            },
        }
    }
}

proof fn lemma_add_present(g: Graph, n: Node, r: Id)
    requires
        g.wf(),
        g.has_all(n.args),
        g.has(r),
        g.terms(r).contains(g.canon_term(n)),
    ensures
        g.denotes(r, t_node(n)),
{
    assert forall|m: Model| #[trigger] g.models(m) implies tm_value(m, t_node(n)) == Some(
        m.at(r),
    ) by {
        lemma_tm_node(m, n);
        let k = choose|k: int| 0 <= k < g.terms(r).len() && g.terms(r)[k] == g.canon_term(n);
        lemma_term_value(g, m, r, k);
        lemma_canon_term(g, m, n);
    }
}

proof fn lemma_same_content(g: Graph, h: Graph)
    requires
        g.wf(),
        h.classes == g.classes,
        h.ops == g.ops,
        h.defs == g.defs,
        h.facts == g.facts,
    ensures
        h.wf(),
        keeps_classes(g, h),
{
    assert forall|m: Model| #[trigger] h.models(m) implies h.sound_in(m) by {
        assert(g.models(m));
        assert(g.sound_in(m));
        assert forall|i: Id| i < h.len() implies m.at(i) == m.at(#[trigger] h.canon(i)) by {
            assert(g.canon(i) == h.canon(i));
        }
    }
    assert forall|i: int, j: int|
        #![trigger h.defs()[i].args[j]]
        0 <= i < h.len() && 0 <= j < h.defs()[i].args.len() implies h.defs()[i].args[j]
        < h.len() by {
        assert(g.defs()[i].args[j] < g.len());
    }
    lemma_spelled_same(g, h);
}

/// Graphs with one content spell the same terms.
proof fn lemma_spelled_same(g: Graph, h: Graph)
    requires
        g.wf(),
        class_of(h.classes) == class_of(g.classes),
        class_nodes(h.classes) == class_nodes(g.classes),
        h.ops@.len() == g.ops@.len(),
        forall|k: int| 0 <= k < g.ops@.len() ==> (#[trigger] h.ops@[k])@ == g.ops@[k]@,
        h.defs() == g.defs(),
    ensures
        forall|c: Id, n: (u32, Seq<u32>)|
            #![trigger class_nodes(h.classes)[c].contains(n)]
            class_nodes(h.classes).dom().contains(c) && class_nodes(h.classes)[c].contains(n)
                ==> exists|i: int| #[trigger] h.spells(i, decode(h.ops@, n)),
{
    assert forall|c: Id, n: (u32, Seq<u32>)|
        #![trigger class_nodes(h.classes)[c].contains(n)]
        class_nodes(h.classes).dom().contains(c) && class_nodes(h.classes)[c].contains(
            n,
        ) implies exists|i: int| #[trigger] h.spells(i, decode(h.ops@, n)) by {
        assert(class_nodes(g.classes)[c].contains(n));
        let i = choose|i: int| #[trigger] g.spells(i, decode(g.ops@, n));
        lemma_plain_in(g, c, n);
        assert(coarser(g, h)) by {
            assert(forall|k: Id| h.canon(k) == g.canon(k));
        }
        lemma_spells_grows(g, h, i, decode(g.ops@, n));
        assert(decode(h.ops@, n) == decode(g.ops@, n));
    }
}

proof fn lemma_prefix_models(g: Graph, h: Graph)
    requires
        g.grows_to(h),
    ensures
        forall|m: Model| #[trigger] h.models(m) ==> g.models(m),
{
    assert forall|m: Model| #[trigger] h.models(m) implies g.models(m) by {
        assert forall|i: int| 0 <= i < g.defs().len() implies term_value(m, #[trigger] g.defs()[i])
            == Some(m.at(i as Id)) by {
            assert(h.defs()[i] == g.defs()[i]);
        }
        assert forall|k: int| 0 <= k < g.facts().len() implies equation_holds(
            m,
            #[trigger] g.facts()[k],
        ) by {
            assert(h.facts()[k] == g.facts()[k]);
        }
    }
}

impl Graph {
    /// Puts a term into the graph: the class that lists it, or a new one. Where no id
    /// is left the graph becomes full instead.
    pub fn add(&mut self, n: &Symbolic) -> (r: Id)
        requires
            old(self).wf(),
            old(self).has_all(n@.args),
        ensures
            final(self).wf(),
            old(self).grows_to(*final(self)),
            keeps_classes(*old(self), *final(self)),
            final(self).facts() == old(self).facts(),
            final(self).has(r),
            final(self).full() == (old(self).full() || (old(self).len() >= u32::MAX && !old(
                self,
            ).lists(old(self).canon_term(n@)))),
            !final(self).full() ==> added(*old(self), *final(self), n@, r),
            final(self).denotes(r, t_node(n@)),
    {
        let ghost g0 = *self;
        if let Some(c) = self.lookup(n) {
            proof {
                lemma_add_present(g0, n@, c);
            }
            return c;
        }
        if self.size() >= u32::MAX as usize {
            self.full = true;
            proof {
                lemma_same_content(g0, *self);
            }
            return 0;
        }
        let op = n.operator();
        let args = n.children();
        let code: u32 = match self.code_of(&op) {
            Some(code) => code,
            None => {
                let code: u32 = self.ops.len() as u32;
                self.ops.push(op);
                code
            },
        };
        let ghost g1 = *self;
        proof {
            assert(g1.ops@[code as int]@ == n@.op);
            assert(forall|k: int| 0 <= k < g0.ops@.len() ==> g1.ops@[k] == g0.ops@[k]);
            assert forall|j: int| 0 <= j < args@.len() implies #[trigger] args@[j]
                < class_of(g1.classes).len() by {
                assert(g0.has(n@.args[j]));
            }
            lemma_absent(g0, g1, code, n@);
        }
        let r = classes_add(&mut self.classes, code, &args);
        proof {
            self.defs = Ghost(self.defs@.push(n@));
            lemma_add_new(g0, g1, *self, code, n@, r);
        }
        r
    }
}

/// The operator table may grow without changing what any class holds.
spec fn same_but_ops(g: Graph, h: Graph) -> bool {
    &&& h.classes == g.classes
    &&& h.defs == g.defs
    &&& h.facts == g.facts
    &&& h.full == g.full
    &&& g.ops@.len() <= h.ops@.len() <= g.ops@.len() + 1
    &&& forall|k: int| 0 <= k < g.ops@.len() ==> h.ops@[k] == #[trigger] g.ops@[k]
}

proof fn lemma_absent(g: Graph, h: Graph, code: u32, n: Node)
    requires
        g.wf(),
        same_but_ops(g, h),
        code < h.ops@.len(),
        h.ops@[code as int]@ == n.op,
        h.ops@.len() == g.ops@.len() ==> code < g.ops@.len(),
        h.ops@.len() == g.ops@.len() + 1 ==> code == g.ops@.len(),
        g.has_all(n.args),
        !g.lists(g.canon_term(n)),
    ensures
        !node_present(h.classes, code, canonical(class_of(h.classes), n.args)),
{
    if h.ops@.len() == g.ops@.len() {
        lemma_lists(g, code, n);
    } else {
        let args = canonical(class_of(h.classes), n.args);
        if node_present(h.classes, code, args) {
            let c = choose|c: u32| #[trigger]
                class_nodes(h.classes).dom().contains(c) && class_nodes(h.classes)[c].contains(
                    (code, args),
                );
            assert(class_nodes(g.classes)[c].contains((code, args)));
            assert(code < g.ops@.len());
        }
    }
}

proof fn lemma_add_new(g0: Graph, g1: Graph, h: Graph, code: u32, n: Node, r: Id)
    requires
        g0.wf(),
        same_but_ops(g0, g1),
        g0.len() < u32::MAX,
        g0.has_all(n.args),
        arity_ok(n),
        code < g1.ops@.len(),
        g1.ops@[code as int]@ == n.op,
        forall|i: int, j: int|
            0 <= i < j < g1.ops@.len() ==> (#[trigger] g1.ops@[i])@ != (#[trigger] g1.ops@[j])@,
        h.ops == g1.ops,
        h.full == g1.full,
        h.facts == g1.facts,
        h.defs@ == g1.defs@.push(n),
        shaped(h.classes),
        r == g0.len(),
        class_of(h.classes) == class_of(g0.classes).push(r),
        class_nodes(h.classes) == class_nodes(g0.classes).insert(
            r,
            seq![(code, canonical(class_of(g0.classes), n.args))],
        ),
        !g0.lists(g0.canon_term(n)),
    ensures
        h.wf(),
        g0.grows_to(h),
        keeps_classes(g0, h),
        h.has(r),
        added(g0, h, n, r),
        h.denotes(r, t_node(n)),
{
    let args = canonical(class_of(g0.classes), n.args);
    let plain = (code, args);
    assert(decode(h.ops@, plain) == g0.canon_term(n)) by {
        assert(g0.canon_term(n).args =~= args);
    }
    assert(h.terms(r) =~= seq![g0.canon_term(n)]);
    assert(h.terms(r)[0] == g0.canon_term(n));
    assert forall|id: Id| g0.has(id) implies h.canon(id) == g0.canon(id) && #[trigger] h.terms(id)
        == g0.terms(id) by {
        assert(class_nodes(g0.classes).dom().contains(g0.canon(id)));
        assert(g0.canon(id) != r);
        let ns = class_nodes(g0.classes)[g0.canon(id)];
        assert forall|k: int| 0 <= k < ns.len() implies decode(h.ops@, #[trigger] ns[k])
            == decode(g0.ops@, ns[k]) by {
            assert(ns.contains(ns[k]));
        }
        assert(h.terms(id) =~= g0.terms(id));
    }
    assert(g0.grows_to(h)) by {
        assert(g0.defs().is_prefix_of(h.defs())) by {
            assert(h.defs().subrange(0, g0.defs().len() as int) =~= g0.defs());
        }
    }
    lemma_prefix_models(g0, h);
    assert forall|c: Id, p: (u32, Seq<u32>)|
        #![trigger class_nodes(h.classes)[c].contains(p)]
        class_nodes(h.classes).dom().contains(c) && class_nodes(h.classes)[c].contains(
            p,
        ) implies p.0 < h.ops@.len() && arity_ok(decode(h.ops@, p)) by {
        if c == r {
            assert(p == plain);
            assert(arity_ok(g0.canon_term(n)));
        } else {
            assert(class_nodes(g0.classes)[c].contains(p));
        }
    }
    assert forall|m: Model| #[trigger] h.models(m) implies h.sound_in(m) && tm_value(
        m,
        t_node(n),
    ) == Some(m.at(r)) by {
        lemma_tm_node(m, n);
        assert(g0.models(m));
        assert(g0.sound_in(m));
        assert(h.defs()[r as int] == n);
        assert(term_value(m, n) == Some(m.at(r)));
        lemma_canon_term(g0, m, n);
        assert forall|c: Id, p: (u32, Seq<u32>)|
            #![trigger class_nodes(h.classes)[c].contains(p)]
            class_nodes(h.classes).dom().contains(c) && class_nodes(h.classes)[c].contains(
                p,
            ) implies term_value(m, decode(h.ops@, p)) == Some(m.at(c)) by {
            if c == r {
                assert(p == plain);
            } else {
                assert(class_nodes(g0.classes)[c].contains(p));
                assert(decode(h.ops@, p) == decode(g0.ops@, p));
            }
        }
        assert forall|i: Id| i < h.len() implies m.at(i) == m.at(#[trigger] h.canon(i)) by {
            if i < g0.len() {
                assert(g0.canon(i) == h.canon(i));
            }
        }
    }
    assert forall|i: int, j: int|
        #![trigger h.defs()[i].args[j]]
        0 <= i < h.len() && 0 <= j < h.defs()[i].args.len() implies h.defs()[i].args[j]
        < h.len() by {
        if i < g0.len() {
            assert(h.defs()[i] == g0.defs()[i]);
            assert(g0.defs()[i].args[j] < g0.len());
        } else {
            assert(g0.has(n.args[j]));
        }
    }
    assert(coarser(g0, h)) by {
        assert(forall|k: Id| g0.has(k) ==> #[trigger] h.canon(k) == g0.canon(k));
    }
    assert forall|c: Id, p: (u32, Seq<u32>)|
        #![trigger class_nodes(h.classes)[c].contains(p)]
        class_nodes(h.classes).dom().contains(c) && class_nodes(h.classes)[c].contains(
            p,
        ) implies exists|i: int| #[trigger] h.spells(i, decode(h.ops@, p)) by {
        if c == r {
            assert(p == plain);
            assert(h.defs()[r as int] == n);
            assert forall|j: int| 0 <= j < args.len() implies h.canon(h.defs()[r as int].args[j])
                == h.canon(#[trigger] args[j]) by {
                assert(g0.has(n.args[j]));
                assert(h.canon(n.args[j]) == g0.canon(n.args[j]));
                assert(class_of(g0.classes)[class_of(g0.classes)[n.args[j] as int] as int]
                    == class_of(g0.classes)[n.args[j] as int]);
            }
            assert(h.spells(r as int, decode(h.ops@, p)));
        } else {
            assert(class_nodes(g0.classes)[c].contains(p));
            let i = choose|i: int| #[trigger] g0.spells(i, decode(g0.ops@, p));
            lemma_plain_in(g0, c, p);
            assert(decode(h.ops@, p) == decode(g0.ops@, p));
            assert(h.defs()[i] == g0.defs()[i]);
            lemma_spells_grows(g0, h, i, decode(g0.ops@, p));
        }
    }
}

proof fn lemma_union(g: Graph, h: Graph, a: Id, b: Id, ta: Tm, tb: Tm)
    requires
        g.wf(),
        g.has(a),
        g.has(b),
        !g.full(),
        g.denotes(a, ta),
        g.denotes(b, tb),
        h.ops == g.ops,
        h.defs == g.defs,
        h.full == g.full,
        h.facts@ == g.facts@.push((ta, tb)),
        shaped(h.classes),
        g.canon(a) == g.canon(b) ==> class_of(h.classes) == class_of(g.classes) && class_nodes(
            h.classes,
        ) == class_nodes(g.classes),
        g.canon(a) != g.canon(b) ==> joined(g.classes, h.classes, g.canon(a), g.canon(b)),
    ensures
        h.wf(),
        g.grows_to(h),
        h.len() == g.len(),
        h.canon(a) == h.canon(b),
        coarser(g, h),
        g.canon(a) == g.canon(b) ==> keeps_classes(g, h),
{
    assert(g.facts().is_prefix_of(h.facts())) by {
        assert(h.facts().subrange(0, g.facts().len() as int) =~= g.facts());
    }
    assert(g.defs().is_prefix_of(h.defs())) by {
        assert(h.defs().subrange(0, g.defs().len() as int) =~= g.defs());
    }
    lemma_prefix_models(g, h);
    let (x, y) = (g.canon(a), g.canon(b));
    let (root, other) = if x != y && !absorbed(g.classes, h.classes, x, y) {
        (y, x)
    } else {
        (x, y)
    };
    assert(class_nodes(g.classes).dom().contains(root));
    assert(class_nodes(g.classes).dom().contains(other));
    assert forall|i: Id| i < g.len() implies #[trigger] h.canon(i) == (if g.canon(i) == other {
        root
    } else {
        g.canon(i)
    }) by {}
    assert forall|c: Id, p: (u32, Seq<u32>)|
        #![trigger class_nodes(h.classes)[c].contains(p)]
        class_nodes(h.classes).dom().contains(c) && class_nodes(h.classes)[c].contains(
            p,
        ) implies class_nodes(g.classes)[c].contains(p) || (c == root && class_nodes(
        g.classes,
    )[other].contains(p)) by {
        if x != y && c != root {
            assert(c != other);
            assert(class_nodes(g.classes).dom().contains(c));
            assert(class_nodes(h.classes)[c] == class_nodes(g.classes)[c]);
        }
    }
    assert forall|m: Model| #[trigger] h.models(m) implies h.sound_in(m) by {
        assert(g.models(m));
        assert(g.sound_in(m));
        assert(h.facts()[g.facts().len() as int] == (ta, tb));
        assert(equation_holds(m, (ta, tb)));
        assert(m.at(a) == m.at(b));
        assert(m.at(x) == m.at(y));
        assert forall|i: Id| i < h.len() implies m.at(i) == m.at(#[trigger] h.canon(i)) by {
            assert(m.at(i) == m.at(g.canon(i)));
        }
        assert forall|c: Id, p: (u32, Seq<u32>)|
            #![trigger class_nodes(h.classes)[c].contains(p)]
            class_nodes(h.classes).dom().contains(c) && class_nodes(h.classes)[c].contains(
                p,
            ) implies term_value(m, decode(h.ops@, p)) == Some(m.at(c)) by {
            assert(class_nodes(g.classes).dom().contains(c));
        }
    }
    assert forall|i: int, j: int|
        #![trigger h.defs()[i].args[j]]
        0 <= i < h.len() && 0 <= j < h.defs()[i].args.len() implies h.defs()[i].args[j]
        < h.len() by {
        assert(g.defs()[i].args[j] < g.len());
    }
    assert forall|c: Id, p: (u32, Seq<u32>)|
        #![trigger class_nodes(h.classes)[c].contains(p)]
        class_nodes(h.classes).dom().contains(c) && class_nodes(h.classes)[c].contains(
            p,
        ) implies exists|i: int| #[trigger] h.spells(i, decode(h.ops@, p)) by {
        let d = if class_nodes(g.classes)[c].contains(p) {
            c
        } else {
            other
        };
        assert(class_nodes(g.classes).dom().contains(d));
        assert(class_nodes(g.classes)[d].contains(p));
        let i = choose|i: int| #[trigger] g.spells(i, decode(g.ops@, p));
        lemma_plain_in(g, d, p);
        lemma_spells_grows(g, h, i, decode(g.ops@, p));
    }
}

/// `h` is `g` with the equation of `ta` and `tb` asserted between the classes `a`
/// and `b`, unless `g` is full.
pub open spec fn stated(g: Graph, h: Graph, a: Id, b: Id, ta: Tm, tb: Tm) -> bool {
    &&& g.grows_to(h)
    &&& h.len() == g.len()
    &&& h.full() == g.full()
    &&& h.defs() == g.defs()
    &&& coarser(g, h)
    &&& g.full() ==> h == g
    &&& g.canon(a) == g.canon(b) ==> keeps_classes(g, h)
    &&& !g.full() ==> h.facts() == g.facts().push((ta, tb)) && h.canon(a) == h.canon(b)
}

/// Ids that share a class in `g` share one in `h`.
pub open spec fn coarser(g: Graph, h: Graph) -> bool {
    forall|i: Id, j: Id|
        #![trigger h.canon(i), h.canon(j)]
        g.has(i) && g.has(j) && g.canon(i) == g.canon(j) ==> h.canon(i) == h.canon(j)
}

proof fn lemma_rebuild_congruent(g: Graph, h: Graph)
    requires
        g.wf(),
        h.ops == g.ops,
        shaped(h.classes),
        closure_of(g.classes, h.classes),
        forall|c: Id, p: (u32, Seq<u32>)|
            #![trigger class_nodes(h.classes)[c].contains(p)]
            class_nodes(h.classes).dom().contains(c) && class_nodes(h.classes)[c].contains(p)
                ==> p.0 < h.ops@.len(),
    ensures
        congruent(h),
{
    assert forall|c: Id, n: Node| #[trigger] h.has(c) && #[trigger] h.terms(c).contains(
        n,
    ) implies h.canon_term(n) == n by {
        let k = choose|k: int| 0 <= k < h.terms(c).len() && h.terms(c)[k] == n;
        let d = h.canon(c);
        let p = class_nodes(h.classes)[d][k];
        assert(class_nodes(h.classes).dom().contains(d));
        assert(class_nodes(h.classes)[d].contains(p));
        let (d0, q) = choose|d0: u32, q: (u32, Seq<u32>)|
            {
                &&& #[trigger] class_nodes(g.classes).dom().contains(d0)
                &&& class_of(h.classes)[d0 as int] == d
                &&& #[trigger] class_nodes(g.classes)[d0].contains(q)
                &&& p == (q.0, canonical(class_of(h.classes), q.1))
            };
        assert forall|j: int| 0 <= j < n.args.len() implies h.canon(#[trigger] n.args[j])
            == n.args[j] by {
            let i = choose|i: int| 0 <= i < class_nodes(g.classes)[d0].len() && class_nodes(
                g.classes,
            )[d0][i] == q;
            assert(class_nodes(g.classes)[d0][i].1[j] < class_of(g.classes).len());
            assert(class_of(h.classes)[q.1[j] as int] == n.args[j]);
        }
        assert(h.canon_term(n).args =~= n.args);
    }
    assert forall|c: Id, d: Id, n: Node|
        #![trigger h.terms(c).contains(n), h.terms(d).contains(n)]
        h.has(c) && h.has(d) && h.terms(c).contains(n) && h.terms(d).contains(n) implies h.canon(c)
        == h.canon(d) by {
        let k = choose|k: int| 0 <= k < h.terms(c).len() && h.terms(c)[k] == n;
        let l = choose|l: int| 0 <= l < h.terms(d).len() && h.terms(d)[l] == n;
        let (cc, dd) = (h.canon(c), h.canon(d));
        let (p, q) = (class_nodes(h.classes)[cc][k], class_nodes(h.classes)[dd][l]);
        assert(class_nodes(h.classes).dom().contains(cc));
        assert(class_nodes(h.classes).dom().contains(dd));
        assert(class_nodes(h.classes)[cc].contains(p));
        assert(class_nodes(h.classes)[dd].contains(q));
        assert(h.ops@[p.0 as int]@ == h.ops@[q.0 as int]@);
        assert(p.0 == q.0);
        assert(p == q);
    }
}

proof fn lemma_rebuild(g: Graph, h: Graph)
    requires
        g.wf(),
        h.ops == g.ops,
        h.defs == g.defs,
        h.full == g.full,
        h.facts == g.facts,
        shaped(h.classes),
        closure_of(g.classes, h.classes),
    ensures
        h.wf(),
        h.len() == g.len(),
        coarser(g, h),
        congruent(h),
{
    assert forall|c: Id, p: (u32, Seq<u32>)|
        #![trigger class_nodes(h.classes)[c].contains(p)]
        class_nodes(h.classes).dom().contains(c) && class_nodes(h.classes)[c].contains(
            p,
        ) implies exists|d: u32, q: (u32, Seq<u32>)|
        {
            &&& #[trigger] class_nodes(g.classes).dom().contains(d)
            &&& class_of(h.classes)[d as int] == c
            &&& #[trigger] class_nodes(g.classes)[d].contains(q)
            &&& p == (q.0, canonical(class_of(h.classes), q.1))
        } by {}
    assert forall|m: Model| #[trigger] h.models(m) implies h.sound_in(m) by {
        assert(g.models(m));
        assert(g.sound_in(m));
        let e = |i: u32, j: u32| m.at(i) == m.at(j);
        assert(congruence(g.classes, e)) by {
            assert forall|i: u32| i < class_of(g.classes).len() implies #[trigger] e(
                i,
                class_of(g.classes)[i as int],
            ) by {
                assert(m.at(i) == m.at(g.canon(i)));
            }
            assert forall|c: u32, d: u32, n: (u32, Seq<u32>), q: (u32, Seq<u32>)|
                #![trigger class_nodes(g.classes)[c].contains(n), class_nodes(g.classes)[d].contains(q)]
                {
                    &&& class_nodes(g.classes).dom().contains(c) && class_nodes(
                        g.classes,
                    )[c].contains(n)
                    &&& class_nodes(g.classes).dom().contains(d) && class_nodes(
                        g.classes,
                    )[d].contains(q)
                    &&& n.0 == q.0 && n.1.len() == q.1.len()
                    &&& forall|j: int| 0 <= j < n.1.len() ==> e(#[trigger] n.1[j], q.1[j])
                } implies e(c, d) by {
                assert(m.all(n.1) =~= m.all(q.1));
                assert(term_value(m, decode(g.ops@, n)) == Some(m.at(c)));
                assert(term_value(m, decode(g.ops@, q)) == Some(m.at(d)));
            }
        }
        assert forall|i: Id| i < h.len() implies m.at(i) == m.at(#[trigger] h.canon(i)) by {
            let f = class_of(h.classes)[i as int];
            assert(class_of(h.classes)[f as int] == f);
            assert(e(i, f));
        }
        assert forall|c: Id, p: (u32, Seq<u32>)|
            #![trigger class_nodes(h.classes)[c].contains(p)]
            class_nodes(h.classes).dom().contains(c) && class_nodes(h.classes)[c].contains(
                p,
            ) implies term_value(m, decode(h.ops@, p)) == Some(m.at(c)) by {
            let (d, q) = choose|d: u32, q: (u32, Seq<u32>)|
                {
                    &&& #[trigger] class_nodes(g.classes).dom().contains(d)
                    &&& class_of(h.classes)[d as int] == c
                    &&& #[trigger] class_nodes(g.classes)[d].contains(q)
                    &&& p == (q.0, canonical(class_of(h.classes), q.1))
                };
            assert(term_value(m, decode(g.ops@, q)) == Some(m.at(d)));
            assert(m.at(d) == m.at(h.canon(d)));
            assert forall|j: int| 0 <= j < q.1.len() implies m.at(#[trigger] p.1[j]) == m.at(
                q.1[j],
            ) by {
                let k = choose|k: int| 0 <= k < class_nodes(g.classes)[d].len() && class_nodes(
                    g.classes,
                )[d][k] == q;
                assert(class_nodes(g.classes)[d][k].1[j] < class_of(g.classes).len());
                assert(m.at(q.1[j]) == m.at(h.canon(q.1[j])));
            }
            assert(m.all(p.1) =~= m.all(q.1));
        }
    }
    assert forall|c: Id, p: (u32, Seq<u32>)|
        #![trigger class_nodes(h.classes)[c].contains(p)]
        class_nodes(h.classes).dom().contains(c) && class_nodes(h.classes)[c].contains(
            p,
        ) implies p.0 < h.ops@.len() && arity_ok(decode(h.ops@, p)) by {
        let (d, q) = choose|d: u32, q: (u32, Seq<u32>)|
            {
                &&& #[trigger] class_nodes(g.classes).dom().contains(d)
                &&& class_of(h.classes)[d as int] == c
                &&& #[trigger] class_nodes(g.classes)[d].contains(q)
                &&& p == (q.0, canonical(class_of(h.classes), q.1))
            };
        assert(arity_ok(decode(g.ops@, q)));
    }
    assert forall|c: Id, p: (u32, Seq<u32>)|
        #![trigger class_nodes(h.classes)[c].contains(p)]
        class_nodes(h.classes).dom().contains(c) && class_nodes(h.classes)[c].contains(
            p,
        ) implies exists|i: int| #[trigger] h.spells(i, decode(h.ops@, p)) by {
        let (d, q) = choose|d: u32, q: (u32, Seq<u32>)|
            {
                &&& #[trigger] class_nodes(g.classes).dom().contains(d)
                &&& class_of(h.classes)[d as int] == c
                &&& #[trigger] class_nodes(g.classes)[d].contains(q)
                &&& p == (q.0, canonical(class_of(h.classes), q.1))
            };
        let i = choose|i: int| #[trigger] g.spells(i, decode(g.ops@, q));
        lemma_plain_in(g, d, q);
        lemma_spells_grows(g, h, i, decode(g.ops@, q));
        assert forall|j: int| 0 <= j < p.1.len() implies h.canon(h.defs()[i].args[j]) == h.canon(
            #[trigger] p.1[j],
        ) by {
            assert(g.has(q.1[j]));
            assert(h.canon(h.defs()[i].args[j]) == h.canon(q.1[j]));
            let f = class_of(h.classes)[q.1[j] as int];
            assert(class_of(h.classes)[f as int] == f);
        }
        assert(h.spells(i, decode(h.ops@, p)));
    }
    lemma_rebuild_congruent(g, h);
    assert forall|i: int, j: int|
        #![trigger h.defs()[i].args[j]]
        0 <= i < h.len() && 0 <= j < h.defs()[i].args.len() implies h.defs()[i].args[j]
        < h.len() by {
        assert(g.defs()[i].args[j] < g.len());
    }
}

impl Graph {
    /// Asserts that two classes are equal, and says whether that was news. A full
    /// graph takes no more facts.
    pub fn union(&mut self, a: Id, b: Id) -> (r: bool)
        requires
            old(self).wf(),
            old(self).has(a),
            old(self).has(b),
        ensures
            final(self).wf(),
            stated(*old(self), *final(self), a, b, Tm::Class(a), Tm::Class(b)),
            r == (!old(self).full() && old(self).canon(a) != old(self).canon(b)),
    {
        self.state(a, b, Ghost(Tm::Class(a)), Ghost(Tm::Class(b)))
    }

    /// Asserts the equation of two terms that `a` and `b` denote, and says whether
    /// that was news.
    pub(crate) fn state(&mut self, a: Id, b: Id, ta: Ghost<Tm>, tb: Ghost<Tm>) -> (r: bool)
        requires
            old(self).wf(),
            old(self).has(a),
            old(self).has(b),
            old(self).denotes(a, ta@),
            old(self).denotes(b, tb@),
        ensures
            final(self).wf(),
            stated(*old(self), *final(self), a, b, ta@, tb@),
            r == (!old(self).full() && old(self).canon(a) != old(self).canon(b)),
    {
        let ghost g0 = *self;
        if self.full {
            return false;
        }
        let r = classes_union(&mut self.classes, a, b);
        proof {
            self.facts = Ghost(self.facts@.push((ta@, tb@)));
            lemma_union(g0, *self, a, b, ta@, tb@);
        }
        r
    }

    /// Restores congruence: classes that hold the same term become one.
    pub fn rebuild(&mut self)
        requires
            old(self).wf(),
        ensures
            final(self).wf(),
            old(self).grows_to(*final(self)),
            final(self).len() == old(self).len(),
            final(self).full() == old(self).full(),
            final(self).defs() == old(self).defs(),
            final(self).facts() == old(self).facts(),
            coarser(*old(self), *final(self)),
            congruent(*final(self)),
    {
        let ghost g0 = *self;
        classes_rebuild(&mut self.classes);
        proof {
            lemma_rebuild(g0, *self);
        }
    }

    /// A copy of the graph.
    pub fn copy(&self) -> (r: Graph)
        requires
            self.wf(),
        ensures
            r.wf(),
            r.len() == self.len(),
            r.full() == self.full(),
            r.defs() == self.defs(),
            r.facts() == self.facts(),
            keeps_classes(*self, r),
    {
        let mut ops: Vec<Op> = Vec::new();
        let mut i: usize = 0;
        while i < self.ops.len()
            invariant
                i <= self.ops@.len(),
                ops@.len() == i,
                forall|k: int| 0 <= k < i ==> (#[trigger] ops@[k])@ == self.ops@[k]@,
            decreases self.ops.len() - i,
        {
            ops.push(self.ops[i].clone());
            i += 1;
        }
        let r = Graph {
            classes: classes_clone(&self.classes),
            ops,
            full: self.full,
            defs: Ghost(self.defs@),
            facts: Ghost(self.facts@),
        };
        proof {
            lemma_copy(*self, r);
        }
        r
    }
}

proof fn lemma_copy(g: Graph, h: Graph)
    requires
        g.wf(),
        class_of(h.classes) == class_of(g.classes),
        class_nodes(h.classes) == class_nodes(g.classes),
        h.ops@.len() == g.ops@.len(),
        forall|k: int| 0 <= k < g.ops@.len() ==> (#[trigger] h.ops@[k])@ == g.ops@[k]@,
        h.defs == g.defs,
        h.facts == g.facts,
    ensures
        h.wf(),
        keeps_classes(g, h),
{
    assert forall|c: Id, p: (u32, Seq<u32>)|
        #![trigger class_nodes(h.classes)[c].contains(p)]
        class_nodes(h.classes).dom().contains(c) && class_nodes(h.classes)[c].contains(
            p,
        ) implies p.0 < h.ops@.len() && decode(h.ops@, p) == decode(g.ops@, p) && arity_ok(
        decode(h.ops@, p),
    ) by {
        assert(class_nodes(g.classes)[c].contains(p));
    }
    assert forall|m: Model| #[trigger] h.models(m) implies h.sound_in(m) by {
        assert(g.models(m));
        assert(g.sound_in(m));
        assert forall|i: Id| i < h.len() implies m.at(i) == m.at(#[trigger] h.canon(i)) by {
            assert(g.canon(i) == h.canon(i));
        }
    }
    assert forall|id: Id| g.has(id) implies h.canon(id) == g.canon(id) && #[trigger] h.terms(id)
        == g.terms(id) by {
        assert(class_nodes(g.classes).dom().contains(g.canon(id)));
        let ns = class_nodes(g.classes)[g.canon(id)];
        assert forall|k: int| 0 <= k < ns.len() implies decode(h.ops@, #[trigger] ns[k])
            == decode(g.ops@, ns[k]) by {
            assert(class_nodes(h.classes)[g.canon(id)].contains(ns[k]));
        }
        assert(h.terms(id) =~= g.terms(id));
    }
    assert forall|i: int, j: int|
        0 <= i < j < h.ops@.len() implies (#[trigger] h.ops@[i])@ != (#[trigger] h.ops@[j])@ by {
        assert(g.ops@[i]@ != g.ops@[j]@);
    }
    lemma_spelled_same(g, h);
    assert forall|i: int, j: int|
        #![trigger h.defs()[i].args[j]]
        0 <= i < h.len() && 0 <= j < h.defs()[i].args.len() implies h.defs()[i].args[j]
        < h.len() by {
        assert(g.defs()[i].args[j] < g.len());
    }
}

} // verus!
