//! Building terms in the graph, and reading the literal that a class is known to be.

use crate::graph::{keeps_classes, lemma_term_value, Graph};
use crate::lang::{Id, Node, OpV, Symbolic};
use crate::model::{
    lemma_tm_bin, lemma_tm_ite, lemma_tm_node, t_bin, t_bool, t_classes, t_ite, t_lit, t_node,
    t_not, t_real, term_value, tm_value, tms_value, Model, Tm,
};
use crate::nums::{Int, Rat};
use crate::vmir::{BinOp, Literal, Value};
use vstd::prelude::*;

verus! {

/// `h` is `g` with, at most, definitions added; `r` denotes `t` in it.
pub open spec fn built(g: Graph, h: Graph, r: Id, t: Tm) -> bool {
    &&& h.wf()
    &&& g.grows_to(h)
    &&& keeps_classes(g, h)
    &&& h.facts() == g.facts()
    &&& h.has(r)
    &&& h.denotes(r, t)
}

/// Nothing but truth values was added.
pub open spec fn only_truths(g: Graph, h: Graph) -> bool {
    h.full() || forall|i: int|
        g.defs().len() <= i < h.defs().len() ==> (#[trigger] h.defs()[i]).op matches OpV::Lit(
            Value::Bool(_),
        )
}

/// A class, or a truth value.
pub open spec fn plain_tm(t: Tm) -> bool {
    t is Class || t == t_bool(true) || t == t_bool(false)
}

pub proof fn lemma_only_truths(g: Graph, h: Graph, k: Graph)
    requires
        g.grows_to(h),
        h.grows_to(k),
        only_truths(g, h),
        only_truths(h, k),
    ensures
        only_truths(g, k),
{
    if !k.full() {
        assert forall|i: int| g.defs().len() <= i < k.defs().len() implies (#[trigger] k.defs()[i]).op matches OpV::Lit(
            Value::Bool(_),
        ) by {
            if i < h.defs().len() {
                assert(k.defs()[i] == h.defs()[i]);
            }
        }
    }
}

/// `h` is `g` with, at most, definitions added.
pub open spec fn extended(g: Graph, h: Graph) -> bool {
    &&& h.wf()
    &&& g.grows_to(h)
    &&& keeps_classes(g, h)
    &&& h.facts() == g.facts()
}

pub broadcast proof fn lemma_grows_trans(g: Graph, h: Graph, k: Graph)
    requires
        #[trigger] g.grows_to(h),
        #[trigger] h.grows_to(k),
    ensures
        g.grows_to(k),
{
    assert(g.defs() =~= k.defs().subrange(0, g.defs().len() as int)) by {
        assert forall|i: int| 0 <= i < g.defs().len() implies g.defs()[i] == #[trigger] k.defs().subrange(0, g.defs().len() as int)[i] by {
            assert(g.defs()[i] == h.defs().subrange(0, g.defs().len() as int)[i]);
            assert(h.defs()[i] == k.defs().subrange(0, h.defs().len() as int)[i]);
        }
    }
    assert(g.facts() =~= k.facts().subrange(0, g.facts().len() as int)) by {
        assert forall|i: int| 0 <= i < g.facts().len() implies g.facts()[i] == #[trigger] k.facts().subrange(0, g.facts().len() as int)[i] by {
            assert(g.facts()[i] == h.facts().subrange(0, g.facts().len() as int)[i]);
            assert(h.facts()[i] == k.facts().subrange(0, h.facts().len() as int)[i]);
        }
    }
}

pub proof fn lemma_grows_refl(g: Graph)
    ensures
        g.grows_to(g),
        keeps_classes(g, g),
{
    assert(g.defs() =~= g.defs().subrange(0, g.defs().len() as int));
    assert(g.facts() =~= g.facts().subrange(0, g.facts().len() as int));
}

/// A model of a graph is a model of what it grew from.
pub broadcast proof fn lemma_grows_models(g: Graph, h: Graph, m: Model)
    requires
        #[trigger] g.grows_to(h),
        #[trigger] h.models(m),
    ensures
        g.models(m),
{
    assert forall|i: int| 0 <= i < g.defs().len() implies term_value(m, #[trigger] g.defs()[i])
        == Some(m.at(i as Id)) by {
        assert(g.defs()[i] == h.defs().subrange(0, g.defs().len() as int)[i]);
    }
    assert forall|k: int| 0 <= k < g.facts().len() implies crate::model::equation_holds(
        m,
        #[trigger] g.facts()[k],
    ) by {
        assert(g.facts()[k] == h.facts().subrange(0, g.facts().len() as int)[k]);
    }
}

/// What a class denotes it goes on to denote.
pub broadcast proof fn lemma_grows_denotes(g: Graph, h: Graph, id: Id, t: Tm)
    requires
        #[trigger] g.grows_to(h),
        #[trigger] g.denotes(id, t),
    ensures
        h.denotes(id, t),
{
    if !h.full() {
        assert forall|m: Model| #[trigger] h.models(m) implies tm_value(m, t) == Some(m.at(id)) by {
            lemma_grows_models(g, h, m);
        }
    }
}

pub broadcast group group_grows {
    lemma_grows_trans,
    lemma_grows_models,
    lemma_grows_denotes,
}

/// Every class denotes itself.
pub broadcast proof fn lemma_denotes_self(g: Graph, id: Id)
    ensures
        #[trigger] g.denotes(id, Tm::Class(id)),
{
}

pub proof fn lemma_denotes_bin(g: Graph, r: Id, op: BinOp, a: Id, b: Id, ta: Tm, tb: Tm)
    requires
        g.denotes(r, t_node(Node { op: OpV::Binary(op), args: seq![a, b] })),
        g.denotes(a, ta),
        g.denotes(b, tb),
    ensures
        g.denotes(r, t_bin(op, ta, tb)),
{
    if !g.full() {
        let n = Node { op: OpV::Binary(op), args: seq![a, b] };
        assert forall|m: Model| #[trigger] g.models(m) implies tm_value(m, t_bin(op, ta, tb))
            == Some(m.at(r)) by {
            lemma_tm_node(m, n);
            lemma_tm_bin(m, op, ta, tb);
            assert(m.all(n.args) =~= seq![m.at(a), m.at(b)]);
        }
    }
}

pub proof fn lemma_denotes_ite(
    g: Graph,
    r: Id,
    c: Id,
    t: Id,
    e: Id,
    tc: Tm,
    tt: Tm,
    te: Tm,
)
    requires
        g.denotes(r, t_node(Node { op: OpV::Ite, args: seq![c, t, e] })),
        g.denotes(c, tc),
        g.denotes(t, tt),
        g.denotes(e, te),
    ensures
        g.denotes(r, t_ite(tc, tt, te)),
{
    if !g.full() {
        let n = Node { op: OpV::Ite, args: seq![c, t, e] };
        assert forall|m: Model| #[trigger] g.models(m) implies tm_value(m, t_ite(tc, tt, te))
            == Some(m.at(r)) by {
            lemma_tm_node(m, n);
            lemma_tm_ite(m, tc, tt, te);
            assert(m.all(n.args) =~= seq![m.at(c), m.at(t), m.at(e)]);
        }
    }
}

/// Where a term is a class, an id is that class.
pub open spec fn tied(id: Id, t: Tm) -> bool {
    t matches Tm::Class(x) ==> id == x
}

/// Every class of a list denotes the term at its place, and is it where the term is a
/// class.
pub open spec fn denote_all(g: Graph, ids: Seq<Id>, ts: Seq<Tm>) -> bool {
    &&& ids.len() == ts.len()
    &&& forall|j: int|
        0 <= j < ids.len() ==> g.has(#[trigger] ids[j]) && g.denotes(ids[j], ts[j]) && tied(
            ids[j],
            ts[j],
        )
}

pub broadcast proof fn lemma_grows_denote_all(g: Graph, h: Graph, ids: Seq<Id>, ts: Seq<Tm>)
    requires
        #[trigger] g.grows_to(h),
        #[trigger] denote_all(g, ids, ts),
    ensures
        denote_all(h, ids, ts),
{
    assert forall|j: int| 0 <= j < ids.len() implies h.has(#[trigger] ids[j]) && h.denotes(
        ids[j],
        ts[j],
    ) by {
        lemma_grows_denotes(g, h, ids[j], ts[j]);
    }
}

pub proof fn lemma_denote_classes(g: Graph, ids: Seq<Id>)
    requires
        g.has_all(ids),
    ensures
        denote_all(g, ids, t_classes(ids)),
{
    assert forall|j: int| 0 <= j < ids.len() implies g.denotes(ids[j], t_classes(ids)[j]) by {
        lemma_denotes_self(g, ids[j]);
    }
}

proof fn lemma_denote_all_value(g: Graph, m: Model, ids: Seq<Id>, ts: Seq<Tm>)
    requires
        !g.full(),
        g.models(m),
        denote_all(g, ids, ts),
    ensures
        tms_value(m, ts) == Some(m.all(ids)),
    decreases ts.len(),
{
    if ts.len() > 0 {
        let a = ids.drop_last();
        let b = ts.drop_last();
        assert forall|j: int| 0 <= j < a.len() implies g.has(#[trigger] a[j]) && g.denotes(
            a[j],
            b[j],
        ) by {
            assert(a[j] == ids[j]);
        }
        lemma_denote_all_value(g, m, a, b);
        assert(g.denotes(ids[ids.len() - 1], ts.last()));
        assert(m.all(a).push(m.at(ids.last())) =~= m.all(ids));
    } else {
        assert(m.all(ids) =~= Seq::<Value>::empty());
    }
}

pub proof fn lemma_denotes_app(g: Graph, r: Id, n: Node, ts: Seq<Tm>)
    requires
        g.denotes(r, t_node(n)),
        denote_all(g, n.args, ts),
    ensures
        g.denotes(r, Tm::App(n.op, ts)),
{
    if !g.full() {
        assert forall|m: Model| #[trigger] g.models(m) implies tm_value(m, Tm::App(n.op, ts))
            == Some(m.at(r)) by {
            lemma_tm_node(m, n);
            lemma_denote_all_value(g, m, n.args, ts);
        }
    }
}

impl Graph {
    /// The class of a term over classes that denote `ts`.
    pub(crate) fn apply_of(&mut self, n: &Symbolic, ts: Ghost<Seq<Tm>>) -> (r: Id)
        requires
            old(self).wf(),
            denote_all(*old(self), n@.args, ts@),
        ensures
            built(*old(self), *final(self), r, Tm::App(n@.op, ts@)),
    {
        broadcast use {group_grows, lemma_grows_denote_all};

        let ghost g0 = *self;
        let r = self.add(n);
        proof {
            assert(denote_all(g0, n@.args, ts@));
            lemma_denotes_app(*self, r, n@, ts@);
        }
        r
    }

    /// The class of a literal.
    pub fn literal(&mut self, l: &Literal) -> (r: Id)
        requires
            old(self).wf(),
        ensures
            built(*old(self), *final(self), r, t_lit(l@)),
            written(*final(self), r, t_lit(l@)),
            l@ is Bool ==> only_truths(*old(self), *final(self)),
    {
        let ghost g0 = *self;
        let n = Symbolic::Lit(l.clone());
        let r = self.add(&n);
        proof {
            lemma_written_added(g0, *self, r, n@, Seq::empty());
            assert(t_node(n@) == t_lit(l@)) by {
                assert(t_classes(n@.args) =~= Seq::<Tm>::empty());
            }
        }
        r
    }

    /// The class of a boolean.
    pub fn boolean(&mut self, b: bool) -> (r: Id)
        requires
            old(self).wf(),
        ensures
            built(*old(self), *final(self), r, t_bool(b)),
    {
        self.literal(&Literal::Bool(b))
    }

    /// The class of the permission `0`.
    pub fn zero_real(&mut self) -> (r: Id)
        requires
            old(self).wf(),
        ensures
            built(*old(self), *final(self), r, t_real(0 as real)),
    {
        let zero = Int::from_i64(0);
        let l = Literal::Real(Rat::from_int(&zero));
        proof {
            assert(l@ == Value::Real(0 as real));
        }
        self.literal(&l)
    }

    /// The class of a binary term over classes that denote `ta` and `tb`.
    pub(crate) fn binary_of(
        &mut self,
        op: BinOp,
        a: Id,
        b: Id,
        ta: Ghost<Tm>,
        tb: Ghost<Tm>,
    ) -> (r: Id)
        requires
            old(self).wf(),
            old(self).has(a),
            old(self).has(b),
            old(self).denotes(a, ta@),
            old(self).denotes(b, tb@),
        ensures
            built(*old(self), *final(self), r, t_bin(op, ta@, tb@)),
            written(*old(self), a, ta@) && written(*old(self), b, tb@) ==> written(
                *final(self),
                r,
                t_bin(op, ta@, tb@),
            ),
    {
        broadcast use group_grows;

        let ghost g0 = *self;
        let n = Symbolic::Binary(op, [a, b]);
        proof {
            assert(n@.args =~= seq![a, b]);
        }
        let r = self.add(&n);
        proof {
            lemma_denotes_bin(*self, r, op, a, b, ta@, tb@);
            let ts = seq![ta@, tb@];
            if written(g0, a, ta@) && written(g0, b, tb@) {
                assert forall|i: int| 0 <= i < ts.len() implies written(
                    g0,
                    #[trigger] n@.args[i],
                    ts[i],
                ) by {}
                lemma_written_added(g0, *self, r, n@, ts);
            }
        }
        r
    }

    /// The class of a conditional term over classes that denote `tc`, `tt` and `te`.
    pub(crate) fn ite_of(
        &mut self,
        c: Id,
        t: Id,
        e: Id,
        tc: Ghost<Tm>,
        tt: Ghost<Tm>,
        te: Ghost<Tm>,
    ) -> (r: Id)
        requires
            old(self).wf(),
            old(self).has(c),
            old(self).has(t),
            old(self).has(e),
            old(self).denotes(c, tc@),
            old(self).denotes(t, tt@),
            old(self).denotes(e, te@),
        ensures
            built(*old(self), *final(self), r, t_ite(tc@, tt@, te@)),
            written(*old(self), c, tc@) && written(*old(self), t, tt@) && written(
                *old(self),
                e,
                te@,
            ) ==> written(*final(self), r, t_ite(tc@, tt@, te@)),
    {
        broadcast use group_grows;

        let ghost g0 = *self;
        let n = Symbolic::Ite([c, t, e]);
        proof {
            assert(n@.args =~= seq![c, t, e]);
        }
        let r = self.add(&n);
        proof {
            lemma_denotes_ite(*self, r, c, t, e, tc@, tt@, te@);
            let ts = seq![tc@, tt@, te@];
            if written(g0, c, tc@) && written(g0, t, tt@) && written(g0, e, te@) {
                assert forall|i: int| 0 <= i < ts.len() implies written(
                    g0,
                    #[trigger] n@.args[i],
                    ts[i],
                ) by {}
                lemma_written_added(g0, *self, r, n@, ts);
            }
        }
        r
    }

    /// The class of the negation of a class that denotes `tc`.
    pub(crate) fn not_of(&mut self, c: Id, tc: Ghost<Tm>) -> (r: Id)
        requires
            old(self).wf(),
            old(self).has(c),
            old(self).denotes(c, tc@),
        ensures
            built(*old(self), *final(self), r, t_not(tc@)),
    {
        broadcast use group_grows;

        let f = self.boolean(false);
        let t = self.boolean(true);
        self.ite_of(c, f, t, tc, Ghost(t_bool(false)), Ghost(t_bool(true)))
    }

    /// The class of `a == b`.
    pub fn equal(&mut self, a: Id, b: Id) -> (r: Id)
        requires
            old(self).wf(),
            old(self).has(a),
            old(self).has(b),
        ensures
            built(*old(self), *final(self), r, t_bin(BinOp::Eq, Tm::Class(a), Tm::Class(b))),
    {
        self.binary_of(BinOp::Eq, a, b, Ghost(Tm::Class(a)), Ghost(Tm::Class(b)))
    }
}

/// The first literal among the terms of a class.
pub open spec fn first_literal(ts: Seq<Node>) -> Option<Value>
    decreases ts.len(),
{
    if ts.len() == 0 {
        None
    } else {
        match ts[0].op {
            OpV::Lit(v) => Some(v),
            _ => first_literal(ts.drop_first()),
        }
    }
}

impl Graph {
    /// The literal that a class is known to be.
    pub open spec fn known_value(self, id: Id) -> Option<Value> {
        first_literal(self.terms(id))
    }

    /// The truth value that a class is known to have.
    pub open spec fn known_truth(self, id: Id) -> Option<bool> {
        match self.known_value(id) {
            Some(Value::Bool(b)) => Some(b),
            _ => None,
        }
    }

    /// The literal that a class is known to be.
    pub fn known(&self, id: Id) -> (r: Option<Literal>)
        requires
            self.wf(),
            self.has(id),
        ensures
            r is Some == self.known_value(id) is Some,
            r matches Some(l) ==> self.known_value(id) == Some(l@),
    {
        let ts = self.terms_of(id);
        let ghost all = self.terms(id);
        let mut i: usize = 0;
        proof {
            assert(all.skip(0) =~= all);
        }
        while i < ts.len()
            invariant
                i <= ts@.len(),
                ts@.len() == all.len(),
                all == self.terms(id),
                forall|k: int| 0 <= k < ts@.len() ==> (#[trigger] ts@[k])@ == all[k],
                first_literal(all) == first_literal(all.skip(i as int)),
            decreases ts.len() - i,
        {
            proof {
                assert(all.skip(i as int)[0] == all[i as int]);
                assert(all.skip(i as int).drop_first() =~= all.skip(i + 1));
            }
            if let Symbolic::Lit(l) = &ts[i] {
                return Some(l.clone());
            }
            i += 1;
        }
        None
    }

    /// The truth value that a class is known to have.
    pub fn known_bool(&self, id: Id) -> (r: Option<bool>)
        requires
            self.wf(),
            self.has(id),
        ensures
            r == self.known_truth(id),
    {
        match self.known(id) {
            Some(Literal::Bool(b)) => Some(b),
            _ => None,
        }
    }

    /// The rational that a class is known to be.
    pub fn known_real(&self, id: Id) -> (r: Option<Rat>)
        requires
            self.wf(),
            self.has(id),
        ensures
            r matches Some(q) ==> self.known_value(id) == Some(Value::Real(q@)),
            r is None ==> !(self.known_value(id) matches Some(Value::Real(_))),
    {
        match self.known(id) {
            Some(Literal::Real(q)) => Some(q),
            _ => None,
        }
    }
}

proof fn lemma_first_literal(ts: Seq<Node>)
    requires
        first_literal(ts) is Some,
    ensures
        exists|k: int|
            0 <= k < ts.len() && (#[trigger] ts[k]).op == OpV::Lit(first_literal(ts).unwrap()),
    decreases ts.len(),
{
    match ts[0].op {
        OpV::Lit(_) => {
            assert(ts[0].op == OpV::Lit(first_literal(ts).unwrap()));
        },
        _ => {
            lemma_first_literal(ts.drop_first());
            let k = choose|k: int|
                0 <= k < ts.drop_first().len() && (#[trigger] ts.drop_first()[k]).op == OpV::Lit(
                    first_literal(ts).unwrap(),
                );
            assert(ts[k + 1].op == OpV::Lit(first_literal(ts).unwrap()));
        },
    }
}

/// A class has the value it is known to have, in every model.
pub proof fn lemma_known(g: Graph, m: Model, id: Id)
    requires
        g.wf(),
        g.models(m),
        g.has(id),
    ensures
        g.known_value(id) matches Some(v) ==> m.at(id) == v,
        g.known_truth(id) matches Some(b) ==> m.is(id, b),
{
    if g.known_value(id) is Some {
        let ts = g.terms(id);
        lemma_first_literal(ts);
        let k = choose|k: int|
            0 <= k < ts.len() && (#[trigger] ts[k]).op == OpV::Lit(first_literal(ts).unwrap());
        lemma_term_value(g, m, id, k);
    }
}

/// A term to build.
pub enum Expr {
    Class(Id),
    Lit(Literal),
    Bin(BinOp, Box<Expr>, Box<Expr>),
    Ite(Box<Expr>, Box<Expr>, Box<Expr>),
    Node(Symbolic),
}

pub open spec fn expr_tm(e: Expr) -> Tm
    decreases e,
{
    match e {
        Expr::Class(id) => Tm::Class(id),
        Expr::Lit(l) => t_lit(l@),
        Expr::Bin(op, a, b) => t_bin(op, expr_tm(*a), expr_tm(*b)),
        Expr::Ite(c, t, e) => t_ite(expr_tm(*c), expr_tm(*t), expr_tm(*e)),
        Expr::Node(n) => t_node(n@),
    }
}

/// Every class that an expression mentions exists.
pub open spec fn expr_in(e: Expr, g: Graph) -> bool
    decreases e,
{
    match e {
        Expr::Class(id) => g.has(id),
        Expr::Lit(_) => true,
        Expr::Bin(_, a, b) => expr_in(*a, g) && expr_in(*b, g),
        Expr::Ite(c, t, e) => expr_in(*c, g) && expr_in(*t, g) && expr_in(*e, g),
        Expr::Node(n) => g.has_all(n@.args),
    }
}

pub proof fn lemma_expr_in_grows(e: Expr, g: Graph, h: Graph)
    requires
        g.len() <= h.len(),
        expr_in(e, g),
    ensures
        expr_in(e, h),
    decreases e,
{
    match e {
        Expr::Class(_) => {},
        Expr::Lit(_) => {},
        Expr::Bin(_, a, b) => {
            lemma_expr_in_grows(*a, g, h);
            lemma_expr_in_grows(*b, g, h);
        },
        Expr::Ite(c, t, e) => {
            lemma_expr_in_grows(*c, g, h);
            lemma_expr_in_grows(*t, g, h);
            lemma_expr_in_grows(*e, g, h);
        },
        Expr::Node(n) => {
            assert forall|j: int| 0 <= j < n@.args.len() implies h.has(#[trigger] n@.args[j]) by {
                assert(g.has(n@.args[j]));
            }
        },
    }
}

pub proof fn lemma_keeps_trans(g: Graph, h: Graph, k: Graph)
    requires
        keeps_classes(g, h),
        keeps_classes(h, k),
        g.len() <= h.len(),
    ensures
        keeps_classes(g, k),
{
    assert forall|id: Id|
        #![trigger k.canon(id)]
        #![trigger k.terms(id)]
        g.has(id) implies k.canon(id) == g.canon(id) && k.terms(id) == g.terms(id) by {
        assert(h.canon(id) == g.canon(id));
        assert(k.canon(id) == h.canon(id));
    }
}

impl Expr {
    pub fn boolean(b: bool) -> (r: Expr)
        ensures
            expr_tm(r) == t_bool(b),
            forall|g: Graph| #[trigger] expr_in(r, g),
    {
        Expr::Lit(Literal::Bool(b))
    }

    /// The permission `0`.
    pub fn zero() -> (r: Expr)
        ensures
            expr_tm(r) == t_real(0 as real),
            forall|g: Graph| #[trigger] expr_in(r, g),
    {
        let zero = Int::from_i64(0);
        Expr::Lit(Literal::Real(Rat::from_int(&zero)))
    }

    pub fn bin(op: BinOp, a: Expr, b: Expr) -> (r: Expr)
        ensures
            expr_tm(r) == t_bin(op, expr_tm(a), expr_tm(b)),
            forall|g: Graph| #[trigger] expr_in(r, g) == (expr_in(a, g) && expr_in(b, g)),
    {
        Expr::Bin(op, Box::new(a), Box::new(b))
    }

    pub fn ite(c: Expr, t: Expr, e: Expr) -> (r: Expr)
        ensures
            expr_tm(r) == t_ite(expr_tm(c), expr_tm(t), expr_tm(e)),
            forall|g: Graph| #[trigger]
                expr_in(r, g) == (expr_in(c, g) && expr_in(t, g) && expr_in(e, g)),
    {
        Expr::Ite(Box::new(c), Box::new(t), Box::new(e))
    }

    /// Negation, as the conditional that it is spelled as.
    pub fn negation(c: Expr) -> (r: Expr)
        ensures
            expr_tm(r) == t_not(expr_tm(c)),
            forall|g: Graph| #[trigger] expr_in(r, g) == expr_in(c, g),
    {
        Expr::ite(c, Expr::boolean(false), Expr::boolean(true))
    }
}

/// A class lists a term over classes, children taken by their canonical ids.
pub open spec fn lists_over(g: Graph, id: Id, op: OpV, ids: Seq<Id>) -> bool {
    &&& g.has(id)
    &&& g.has_all(ids)
    &&& g.terms(id).contains(g.canon_term(Node { op, args: ids }))
}

/// A class is a term as it is written: the class that the term names, or one that lists its
/// operator over classes of its operands.
pub open spec fn written(g: Graph, id: Id, t: Tm) -> bool
    decreases t,
{
    g.full() || match t {
        Tm::Class(x) => id == x,
        Tm::App(op, ts) => exists|ids: Seq<Id>|
            {
                &&& #[trigger] lists_over(g, id, op, ids)
                &&& ids.len() == ts.len()
                &&& forall|i: int| 0 <= i < ts.len() ==> written(g, #[trigger] ids[i], ts[i])
            },
    }
}

/// What is written stays so where classes are kept.
pub proof fn lemma_written_kept(g: Graph, h: Graph, id: Id, t: Tm)
    requires
        g.grows_to(h),
        keeps_classes(g, h),
        written(g, id, t),
    ensures
        written(h, id, t),
    decreases t,
{
    if !h.full() {
        if let Tm::App(op, ts) = t {
            let ids = choose|ids: Seq<Id>|
                {
                    &&& #[trigger] lists_over(g, id, op, ids)
                    &&& ids.len() == ts.len()
                    &&& forall|i: int| 0 <= i < ts.len() ==> written(g, #[trigger] ids[i], ts[i])
                };
            let n = Node { op, args: ids };
            assert(h.canon_term(n).args =~= g.canon_term(n).args) by {
                assert forall|j: int| 0 <= j < ids.len() implies #[trigger] h.canon(ids[j])
                    == g.canon(ids[j]) by {
                    assert(g.has(ids[j]));
                }
            }
            assert(h.terms(id) == g.terms(id));
            assert forall|j: int| 0 <= j < ids.len() implies h.has(#[trigger] ids[j]) by {
                assert(g.has(ids[j]));
            }
            assert(lists_over(h, id, op, ids));
            assert forall|i: int| 0 <= i < ts.len() implies written(h, #[trigger] ids[i], ts[i]) by {
                lemma_written_kept(g, h, ids[i], ts[i]);
            }
        }
    }
}

/// In the negation of a binary term as it is written, a class may be replaced by the term
/// that it is.
pub proof fn lemma_written_swap(g: Graph, id: Id, p: Id, op: BinOp, t: Tm, z: Tm)
    requires
        written(g, id, t_not(t_bin(op, Tm::Class(p), z))),
        written(g, p, t),
    ensures
        written(g, id, t_not(t_bin(op, t, z))),
{
    if !g.full() {
        let with = t_bin(op, Tm::Class(p), z);
        let ts = seq![with, t_bool(false), t_bool(true)];
        assert(t_not(with) == Tm::App(OpV::Ite, ts));
        let ids = choose|ids: Seq<Id>|
            {
                &&& #[trigger] lists_over(g, id, OpV::Ite, ids)
                &&& ids.len() == ts.len()
                &&& forall|i: int| 0 <= i < ts.len() ==> written(g, #[trigger] ids[i], ts[i])
            };
        assert(written(g, ids[0], ts[0]));
        assert(written(g, ids[1], ts[1]));
        assert(written(g, ids[2], ts[2]));
        let us = seq![Tm::Class(p), z];
        assert(with == Tm::App(OpV::Binary(op), us));
        let js = choose|js: Seq<Id>|
            {
                &&& #[trigger] lists_over(g, ids[0], OpV::Binary(op), js)
                &&& js.len() == us.len()
                &&& forall|i: int| 0 <= i < us.len() ==> written(g, #[trigger] js[i], us[i])
            };
        assert(written(g, js[0], us[0]));
        assert(written(g, js[1], us[1]));
        let ws = seq![t, z];
        assert forall|i: int| 0 <= i < ws.len() implies written(g, #[trigger] js[i], ws[i]) by {}
        assert(lists_over(g, ids[0], OpV::Binary(op), js));
        assert(written(g, ids[0], Tm::App(OpV::Binary(op), ws)));
        assert(t_bin(op, t, z) == Tm::App(OpV::Binary(op), ws));
        let vs = seq![t_bin(op, t, z), t_bool(false), t_bool(true)];
        assert forall|i: int| 0 <= i < vs.len() implies written(g, #[trigger] ids[i], vs[i]) by {}
        assert(lists_over(g, id, OpV::Ite, ids));
        assert(t_not(t_bin(op, t, z)) == Tm::App(OpV::Ite, vs));
    }
}

/// A term that was just put in is listed.
proof fn lemma_written_added(g: Graph, h: Graph, r: Id, n: Node, ts: Seq<Tm>)
    requires
        g.grows_to(h),
        keeps_classes(g, h),
        h.has(r),
        g.has_all(n.args),
        !h.full() ==> crate::graph::added(g, h, n, r),
        n.args.len() == ts.len(),
        forall|i: int| 0 <= i < ts.len() ==> written(g, #[trigger] n.args[i], ts[i]),
    ensures
        written(h, r, Tm::App(n.op, ts)),
{
    if !h.full() {
        assert(h.canon_term(n).args =~= g.canon_term(n).args) by {
            assert forall|j: int| 0 <= j < n.args.len() implies #[trigger] h.canon(n.args[j])
                == g.canon(n.args[j]) by {
                assert(g.has(n.args[j]));
            }
        }
        assert forall|j: int| 0 <= j < n.args.len() implies h.has(#[trigger] n.args[j]) by {
            assert(g.has(n.args[j]));
        }
        assert(lists_over(h, r, n.op, n.args));
        assert forall|i: int| 0 <= i < ts.len() implies written(h, #[trigger] n.args[i], ts[i]) by {
            lemma_written_kept(g, h, n.args[i], ts[i]);
        }
    }
}

impl Graph {
    /// Puts an expression into the graph, innermost terms first and operands from the
    /// left.
    pub fn build(&mut self, e: &Expr) -> (r: Id)
        requires
            old(self).wf(),
            expr_in(*e, *old(self)),
        ensures
            built(*old(self), *final(self), r, expr_tm(*e)),
            *e matches Expr::Class(id) ==> r == id,
            written(*final(self), r, expr_tm(*e)),
            plain_tm(expr_tm(*e)) ==> only_truths(*old(self), *final(self)),
        decreases e,
    {
        broadcast use {group_grows, lemma_denotes_self};

        let ghost g0 = *self;
        match e {
            Expr::Class(id) => {
                proof {
                    lemma_grows_refl(g0);
                }
                *id
            },
            Expr::Lit(l) => self.literal(l),
            Expr::Bin(op, a, b) => {
                let x = self.build(a);
                let ghost g1 = *self;
                proof {
                    lemma_expr_in_grows(**b, g0, g1);
                }
                let y = self.build(b);
                let ghost g2 = *self;
                proof {
                    lemma_written_kept(g1, g2, x, expr_tm(**a));
                }
                let r = self.binary_of(*op, x, y, Ghost(expr_tm(**a)), Ghost(expr_tm(**b)));
                proof {
                    lemma_keeps_trans(g0, g1, g2);
                    lemma_keeps_trans(g0, g2, *self);
                }
                r
            },
            Expr::Ite(c, t, f) => {
                let x = self.build(c);
                let ghost g1 = *self;
                proof {
                    lemma_expr_in_grows(**t, g0, g1);
                }
                let y = self.build(t);
                let ghost g2 = *self;
                proof {
                    lemma_expr_in_grows(**f, g0, g2);
                }
                let z = self.build(f);
                let ghost g3 = *self;
                proof {
                    lemma_written_kept(g1, g2, x, expr_tm(**c));
                    lemma_written_kept(g2, g3, x, expr_tm(**c));
                    lemma_written_kept(g2, g3, y, expr_tm(**t));
                }
                let r = self.ite_of(
                    x,
                    y,
                    z,
                    Ghost(expr_tm(**c)),
                    Ghost(expr_tm(**t)),
                    Ghost(expr_tm(**f)),
                );
                proof {
                    lemma_keeps_trans(g0, g1, g2);
                    lemma_keeps_trans(g0, g2, g3);
                    lemma_keeps_trans(g0, g3, *self);
                }
                r
            },
            Expr::Node(n) => {
                let r = self.add(n);
                proof {
                    let ts = t_classes(n@.args);
                    assert forall|i: int| 0 <= i < ts.len() implies written(
                        g0,
                        #[trigger] n@.args[i],
                        ts[i],
                    ) by {}
                    lemma_written_added(g0, *self, r, n@, ts);
                }
                r
            },
        }
    }
}

} // verus!
