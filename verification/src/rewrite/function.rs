//! Function unfolding: installing `f(args) == body` and replaying a verified
//! postcondition where a call occurs.

use crate::graph::{coarser, keeps_classes, lemma_term_value, Graph};
use crate::lang::{FuncId, Id, Node, OpV, Symbolic};
use crate::model::{t_bool, t_classes, t_eq, t_ite, Model, Tm};
use crate::rewrite::gather::all_hold;
use crate::rewrite::memo::{Memo, MemoKey, Scopes};
use crate::rewrite::pins::{
    asserted, lemma_asserted_trans, lemma_extended_asserted, lemma_merges_before,
    lemma_merges_later, merges,
};
use crate::rewrite::recipe::{
    build_instance_vals_guarded, class_gate, equate, gate_of, gated, inst_facts, inst_vals, insts_ok,
    lemma_slots, release, release_tokens, resolve_val, slots, steps_ok, token_facts, val_ok, val_tm,
    AxiomInst, TokenStep,
};
use crate::rewrite::sound::{follows, lemma_follows_asserted};
use crate::terms::{
    denote_all, group_grows, lemma_denotes_self, lemma_grows_denote_all, lemma_grows_refl,
    lemma_grows_trans, lemma_keeps_trans,
};
use crate::vmir::{clone_types, same_types, types_view, BinOp, Type, TypeV, Val, Value};
use vstd::prelude::*;

verus! {

broadcast use {lemma_merges_before, lemma_merges_later};

/// A postcondition over the parameters: its steps, its truth, and the presence
/// token of the member that states it.
pub struct PostRecipe {
    pub steps: Vec<AxiomInst>,
    pub res: Val,
    pub token: Option<Val>,
}

/// What is recorded of a verified function: the recipe of its body, the tokens of
/// its callees, the symbol that stands for it inside its own recursion, and its
/// postcondition. An abstract function has no result.
pub struct FunctionDefinition {
    pub n_params: usize,
    pub steps: Vec<AxiomInst>,
    pub res: Option<Val>,
    pub token_steps: Vec<TokenStep>,
    pub limited: Option<FuncId>,
    pub post: Option<PostRecipe>,
}

impl FunctionDefinition {
    /// Every operand names a slot that was filled before it.
    pub open spec fn wf(self) -> bool {
        &&& insts_ok(self.steps@, self.n_params as nat)
        &&& self.res matches Some(v) ==> val_ok(v, slots(self.steps@, self.n_params as nat))
        &&& steps_ok(self.token_steps@, slots(self.steps@, self.n_params as nat))
        &&& self.post matches Some(p) ==> {
            &&& insts_ok(p.steps@, self.n_params as nat)
            &&& val_ok(p.res, slots(p.steps@, self.n_params as nat))
            &&& p.token matches Some(v) ==> val_ok(v, slots(p.steps@, self.n_params as nat))
        }
    }
}

/// A call: its type arguments and its arguments, by canonical id.
pub struct CallKey {
    pub tys: Vec<Type>,
    pub args: Vec<Id>,
}

impl MemoKey for CallKey {
    type Ident = (Seq<TypeV>, Seq<Id>);

    open spec fn ident(&self) -> (Seq<TypeV>, Seq<Id>) {
        (types_view(self.tys@), self.args@)
    }

    fn same(&self, other: &Self) -> (r: bool) {
        same_types(&self.tys, &other.tys) && same_ids(&self.args, &other.args)
    }
}

pub fn same_ids(a: &Vec<Id>, b: &Vec<Id>) -> (r: bool)
    ensures
        r == (a@ == b@),
{
    if a.len() != b.len() {
        return false;
    }
    let mut i: usize = 0;
    while i < a.len()
        invariant
            i <= a@.len(),
            a@.len() == b@.len(),
            forall|k: int| 0 <= k < i ==> a@[k] == b@[k],
        decreases a.len() - i,
    {
        if a[i] != b[i] {
            return false;
        }
        i += 1;
    }
    proof {
        assert(a@ =~= b@);
    }
    true
}

pub fn copy_ids(ids: &Vec<Id>) -> (r: Vec<Id>)
    ensures
        r@ == ids@,
{
    let mut out: Vec<Id> = Vec::new();
    let mut i: usize = 0;
    while i < ids.len()
        invariant
            i <= ids@.len(),
            out@ == ids@.take(i as int),
        decreases ids.len() - i,
    {
        out.push(ids[i]);
        proof {
            assert(ids@.take(i + 1) =~= ids@.take(i as int).push(ids@[i as int]));
        }
        i += 1;
    }
    proof {
        assert(ids@.take(ids@.len() as int) =~= ids@);
    }
    out
}

/// What replaying a postcondition at a call asserts: its truth and its token, both
/// behind the call's own token.
pub open spec fn post_facts(post: Option<PostRecipe>, args: Seq<Id>, gate: Option<Tm>) -> Seq<
    (Tm, Tm),
> {
    match post {
        Some(p) => {
            let vals = inst_vals(p.steps@, t_classes(args));
            let truth = seq![(gated(gate, val_tm(vals, p.res)), t_bool(true))];
            inst_facts(p.steps@, t_classes(args), None) + truth + match p.token {
                Some(v) => seq![(gated(gate, val_tm(vals, v)), t_bool(true))],
                None => Seq::empty(),
            }
        },
        None => Seq::empty(),
    }
}

/// The definitional equation of a call. Behind a token it is stated as an equality
/// term, since classes cannot be merged under a condition.
pub open spec fn body_fact(class: Id, body: Tm, tok: Option<Id>) -> (Tm, Tm) {
    match tok {
        None => (Tm::Class(class), body),
        Some(c) => (t_ite(Tm::Class(c), t_eq(Tm::Class(class), body), t_bool(true)), t_bool(true)),
    }
}

/// What unfolding a definition at a call asserts.
pub open spec fn body_facts(
    def: FunctionDefinition,
    class: Id,
    args: Seq<Id>,
    tok: Option<Id>,
) -> Seq<(Tm, Tm)> {
    let seed = t_classes(args);
    let vals = inst_vals(def.steps@, seed);
    inst_facts(def.steps@, seed, class_gate(tok)) + (match def.res {
        Some(v) => seq![body_fact(class, val_tm(vals, v), tok)],
        None => Seq::empty(),
    }) + token_facts(vals, def.token_steps@, class_gate(tok))
}

/// The frame of a recursive function: the call equals the limited one.
pub open spec fn frame_facts(
    limited: Option<FuncId>,
    class: Id,
    tys: Seq<TypeV>,
    args: Seq<Id>,
) -> Seq<(Tm, Tm)> {
    match limited {
        Some(f) => seq![(Tm::Class(class), Tm::App(OpV::FuncApp(f, tys), t_classes(args)))],
        None => Seq::empty(),
    }
}

/// What was done at a call: the token found, and whether the body was unfolded and
/// the postcondition replayed.
#[derive(Clone, Copy)]
pub struct Unfolded {
    pub token: Option<Id>,
    pub unioned: bool,
    pub replayed: bool,
}

/// What one call asserts.
pub open spec fn call_facts(
    def: FunctionDefinition,
    limited_post: bool,
    class: Id,
    tys: Seq<TypeV>,
    args: Seq<Id>,
    u: Unfolded,
) -> Seq<(Tm, Tm)> {
    if !u.unioned && !u.replayed {
        Seq::empty()
    } else {
        (if u.unioned {
            body_facts(def, class, args, u.token)
        } else {
            Seq::empty()
        }) + (if !limited_post {
            frame_facts(def.limited, class, tys, args)
        } else {
            Seq::empty()
        }) + (if u.replayed {
            post_facts(def.post, args, class_gate(u.token))
        } else {
            Seq::empty()
        })
    }
}

/// Replays a postcondition at a call.
pub fn replay_post(
    g: &mut Graph,
    def: &FunctionDefinition,
    args: &Vec<Id>,
    token: Option<Id>,
    changed: &mut Vec<Id>,
)
    requires
        old(g).wf(),
        def.wf(),
        old(g).has_all(args@),
        args@.len() == def.n_params,
        token matches Some(c) ==> old(g).has(c),
    ensures
        asserted(*old(g), *final(g), post_facts(def.post, args@, class_gate(token))),
        old(changed)@.is_prefix_of(final(changed)@),
        old(changed)@.len() == final(changed)@.len() ==> keeps_classes(*old(g), *final(g)),
        old(changed)@.len() != final(changed)@.len() ==> merges(*old(g), *final(g)),
{
    let ghost g0 = *g;
    let ghost c0 = changed@.len();
    let ghost gate = class_gate(token);
    match &def.post {
        Some(p) => {
            let ghost seed = t_classes(args@);
            let ghost ts = inst_vals(p.steps@, seed);
            let ghost first = inst_facts(p.steps@, seed, None);
            let vals = build_instance_vals_guarded(g, &p.steps, args, changed, None);
            let ghost g1 = *g;
            proof {
                lemma_slots(p.steps@, seed);
                if token is Some {
                    lemma_denotes_self(g1, token.unwrap());
                }
            }
            post_part(g, &vals, &p.res, token, changed, Ghost(ts));
            let ghost g2 = *g;
            let ghost truth = seq![(gated(gate, val_tm(ts, p.res)), t_bool(true))];
            proof {
                lemma_asserted_trans(g0, g1, g2, first, truth);
                lemma_grows_denote_all(g1, g2, vals@, ts);
                if c0 == changed@.len() {
                    lemma_keeps_trans(g0, g1, g2);
                }
            }
            match &p.token {
                Some(v) => {
                    post_part(g, &vals, v, token, changed, Ghost(ts));
                    proof {
                        let last = seq![(gated(gate, val_tm(ts, *v)), t_bool(true))];
                        lemma_asserted_trans(g0, g2, *g, first + truth, last);
                        if c0 == changed@.len() {
                            lemma_keeps_trans(g0, g2, *g);
                        }
                    }
                },
                None => {
                    proof {
                        assert(first + truth + Seq::<(Tm, Tm)>::empty() =~= first + truth);
                    }
                },
            }
        },
        None => {
            proof {
                lemma_grows_refl(g0);
                lemma_extended_asserted(g0, g0);
            }
        },
    }
}

fn post_part(
    g: &mut Graph,
    vals: &Vec<Id>,
    v: &Val,
    token: Option<Id>,
    changed: &mut Vec<Id>,
    Ghost(ts): Ghost<Seq<Tm>>,
)
    requires
        old(g).wf(),
        denote_all(*old(g), vals@, ts),
        val_ok(*v, vals@.len()),
        token matches Some(c) ==> old(g).has(c),
    ensures
        asserted(
            *old(g),
            *final(g),
            seq![(gated(class_gate(token), val_tm(ts, *v)), t_bool(true))],
        ),
        old(changed)@.is_prefix_of(final(changed)@),
        old(changed)@.len() == final(changed)@.len() ==> keeps_classes(*old(g), *final(g)),
        old(changed)@.len() != final(changed)@.len() ==> merges(*old(g), *final(g)),
{
    broadcast use group_grows;

    let ghost g0 = *g;
    let ghost gate = class_gate(token);
    let id = resolve_val(g, vals, v, Ghost(ts));
    let ghost g1 = *g;
    proof {
        if token is Some {
            lemma_denotes_self(g1, token.unwrap());
        }
    }
    let rel = gate_of(g, token, id, Ghost(gate), Ghost(val_tm(ts, *v)));
    let ghost g2 = *g;
    let ghost t = gated(gate, val_tm(ts, *v));
    release(g, rel, Ghost(t), changed);
    proof {
        let fact = seq![(t, t_bool(true))];
        lemma_keeps_trans(g0, g1, g2);
        lemma_extended_asserted(g0, g2);
        lemma_asserted_trans(g0, g2, *g, Seq::empty(), fact);
        assert(Seq::<(Tm, Tm)>::empty() + fact =~= fact);
        if old(changed)@.len() == changed@.len() {
            lemma_keeps_trans(g0, g2, *g);
        }
    }
}

/// Unfolds a definition at a call.
pub fn unfold_body(
    g: &mut Graph,
    def: &FunctionDefinition,
    class: Id,
    args: &Vec<Id>,
    token: Option<Id>,
    changed: &mut Vec<Id>,
)
    requires
        old(g).wf(),
        def.wf(),
        old(g).has(class),
        old(g).has_all(args@),
        args@.len() == def.n_params,
        token matches Some(c) ==> old(g).has(c),
    ensures
        asserted(*old(g), *final(g), body_facts(*def, class, args@, token)),
        old(changed)@.is_prefix_of(final(changed)@),
        old(changed)@.len() == final(changed)@.len() ==> keeps_classes(*old(g), *final(g)),
        old(changed)@.len() != final(changed)@.len() ==> merges(*old(g), *final(g)),
{
    let ghost g0 = *g;
    let ghost c0 = changed@.len();
    let ghost gate = class_gate(token);
    let ghost seed = t_classes(args@);
    let ghost ts = inst_vals(def.steps@, seed);
    let ghost first = inst_facts(def.steps@, seed, gate);
    let vals = build_instance_vals_guarded(g, &def.steps, args, changed, token);
    let ghost g1 = *g;
    let ghost mut second: Seq<(Tm, Tm)> = Seq::empty();
    proof {
        lemma_slots(def.steps@, seed);
    }
    if let Some(res) = &def.res {
        equate_body(g, class, &vals, res, token, changed, Ghost(ts));
        proof {
            second = seq![body_fact(class, val_tm(ts, *res), token)];
            if c0 == changed@.len() {
                lemma_keeps_trans(g0, g1, *g);
            }
        }
    } else {
        proof {
            lemma_grows_refl(g1);
            lemma_extended_asserted(g1, g1);
        }
    }
    let ghost g2 = *g;
    proof {
        lemma_asserted_trans(g0, g1, g2, first, second);
        lemma_grows_denote_all(g1, g2, vals@, ts);
        if token is Some {
            lemma_denotes_self(g2, token.unwrap());
        }
    }
    release_tokens(g, &def.token_steps, &vals, changed, token, Ghost(ts), Ghost(gate));
    proof {
        lemma_asserted_trans(
            g0,
            g2,
            *g,
            first + second,
            token_facts(ts, def.token_steps@, gate),
        );
        if c0 == changed@.len() {
            lemma_keeps_trans(g0, g2, *g);
        }
    }
}

fn equate_body(
    g: &mut Graph,
    class: Id,
    vals: &Vec<Id>,
    res: &Val,
    token: Option<Id>,
    changed: &mut Vec<Id>,
    Ghost(ts): Ghost<Seq<Tm>>,
)
    requires
        old(g).wf(),
        old(g).has(class),
        denote_all(*old(g), vals@, ts),
        val_ok(*res, vals@.len()),
        token matches Some(c) ==> old(g).has(c),
    ensures
        asserted(*old(g), *final(g), seq![body_fact(class, val_tm(ts, *res), token)]),
        old(changed)@.is_prefix_of(final(changed)@),
        old(changed)@.len() == final(changed)@.len() ==> keeps_classes(*old(g), *final(g)),
        old(changed)@.len() != final(changed)@.len() ==> merges(*old(g), *final(g)),
{
    broadcast use {group_grows, lemma_denotes_self};

    let ghost g0 = *g;
    let ghost t = val_tm(ts, *res);
    let ghost fact = seq![body_fact(class, t, token)];
    let result = resolve_val(g, vals, res, Ghost(ts));
    let ghost g1 = *g;
    let ghost mut g2 = *g;
    match token {
        None => {
            equate(g, class, result, Ghost(Tm::Class(class)), Ghost(t), changed);
        },
        Some(c) => {
            let eq = g.binary_of(BinOp::Eq, class, result, Ghost(Tm::Class(class)), Ghost(t));
            let ghost ge = *g;
            let ghost te = t_eq(Tm::Class(class), t);
            let rel = gate_of(g, token, eq, Ghost(class_gate(token)), Ghost(te));
            proof {
                g2 = *g;
                lemma_keeps_trans(g0, g1, ge);
                lemma_keeps_trans(g0, ge, g2);
            }
            release(g, rel, Ghost(gated(class_gate(token), te)), changed);
        },
    }
    proof {
        lemma_extended_asserted(g0, g2);
        lemma_asserted_trans(g0, g2, *g, Seq::empty(), fact);
        assert(Seq::<(Tm, Tm)>::empty() + fact =~= fact);
        if old(changed)@.len() == changed@.len() {
            lemma_keeps_trans(g0, g2, *g);
        }
    }
}

/// The arguments by their canonical ids.
pub open spec fn canon_all(g: Graph, ids: Seq<Id>) -> Seq<Id> {
    Seq::new(ids.len(), |j: int| g.canon(ids[j]))
}

/// The calls of a function among terms, each once.
pub open spec fn calls_of(g: Graph, func: FuncId, ts: Seq<Node>) -> Seq<(Seq<TypeV>, Seq<Id>)>
    decreases ts.len(),
{
    if ts.len() == 0 {
        Seq::empty()
    } else {
        let before = calls_of(g, func, ts.drop_last());
        match ts.last().op {
            OpV::FuncApp(f, tys) if f == func => {
                let key = (tys, canon_all(g, ts.last().args));
                if before.contains(key) {
                    before
                } else {
                    before.push(key)
                }
            },
            _ => before,
        }
    }
}

/// The presence token of a call.
pub open spec fn token_node(token: FuncId, args: Seq<Id>) -> Node {
    Node { op: OpV::FuncApp(token, Seq::empty()), args }
}

/// The token that was found at a call, if the function has one and the graph lists
/// it.
pub open spec fn token_found(g: Graph, pre: Option<FuncId>, args: Seq<Id>, r: Option<Id>) -> bool {
    match pre {
        Some(f) => {
            &&& r is Some == g.lists(g.canon_term(token_node(f, args)))
            &&& r matches Some(c) ==> g.has(c) && g.terms(c).contains(
                g.canon_term(token_node(f, args)),
            )
        },
        None => r is None,
    }
}

/// What one call does to the graph.
pub open spec fn called(
    p: FunctionUnfoldApplier,
    g: Graph,
    h: Graph,
    class: Id,
    key: (Seq<TypeV>, Seq<Id>),
    u: Unfolded,
) -> bool {
    &&& token_found(g, p.pre_token, key.1, u.token)
    &&& asserted(g, h, call_facts(p.def, p.limited_post, class, key.0, key.1, u))
}

/// The rule that unfolds a function where it is called. A rule for the limited
/// symbol of a recursive function only replays the postcondition.
pub struct FunctionUnfoldApplier {
    pub func: FuncId,
    pub def: FunctionDefinition,
    pub limited_post: bool,
    pub memo: Memo<CallKey>,
    pub union_memo: Memo<CallKey>,
    pub pre_token: Option<FuncId>,
}

/// Whether the body is due at a call.
pub open spec fn union_due(
    p: FunctionUnfoldApplier,
    s: Scopes,
    key: (Seq<TypeV>, Seq<Id>),
    token: Option<Id>,
) -> bool {
    !p.limited_post && (p.pre_token is None || token is Some) && !p.union_memo.seen(s, key)
}

/// Whether the postcondition is due at a call.
pub open spec fn post_due(
    p: FunctionUnfoldApplier,
    s: Scopes,
    key: (Seq<TypeV>, Seq<Id>),
) -> bool {
    p.def.post is Some && !p.memo.seen(s, key)
}

impl FunctionUnfoldApplier {
    fn find_token(&self, g: &Graph, args: &Vec<Id>) -> (r: Option<Id>)
        requires
            g.wf(),
            g.has_all(args@),
        ensures
            token_found(*g, self.pre_token, args@, r),
    {
        match self.pre_token {
            Some(f) => {
                let no_types: Vec<Type> = Vec::new();
                let n = Symbolic::FuncApp(f, no_types, copy_ids(args));
                proof {
                    assert(types_view(no_types@) =~= Seq::<TypeV>::empty());
                    assert(n@ == token_node(f, args@));
                }
                g.lookup(&n)
            },
            None => None,
        }
    }

    /// Unfolds the function at one call.
    pub fn unfold_call(
        &mut self,
        s: &Scopes,
        g: &mut Graph,
        class: Id,
        call: &CallKey,
        changed: &mut Vec<Id>,
    ) -> (u: Unfolded)
        requires
            old(g).wf(),
            old(self).def.wf(),
            old(g).has(class),
            old(g).has_all(call.args@),
            call.args@.len() == old(self).def.n_params,
        ensures
            final(self).func == old(self).func,
            final(self).def == old(self).def,
            final(self).limited_post == old(self).limited_post,
            final(self).pre_token == old(self).pre_token,
            called(*old(self), *old(g), *final(g), class, call.ident(), u),
            u.unioned == union_due(*old(self), *s, call.ident(), u.token),
            u.replayed == post_due(*old(self), *s, call.ident()),
            forall|v: (Seq<TypeV>, Seq<Id>)|
                #![trigger final(self).memo.seen(*s, v)]
                final(self).memo.seen(*s, v) == (old(self).memo.seen(*s, v) || (u.replayed && v
                    == call.ident())),
            forall|v: (Seq<TypeV>, Seq<Id>)|
                #![trigger final(self).union_memo.seen(*s, v)]
                final(self).union_memo.seen(*s, v) == (old(self).union_memo.seen(*s, v) || (
                u.unioned && v == call.ident())),
            old(changed)@.is_prefix_of(final(changed)@),
            old(changed)@.len() == final(changed)@.len() ==> keeps_classes(*old(g), *final(g)),
            old(changed)@.len() != final(changed)@.len() ==> merges(*old(g), *final(g)),
    {
        let ghost g0 = *g;
        let ghost c0 = changed@.len();
        let token = self.find_token(g, &call.args);
        let has_token = self.pre_token.is_none() || token.is_some();
        let do_union = !self.limited_post && has_token;
        let has_post = self.def.post.is_some();
        proof {
            lemma_grows_refl(g0);
            lemma_extended_asserted(g0, g0);
        }
        let replayed = has_post && self.memo.insert(
            s,
            CallKey { tys: clone_types(&call.tys), args: copy_ids(&call.args) },
        );
        let unioned = do_union && self.union_memo.insert(
            s,
            CallKey { tys: clone_types(&call.tys), args: copy_ids(&call.args) },
        );
        let u = Unfolded { token, unioned, replayed };
        if !unioned && !replayed {
            return u;
        }
        self.release_call(g, class, call, u, changed);
        u
    }

    fn release_call(
        &self,
        g: &mut Graph,
        class: Id,
        call: &CallKey,
        u: Unfolded,
        changed: &mut Vec<Id>,
    )
        requires
            old(g).wf(),
            self.def.wf(),
            old(g).has(class),
            old(g).has_all(call.args@),
            call.args@.len() == self.def.n_params,
            u.unioned || u.replayed,
            u.token matches Some(c) ==> old(g).has(c),
        ensures
            asserted(
                *old(g),
                *final(g),
                call_facts(
                    self.def,
                    self.limited_post,
                    class,
                    types_view(call.tys@),
                    call.args@,
                    u,
                ),
            ),
            old(changed)@.is_prefix_of(final(changed)@),
            old(changed)@.len() == final(changed)@.len() ==> keeps_classes(*old(g), *final(g)),
            old(changed)@.len() != final(changed)@.len() ==> merges(*old(g), *final(g)),
    {
        let ghost g0 = *g;
        let ghost c0 = changed@.len();
        let ghost none = Seq::<(Tm, Tm)>::empty();
        let ghost mut first = none;
        let ghost mut second = none;
        let ghost mut third = none;
        proof {
            lemma_grows_refl(g0);
            lemma_extended_asserted(g0, g0);
        }
        if u.unioned {
            unfold_body(g, &self.def, class, &call.args, u.token, changed);
            proof {
                first = body_facts(self.def, class, call.args@, u.token);
            }
        }
        let ghost g1 = *g;
        proof {
            lemma_grows_refl(g1);
            lemma_extended_asserted(g1, g1);
        }
        if !self.limited_post {
            if let Some(lim) = self.def.limited {
                let n = Symbolic::FuncApp(lim, clone_types(&call.tys), copy_ids(&call.args));
                let twin = g.add(&n);
                let ghost gt = *g;
                let ghost t = Tm::App(
                    OpV::FuncApp(lim, types_view(call.tys@)),
                    t_classes(call.args@),
                );
                proof {
                    lemma_denotes_self(gt, class);
                    lemma_extended_asserted(g1, gt);
                    second = seq![(Tm::Class(class), t)];
                }
                equate(g, class, twin, Ghost(Tm::Class(class)), Ghost(t), changed);
                proof {
                    lemma_asserted_trans(g1, gt, *g, none, second);
                    assert(none + second =~= second);
                    if c0 == changed@.len() {
                        lemma_keeps_trans(g1, gt, *g);
                    }
                }
            }
        }
        let ghost g2 = *g;
        proof {
            lemma_asserted_trans(g0, g1, g2, first, second);
            lemma_grows_refl(g2);
            lemma_extended_asserted(g2, g2);
            if c0 == changed@.len() {
                lemma_keeps_trans(g0, g1, g2);
            }
        }
        if u.replayed {
            replay_post(g, &self.def, &call.args, u.token, changed);
            proof {
                third = post_facts(self.def.post, call.args@, class_gate(u.token));
                if c0 == changed@.len() {
                    lemma_keeps_trans(g0, g2, *g);
                }
            }
        }
        proof {
            lemma_asserted_trans(g0, g2, *g, first + second, third);
            let all = call_facts(
                self.def,
                self.limited_post,
                class,
                types_view(call.tys@),
                call.args@,
                u,
            );
            assert(first + second + third =~= all);
        }
    }
}

/// Calls as keys.
pub open spec fn keys_of(calls: Seq<CallKey>) -> Seq<(Seq<TypeV>, Seq<Id>)> {
    Seq::new(calls.len(), |i: int| calls[i].ident())
}

fn has_call(calls: &Vec<CallKey>, key: &CallKey) -> (r: bool)
    ensures
        r == keys_of(calls@).contains(key.ident()),
{
    let mut i: usize = 0;
    while i < calls.len()
        invariant
            i <= calls@.len(),
            forall|k: int| 0 <= k < i ==> (#[trigger] calls@[k]).ident() != key.ident(),
        decreases calls.len() - i,
    {
        if calls[i].same(key) {
            assert(keys_of(calls@)[i as int] == key.ident());
            return true;
        }
        i += 1;
    }
    proof {
        let ks = keys_of(calls@);
        if ks.contains(key.ident()) {
            let k = choose|k: int| 0 <= k < ks.len() && ks[k] == key.ident();
            assert(calls@[k].ident() == key.ident());
        }
    }
    false
}

pub fn canon_ids(g: &Graph, ids: &Vec<Id>) -> (r: Vec<Id>)
    requires
        g.wf(),
        g.has_all(ids@),
    ensures
        r@ == canon_all(*g, ids@),
        g.has_all(r@),
{
    let mut out: Vec<Id> = Vec::new();
    let mut i: usize = 0;
    while i < ids.len()
        invariant
            g.wf(),
            g.has_all(ids@),
            i <= ids@.len(),
            out@ == canon_all(*g, ids@).take(i as int),
            g.has_all(out@),
        decreases ids.len() - i,
    {
        proof {
            assert(g.has(ids@[i as int]));
        }
        let c = g.find(ids[i]);
        let ghost had = out@;
        out.push(c);
        proof {
            assert(out@ =~= canon_all(*g, ids@).take(i + 1));
            assert forall|j: int| 0 <= j < out@.len() implies g.has(#[trigger] out@[j]) by {
                if j < i {
                    assert(out@[j] == had[j]);
                }
            }
        }
        i += 1;
    }
    proof {
        assert(canon_all(*g, ids@).take(ids@.len() as int) =~= canon_all(*g, ids@));
    }
    out
}

impl FunctionUnfoldApplier {
    /// The calls of the function in a class.
    pub fn calls(&self, g: &Graph, class: Id) -> (out: Vec<CallKey>)
        requires
            g.wf(),
            g.has(class),
        ensures
            keys_of(out@) == calls_of(*g, self.func, g.terms(class)),
            forall|i: int| 0 <= i < out@.len() ==> g.has_all((#[trigger] out@[i]).args@),
    {
        let ts = g.terms_of(class);
        let ghost all = g.terms(class);
        let mut out: Vec<CallKey> = Vec::new();
        let mut i: usize = 0;
        proof {
            assert(all.take(0) =~= Seq::<Node>::empty());
            assert(keys_of(out@) =~= Seq::empty());
        }
        while i < ts.len()
            invariant
                g.wf(),
                i <= ts@.len(),
                ts@.len() == all.len(),
                forall|k: int| 0 <= k < ts@.len() ==> (#[trigger] ts@[k])@ == all[k],
                forall|k: int| 0 <= k < ts@.len() ==> g.has_all((#[trigger] ts@[k])@.args),
                keys_of(out@) == calls_of(*g, self.func, all.take(i as int)),
                forall|k: int| 0 <= k < out@.len() ==> g.has_all((#[trigger] out@[k]).args@),
            decreases ts.len() - i,
        {
            let ghost before = out@;
            proof {
                assert(all.take(i + 1).drop_last() =~= all.take(i as int));
                assert(all.take(i + 1).last() == all[i as int]);
                assert(g.has_all(ts@[i as int]@.args));
            }
            if let Symbolic::FuncApp(f, tys, args) = &ts[i] {
                if *f == self.func {
                    let key = CallKey { tys: clone_types(tys), args: canon_ids(g, args) };
                    if !has_call(&out, &key) {
                        let ghost k = key.ident();
                        out.push(key);
                        proof {
                            assert(keys_of(out@) =~= keys_of(before).push(k));
                        }
                    }
                }
            }
            i += 1;
        }
        proof {
            assert(all.take(all.len() as int) =~= all);
        }
        out
    }
}

/// Graphs that the calls lead through, and what was done at each.
pub open spec fn call_chain(
    p: FunctionUnfoldApplier,
    s: Scopes,
    class: Id,
    keys: Seq<(Seq<TypeV>, Seq<Id>)>,
    gs: Seq<Graph>,
    us: Seq<Unfolded>,
) -> bool {
    &&& gs.len() == keys.len() + 1
    &&& us.len() == keys.len()
    &&& forall|i: int|
        0 <= i < keys.len() ==> {
            &&& called(p, gs[i], gs[i + 1], class, keys[i], #[trigger] us[i])
            &&& us[i].unioned == union_due(p, s, keys[i], us[i].token)
            &&& us[i].replayed == post_due(p, s, keys[i])
        }
}

/// What the rule does to a graph.
pub open spec fn unfolds(
    p: FunctionUnfoldApplier,
    s: Scopes,
    g: Graph,
    h: Graph,
    class: Id,
) -> bool {
    exists|gs: Seq<Graph>, us: Seq<Unfolded>| #[trigger]
        call_chain(p, s, class, calls_of(g, p.func, g.terms(class)), gs, us) && gs[0] == g
            && gs.last() == h
}

/// Some call was one where a flag is set.
pub open spec fn flagged(
    keys: Seq<(Seq<TypeV>, Seq<Id>)>,
    flags: Seq<bool>,
    v: (Seq<TypeV>, Seq<Id>),
) -> bool {
    exists|i: int| 0 <= i < keys.len() && (#[trigger] keys[i]) == v && flags[i]
}

/// Where the body was unfolded.
pub open spec fn unioned_flags(us: Seq<Unfolded>) -> Seq<bool> {
    Seq::new(us.len(), |i: int| us[i].unioned)
}

/// Where the postcondition was asserted.
pub open spec fn replayed_flags(us: Seq<Unfolded>) -> Seq<bool> {
    Seq::new(us.len(), |i: int| us[i].replayed)
}

/// What is remembered after calls: what was, the calls whose postcondition was asserted,
/// and those whose body was unfolded. A call that waits for its token is not among them.
pub open spec fn remembers(
    p: FunctionUnfoldApplier,
    q: FunctionUnfoldApplier,
    s: Scopes,
    keys: Seq<(Seq<TypeV>, Seq<Id>)>,
    us: Seq<Unfolded>,
) -> bool {
    &&& forall|v: (Seq<TypeV>, Seq<Id>)| #[trigger]
        q.memo.seen(s, v) == (p.memo.seen(s, v) || flagged(keys, replayed_flags(us), v))
    &&& forall|v: (Seq<TypeV>, Seq<Id>)| #[trigger]
        q.union_memo.seen(s, v) == (p.union_memo.seen(s, v) || flagged(
            keys,
            unioned_flags(us),
            v,
        ))
}

/// What the rule does to a graph, and what it remembers.
pub open spec fn unfolds_once(
    p: FunctionUnfoldApplier,
    q: FunctionUnfoldApplier,
    s: Scopes,
    g: Graph,
    h: Graph,
    class: Id,
) -> bool {
    exists|gs: Seq<Graph>, us: Seq<Unfolded>| #[trigger]
        call_chain(p, s, class, calls_of(g, p.func, g.terms(class)), gs, us) && gs[0] == g
            && gs.last() == h && remembers(p, q, s, calls_of(g, p.func, g.terms(class)), us)
}

proof fn lemma_flag_pushed(
    keys: Seq<(Seq<TypeV>, Seq<Id>)>,
    n: int,
    flags: Seq<bool>,
    b: bool,
    v: (Seq<TypeV>, Seq<Id>),
)
    requires
        0 <= n < keys.len(),
        flags.len() == n,
    ensures
        flagged(keys.take(n + 1), flags.push(b), v) == (flagged(keys.take(n), flags, v) || (b && v
            == keys[n])),
{
    let now = keys.take(n + 1);
    let had = keys.take(n);
    if flagged(had, flags, v) {
        let i = choose|i: int| 0 <= i < had.len() && (#[trigger] had[i]) == v && flags[i];
        assert(now[i] == v && flags.push(b)[i]);
    }
    if b && v == keys[n] {
        assert(now[n] == v && flags.push(b)[n]);
    }
    if flagged(now, flags.push(b), v) {
        let i = choose|i: int| 0 <= i < now.len() && (#[trigger] now[i]) == v && flags.push(b)[i];
        if i < n {
            assert(had[i] == v && flags[i]);
        }
    }
}

/// A call that had to wait for its token is unfolded later: it is not remembered, so it
/// is due as soon as the token is there.
pub proof fn law_waiting_call(
    p: FunctionUnfoldApplier,
    q: FunctionUnfoldApplier,
    s: Scopes,
    g: Graph,
    gs: Seq<Graph>,
    us: Seq<Unfolded>,
    class: Id,
    i: int,
    token: Id,
)
    requires
        call_chain(p, s, class, calls_of(g, p.func, g.terms(class)), gs, us),
        remembers(p, q, s, calls_of(g, p.func, g.terms(class)), us),
        0 <= i < us.len(),
        !us[i].unioned,
        !p.union_memo.seen(s, calls_of(g, p.func, g.terms(class))[i]),
        !p.limited_post,
        q.limited_post == p.limited_post,
    ensures
        p.pre_token is Some && us[i].token is None,
        union_due(q, s, calls_of(g, p.func, g.terms(class))[i], Some(token)),
{
    let keys = calls_of(g, p.func, g.terms(class));
    lemma_calls_distinct(g, p.func, g.terms(class));
    assert(us[i].unioned == union_due(p, s, keys[i], us[i].token));
    if flagged(keys, unioned_flags(us), keys[i]) {
        let k = choose|k: int|
            0 <= k < keys.len() && (#[trigger] keys[k]) == keys[i] && unioned_flags(us)[k];
        assert(k == i);
    }
}

proof fn lemma_calls_distinct(g: Graph, func: FuncId, ts: Seq<Node>)
    ensures
        calls_of(g, func, ts).no_duplicates(),
    decreases ts.len(),
{
    if ts.len() > 0 {
        lemma_calls_distinct(g, func, ts.drop_last());
    }
}

proof fn lemma_calls_arity(g: Graph, func: FuncId, ts: Seq<Node>, n: nat)
    requires
        forall|k: int|
            0 <= k < ts.len() && (#[trigger] ts[k]).op is FuncApp && ts[k].op->FuncApp_0 == func
                ==> ts[k].args.len() == n,
    ensures
        forall|i: int|
            0 <= i < calls_of(g, func, ts).len() ==> (#[trigger] calls_of(g, func, ts)[i]).1.len()
                == n,
    decreases ts.len(),
{
    if ts.len() > 0 {
        lemma_calls_arity(g, func, ts.drop_last(), n);
        let before = calls_of(g, func, ts.drop_last());
        assert(ts[ts.len() - 1] == ts.last());
        assert forall|i: int| 0 <= i < calls_of(g, func, ts).len() implies (
        #[trigger] calls_of(g, func, ts)[i]).1.len() == n by {
            if i < before.len() {
                assert(calls_of(g, func, ts)[i] == before[i]);
            }
        }
    }
}

impl FunctionUnfoldApplier {
    /// Unfolds the function at every call in a class, and gives the classes that
    /// changed.
    pub fn apply_one(&mut self, s: &Scopes, g: &mut Graph, class: Id) -> (changed: Vec<Id>)
        requires
            old(g).wf(),
            old(g).has(class),
            old(self).def.wf(),
            forall|k: int|
                0 <= k < old(g).terms(class).len() && (#[trigger] old(g).terms(class)[k]).op is FuncApp
                    && old(g).terms(class)[k].op->FuncApp_0 == old(self).func ==> old(g).terms(
                    class,
                )[k].args.len() == old(self).def.n_params,
        ensures
            final(self).func == old(self).func,
            final(self).def == old(self).def,
            final(self).limited_post == old(self).limited_post,
            final(self).pre_token == old(self).pre_token,
            final(g).wf(),
            old(g).grows_to(*final(g)),
            coarser(*old(g), *final(g)),
            unfolds(*old(self), *s, *old(g), *final(g), class),
            unfolds_once(*old(self), *final(self), *s, *old(g), *final(g), class),
            changed@.len() == 0 ==> keeps_classes(*old(g), *final(g)),
            changed@.len() > 0 ==> merges(*old(g), *final(g)),
    {
        let ghost g0 = *g;
        let ghost p0 = *self;
        let calls = self.calls(g, class);
        let ghost keys = calls_of(g0, self.func, g0.terms(class));
        proof {
            lemma_calls_distinct(g0, self.func, g0.terms(class));
            lemma_calls_arity(g0, self.func, g0.terms(class), self.def.n_params as nat);
            lemma_grows_refl(g0);
            lemma_extended_asserted(g0, g0);
        }
        let mut changed: Vec<Id> = Vec::new();
        let ghost mut gs: Seq<Graph> = seq![g0];
        let ghost mut us: Seq<Unfolded> = Seq::empty();
        let mut i: usize = 0;
        while i < calls.len()
            invariant
                i <= calls@.len(),
                keys_of(calls@) == keys,
                keys.no_duplicates(),
                forall|k: int| 0 <= k < keys.len() ==> (#[trigger] keys[k]).1.len() == p0.def.n_params,
                forall|k: int| 0 <= k < calls@.len() ==> g0.has_all((#[trigger] calls@[k]).args@),
                g0.wf(),
                g.wf(),
                g0.has(class),
                p0.def.wf(),
                self.func == p0.func,
                self.def == p0.def,
                self.limited_post == p0.limited_post,
                self.pre_token == p0.pre_token,
                g0.grows_to(*g),
                coarser(g0, *g),
                changed@.len() == 0 ==> keeps_classes(g0, *g),
                changed@.len() > 0 ==> merges(g0, *g),
                gs.len() == i + 1,
                gs[0] == g0,
                gs.last() == *g,
                us.len() == i,
                call_chain(p0, *s, class, keys.take(i as int), gs, us),
                remembers(p0, *self, *s, keys.take(i as int), us),
                forall|k: int|
                    #![trigger keys[k]]
                    i <= k < keys.len() ==> self.memo.seen(*s, keys[k]) == p0.memo.seen(*s, keys[k])
                        && self.union_memo.seen(*s, keys[k]) == p0.union_memo.seen(*s, keys[k]),
            decreases calls.len() - i,
        {
            let ghost before = *g;
            let ghost c0 = changed@.len();
            let ghost key = keys[i as int];
            proof {
                assert(keys[i as int] == calls@[i as int].ident());
                assert(g0.has_all(calls@[i as int].args@));
                assert forall|j: int| 0 <= j < calls@[i as int].args@.len() implies g.has(
                    #[trigger] calls@[i as int].args@[j],
                ) by {
                    assert(g0.has(calls@[i as int].args@[j]));
                }
            }
            let ghost was = *self;
            let u = self.unfold_call(s, g, class, &calls[i], &mut changed);
            proof {
                lemma_grows_trans(g0, before, *g);
                crate::rewrite::pins::lemma_coarser_trans(g0, before, *g);
                if changed@.len() == 0 {
                    lemma_keeps_trans(g0, before, *g);
                }
                let old_gs = gs;
                let old_us = us;
                gs = gs.push(*g);
                us = us.push(u);
                assert(unioned_flags(us) =~= unioned_flags(old_us).push(u.unioned));
                assert(replayed_flags(us) =~= replayed_flags(old_us).push(u.replayed));
                let now = *self;
                assert forall|v: (Seq<TypeV>, Seq<Id>)| #[trigger]
                    now.memo.seen(*s, v) == (p0.memo.seen(*s, v) || flagged(
                        keys.take(i + 1),
                        replayed_flags(us),
                        v,
                    )) by {
                    lemma_flag_pushed(keys, i as int, replayed_flags(old_us), u.replayed, v);
                    assert(was.memo.seen(*s, v) == (p0.memo.seen(*s, v) || flagged(
                        keys.take(i as int),
                        replayed_flags(old_us),
                        v,
                    )));
                }
                assert forall|v: (Seq<TypeV>, Seq<Id>)| #[trigger]
                    now.union_memo.seen(*s, v) == (p0.union_memo.seen(*s, v) || flagged(
                        keys.take(i + 1),
                        unioned_flags(us),
                        v,
                    )) by {
                    lemma_flag_pushed(keys, i as int, unioned_flags(old_us), u.unioned, v);
                    assert(was.union_memo.seen(*s, v) == (p0.union_memo.seen(*s, v) || flagged(
                        keys.take(i as int),
                        unioned_flags(old_us),
                        v,
                    )));
                }
                assert forall|k: int| 0 <= k < i + 1 implies {
                    &&& called(
                        p0,
                        gs[k],
                        gs[k + 1],
                        class,
                        keys.take(i + 1)[k],
                        #[trigger] us[k],
                    )
                    &&& us[k].unioned == union_due(p0, *s, keys.take(i + 1)[k], us[k].token)
                    &&& us[k].replayed == post_due(p0, *s, keys.take(i + 1)[k])
                } by {
                    if k < i {
                        assert(us[k] == old_us[k]);
                        assert(gs[k] == old_gs[k] && gs[k + 1] == old_gs[k + 1]);
                        assert(keys.take(i + 1)[k] == keys.take(i as int)[k]);
                    }
                }
                assert forall|k: int|
                    #![trigger keys[k]]
                    i + 1 <= k < keys.len() implies self.memo.seen(*s, keys[k]) == p0.memo.seen(
                    *s,
                    keys[k],
                ) && self.union_memo.seen(*s, keys[k]) == p0.union_memo.seen(*s, keys[k]) by {
                    assert(keys[k] != key);
                }
            }
            i += 1;
        }
        proof {
            assert(keys.take(keys.len() as int) =~= keys);
            assert(call_chain(p0, *s, class, keys, gs, us));
        }
        changed
    }
}

/// An interpretation satisfies a definition: what a call asserts holds whatever
/// values its arguments have, where the call has the function's value and its token
/// the token's.
pub open spec fn defines(p: FunctionUnfoldApplier, m: Model) -> bool {
    forall|val: spec_fn(Id) -> Value, class: Id, tys: Seq<TypeV>, args: Seq<Id>, u: Unfolded|
        #![trigger all_hold(
            Model { val, ..m },
            call_facts(p.def, p.limited_post, class, tys, args, u),
        )]
        {
            let v = Model { val, ..m };
            &&& v.at(class) == (m.func)(p.func, tys, v.all(args))
            &&& u.token matches Some(c) ==> p.pre_token is Some && v.at(c) == (m.func)(
                p.pre_token.unwrap(),
                Seq::empty(),
                v.all(args),
            )
            &&& u.unioned ==> p.pre_token is None || u.token is Some
        } ==> all_hold(
            Model { val, ..m },
            call_facts(p.def, p.limited_post, class, tys, args, u),
        )
}

/// Unfolding a call is sound where the interpretation satisfies the definition.
pub proof fn law_call_sound(
    p: FunctionUnfoldApplier,
    s: Scopes,
    g: Graph,
    h: Graph,
    class: Id,
    key: (Seq<TypeV>, Seq<Id>),
    u: Unfolded,
)
    requires
        g.wf(),
        g.has_all(key.1),
        called(p, g, h, class, key, u),
        u.unioned == union_due(p, s, key, u.token),
        forall|m: Model| #[trigger]
            g.models(m) ==> m.at(class) == (m.func)(p.func, key.0, m.all(key.1)),
    ensures
        follows(g, h, |m: Model| defines(p, m)),
{
    let b = |m: Model| defines(p, m);
    let facts = call_facts(p.def, p.limited_post, class, key.0, key.1, u);
    assert forall|m: Model| #[trigger] g.models(m) && b(m) implies all_hold(m, facts) by {
        if let Some(c) = u.token {
            let n = token_node(p.pre_token.unwrap(), key.1);
            let k = choose|k: int| 0 <= k < g.terms(c).len() && g.terms(c)[k] == g.canon_term(n);
            lemma_term_value(g, m, c, k);
            crate::graph::lemma_canon_term(g, m, n);
        }
        assert(Model { val: m.val, ..m } == m);
        assert(all_hold(Model { val: m.val, ..m }, facts));
    }
    lemma_follows_asserted(g, h, facts, b);
}

} // verus!
