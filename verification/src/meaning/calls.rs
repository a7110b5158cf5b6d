//! What calls mean: what unfolding a definition says of the values of its arguments.

use crate::lang::{FuncId, Id, OpV};
use crate::meaning::quantified::{
    lemma_operand_v, lemma_operands_v, lemma_seed, lemma_steps_upto, steps_run,
};
use crate::meaning::slots::on_path;
use crate::meaning::values::{hold_values, operand, operands_of};
use crate::model::{
    equation_holds, lemma_tm_bin, lemma_tm_ite, lemma_tm_lit, lemma_tms_classes, t_bool, t_classes,
    t_eq, tm_value, Model, Tm,
};
use crate::recipes::{steps_view, vals_view};
use crate::rewrite::function::{
    body_fact, body_facts, call_facts, defines, frame_facts, post_facts, FunctionDefinition,
    FunctionUnfoldApplier, PostRecipe, Unfolded,
};
use crate::rewrite::gather::{all_hold, lemma_all_hold_concat};
use crate::rewrite::guards::guard_tm;
use crate::rewrite::recipe::{
    class_gate, gated, guard_tms, guards_ok, inst_fact, inst_facts, inst_ok, inst_vals, insts_ok,
    lemma_slots, slots, steps_ok, token_facts, val_ok, val_tm, val_tms, vals_ok, AxiomInst,
    TokenStep,
};
use crate::vmir::{BinOp, Polarity, TypeV, Val, Value};
use vstd::prelude::*;

verus! {

/// Every guard is true or false.
pub open spec fn decided(y: Seq<Value>, guards: Seq<(Val, Polarity)>) -> bool {
    forall|k: int| 0 <= k < guards.len() ==> operand(y, (#[trigger] guards[k]).0) is Bool
}

/// What an instruction of a recipe tells, where it is let through: an assumption is true, and
/// a token is true where its guards hold.
pub open spec fn told(m: Model, y: Seq<Value>, inst: AxiomInst, open: bool) -> bool {
    match inst {
        AxiomInst::Assume(a) => operand(y, a) == Value::Bool(true),
        AxiomInst::Token { func, args, guards } => open && on_path(y, guards@) ==> (m.func)(
            func,
            Seq::empty(),
            operands_of(y, args@),
        ) == Value::Bool(true),
        _ => true,
    }
}

/// The guards of the tokens of a recipe are true or false.
pub open spec fn all_decided(y: Seq<Value>, insts: Seq<AxiomInst>) -> bool {
    forall|i: int|
        0 <= i < insts.len() ==> (#[trigger] insts[i] matches AxiomInst::Token { guards, .. }
            ==> decided(y, guards@))
}

/// A condition lets facts through: there is none, or it is true.
pub open spec fn gate_is(m: Model, gate: Option<Id>, open: bool) -> bool {
    match gate {
        Some(c) => m.at(c) == Value::Bool(open),
        None => open,
    }
}

proof fn lemma_parts(m: Model, a: Seq<(Tm, Tm)>, b: Seq<(Tm, Tm)>)
    ensures
        all_hold(m, a + b) <==> all_hold(m, a) && all_hold(m, b),
{
    if all_hold(m, a) && all_hold(m, b) {
        lemma_all_hold_concat(m, a, b);
    }
    if all_hold(m, a + b) {
        assert forall|i: int| 0 <= i < a.len() implies equation_holds(m, #[trigger] a[i]) by {
            assert((a + b)[i] == a[i]);
        }
        assert forall|i: int| 0 <= i < b.len() implies equation_holds(m, #[trigger] b[i]) by {
            assert((a + b)[a.len() + i] == b[i]);
        }
    }
}

/// A term behind guards is what it is where they hold, and true elsewhere.
proof fn lemma_guarded(
    m: Model,
    ts: Seq<Tm>,
    y: Seq<Value>,
    guards: Seq<(Val, Polarity)>,
    inner: Tm,
    v: Value,
)
    requires
        hold_values(m, ts, y.take(ts.len() as int)),
        ts.len() <= y.len(),
        guards_ok(guards, ts.len()),
        decided(y, guards),
        tm_value(m, inner) == Some(v),
    ensures
        tm_value(m, guard_tm(guard_tms(ts, guards), inner)) == Some(
            if on_path(y, guards) {
                v
            } else {
                Value::Bool(true)
            },
        ),
    decreases guards.len(),
{
    if guards.len() > 0 {
        let rest = guards.drop_first();
        assert(guard_tms(ts, guards).drop_first() =~= guard_tms(ts, rest));
        assert forall|k: int| 0 <= k < rest.len() implies operand(y, (#[trigger] rest[k]).0)
            is Bool && val_ok(rest[k].0, ts.len()) by {
            assert(rest[k] == guards[k + 1]);
            assert(val_ok(guards[k + 1].0, ts.len()));
        }
        lemma_guarded(m, ts, y, rest, inner, v);
        let g = guards[0];
        assert(val_ok(guards[0].0, ts.len()));
        lemma_operand_v(m, ts, y, g.0);
        lemma_tm_lit(m, Value::Bool(true));
        let t = guard_tm(guard_tms(ts, rest), inner);
        lemma_tm_ite(m, val_tm(ts, g.0), t, t_bool(true));
        lemma_tm_ite(m, val_tm(ts, g.0), t_bool(true), t);
        assert(guard_tms(ts, guards)[0] == (val_tm(ts, g.0), g.1));
        assert(operand(y, g.0) is Bool);
        assert(on_path(y, guards) <==> operand(y, g.0) == Value::Bool(g.1 == Polarity::Positive)
            && on_path(y, rest)) by {
            if on_path(y, guards) {
                assert(operand(y, guards[0].0) == Value::Bool(guards[0].1 == Polarity::Positive));
                assert forall|k: int| 0 <= k < rest.len() implies operand(y, (#[trigger] rest[k]).0)
                    == Value::Bool(rest[k].1 == Polarity::Positive) by {
                    assert(rest[k] == guards[k + 1]);
                }
            }
            if operand(y, g.0) == Value::Bool(g.1 == Polarity::Positive) && on_path(y, rest) {
                assert forall|k: int| 0 <= k < guards.len() implies operand(
                    y,
                    (#[trigger] guards[k]).0,
                ) == Value::Bool(guards[k].1 == Polarity::Positive) by {
                    if k > 0 {
                        assert(rest[k - 1] == guards[k]);
                    }
                }
            }
        }
    }
}

proof fn lemma_gate(m: Model, gate: Option<Id>, open: bool, t: Tm, v: Value)
    requires
        gate_is(m, gate, open),
        tm_value(m, t) == Some(v),
    ensures
        tm_value(m, gated(class_gate(gate), t)) == Some(
            if open {
                v
            } else {
                Value::Bool(true)
            },
        ),
{
    lemma_tm_lit(m, Value::Bool(true));
    if let Some(c) = gate {
        lemma_tm_ite(m, Tm::Class(c), t, t_bool(true));
    }
}

proof fn lemma_is_true(m: Model, t: Tm, v: Value)
    requires
        tm_value(m, t) == Some(v),
    ensures
        all_hold(m, seq![(t, t_bool(true))]) <==> v == Value::Bool(true),
{
    lemma_tm_lit(m, Value::Bool(true));
    let f = seq![(t, t_bool(true))];
    if v == Value::Bool(true) {
        assert forall|i: int| 0 <= i < f.len() implies equation_holds(m, #[trigger] f[i]) by {}
    }
    if all_hold(m, f) {
        assert(equation_holds(m, f[0]));
    }
}

/// What the instructions of a recipe assert is what they tell of its slots.
pub proof fn law_recipe_tells(
    m: Model,
    insts: Seq<AxiomInst>,
    seed: Seq<Tm>,
    gate: Option<Id>,
    open: bool,
    y: Seq<Value>,
)
    requires
        insts_ok(insts, seed.len()),
        seed.len() <= y.len(),
        hold_values(m, seed, y.take(seed.len() as int)),
        steps_run(m, steps_view(insts), y, seed.len()),
        gate_is(m, gate, open),
        all_decided(y, insts),
    ensures
        all_hold(m, inst_facts(insts, seed, class_gate(gate))) <==> forall|i: int|
            0 <= i < insts.len() ==> told(m, y, #[trigger] insts[i], open),
{
    lemma_tells_upto(m, insts, seed, gate, open, y, insts.len());
    assert(insts.take(insts.len() as int) =~= insts);
}

#[verifier::rlimit(40)]
#[verifier::spinoff_prover]
proof fn lemma_tells_upto(
    m: Model,
    insts: Seq<AxiomInst>,
    seed: Seq<Tm>,
    gate: Option<Id>,
    open: bool,
    y: Seq<Value>,
    n: nat,
)
    requires
        n <= insts.len(),
        insts_ok(insts, seed.len()),
        seed.len() <= y.len(),
        hold_values(m, seed, y.take(seed.len() as int)),
        steps_run(m, steps_view(insts), y, seed.len()),
        gate_is(m, gate, open),
        all_decided(y, insts),
    ensures
        all_hold(m, inst_facts(insts.take(n as int), seed, class_gate(gate))) <==> forall|i: int|
            0 <= i < n ==> told(m, y, #[trigger] insts[i], open),
    decreases n,
{
    if n > 0 {
        let now = insts.take(n as int);
        let before = insts.take(n - 1);
        assert(now.drop_last() =~= before);
        assert(now.last() == insts[n - 1]);
        lemma_tells_upto(m, insts, seed, gate, open, y, (n - 1) as nat);
        lemma_steps_upto(m, insts, seed, y, (n - 1) as nat);
        lemma_slots(before, seed);
        let ts = inst_vals(before, seed);
        let inst = insts[n - 1];
        assert(inst_ok(inst, slots(insts.take(n - 1), seed.len())));
        let fact = inst_fact(inst, ts, class_gate(gate));
        lemma_parts(m, inst_facts(before, seed, class_gate(gate)), fact);
        lemma_tell_one(m, ts, y, inst, gate, open);
        let said = |k: int| forall|i: int| 0 <= i < k ==> told(m, y, #[trigger] insts[i], open);
        if said(n - 1) && told(m, y, inst, open) {
            assert forall|i: int| 0 <= i < n implies told(m, y, #[trigger] insts[i], open) by {
                if i == n - 1 {
                    assert(insts[i] == inst);
                }
            }
        }
        if said(n as int) {
            assert(told(m, y, insts[n - 1], open));
        }
    } else {
        assert(insts.take(0) =~= Seq::empty());
    }
}

proof fn lemma_tell_one(
    m: Model,
    ts: Seq<Tm>,
    y: Seq<Value>,
    inst: AxiomInst,
    gate: Option<Id>,
    open: bool,
)
    requires
        hold_values(m, ts, y.take(ts.len() as int)),
        ts.len() <= y.len(),
        inst_ok(inst, ts.len()),
        gate_is(m, gate, open),
        inst matches AxiomInst::Token { guards, .. } ==> decided(y, guards@),
    ensures
        all_hold(m, inst_fact(inst, ts, class_gate(gate))) <==> told(m, y, inst, open),
{
    match inst {
        AxiomInst::Assume(a) => {
            lemma_operand_v(m, ts, y, a);
            lemma_is_true(m, val_tm(ts, a), operand(y, a));
        },
        AxiomInst::Token { func, args, guards } => {
            lemma_token(m, ts, y, func, args@, guards@, gate, open);
        },
        _ => {},
    }
}

proof fn lemma_token(
    m: Model,
    ts: Seq<Tm>,
    y: Seq<Value>,
    func: FuncId,
    args: Seq<Val>,
    guards: Seq<(Val, Polarity)>,
    gate: Option<Id>,
    open: bool,
)
    requires
        hold_values(m, ts, y.take(ts.len() as int)),
        ts.len() <= y.len(),
        vals_ok(args, ts.len()),
        guards_ok(guards, ts.len()),
        decided(y, guards),
        gate_is(m, gate, open),
    ensures
        all_hold(
            m,
            seq![
                (
                    gated(
                        class_gate(gate),
                        guard_tm(
                            guard_tms(ts, guards),
                            Tm::App(OpV::FuncApp(func, Seq::empty()), val_tms(ts, args)),
                        ),
                    ),
                    t_bool(true),
                ),
            ],
        ) <==> (open && on_path(y, guards) ==> (m.func)(func, Seq::empty(), operands_of(y, args))
            == Value::Bool(true)),
{
    let app = Tm::App(OpV::FuncApp(func, Seq::empty()), val_tms(ts, args));
    let v = (m.func)(func, Seq::empty(), operands_of(y, args));
    lemma_operands_v(m, ts, y, args);
    assert(Seq::new(
        vals_view(args).len(),
        |i: int| crate::meaning::quantified::operand_v(y, vals_view(args)[i]),
    ) =~= operands_of(y, args)) by {
        assert(vals_view(args).len() == args.len());
        assert forall|i: int| 0 <= i < args.len() implies #[trigger] operands_of(y, args)[i]
            == crate::meaning::quantified::operand_v(y, vals_view(args)[i]) by {
            assert(vals_view(args)[i] == args[i]@);
        }
    }
    assert(tm_value(m, app) == Some(v));
    lemma_guarded(m, ts, y, guards, app, v);
    let w = if on_path(y, guards) {
        v
    } else {
        Value::Bool(true)
    };
    lemma_gate(m, gate, open, guard_tm(guard_tms(ts, guards), app), w);
    lemma_is_true(
        m,
        gated(class_gate(gate), guard_tm(guard_tms(ts, guards), app)),
        if open {
            w
        } else {
            Value::Bool(true)
        },
    );
}

proof fn lemma_released(
    m: Model,
    ts: Seq<Tm>,
    y: Seq<Value>,
    steps: Seq<TokenStep>,
    gate: Option<Id>,
    open: bool,
)
    requires
        hold_values(m, ts, y.take(ts.len() as int)),
        ts.len() <= y.len(),
        steps_ok(steps, ts.len()),
        forall|i: int| 0 <= i < steps.len() ==> decided(y, (#[trigger] steps[i]).guards@),
        gate_is(m, gate, open),
    ensures
        all_hold(m, token_facts(ts, steps, class_gate(gate))) <==> forall|i: int|
            0 <= i < steps.len() ==> (open && on_path(y, (#[trigger] steps[i]).guards@) ==> operand(
                y,
                steps[i].token,
            ) == Value::Bool(true)),
{
    let facts = token_facts(ts, steps, class_gate(gate));
    assert forall|i: int| 0 <= i < steps.len() implies (equation_holds(m, #[trigger] facts[i]) <==> (
    open && on_path(y, steps[i].guards@) ==> operand(y, steps[i].token) == Value::Bool(true))) by {
        let s = steps[i];
        let v = operand(y, s.token);
        assert(val_ok(steps[i].token, ts.len()));
        assert(decided(y, steps[i].guards@));
        lemma_operand_v(m, ts, y, s.token);
        lemma_guarded(m, ts, y, s.guards@, val_tm(ts, s.token), v);
        let w = if on_path(y, s.guards@) {
            v
        } else {
            Value::Bool(true)
        };
        lemma_gate(m, gate, open, guard_tm(guard_tms(ts, s.guards@), val_tm(ts, s.token)), w);
        lemma_tm_lit(m, Value::Bool(true));
    }
    if all_hold(m, facts) {
        assert forall|i: int| 0 <= i < steps.len() implies (open && on_path(
            y,
            (#[trigger] steps[i]).guards@,
        ) ==> operand(y, steps[i].token) == Value::Bool(true)) by {
            assert(equation_holds(m, facts[i]));
        }
    }
    if forall|i: int|
        0 <= i < steps.len() ==> (open && on_path(y, (#[trigger] steps[i]).guards@) ==> operand(
            y,
            steps[i].token,
        ) == Value::Bool(true)) {
        assert forall|i: int| 0 <= i < facts.len() implies equation_holds(m, #[trigger] facts[i]) by {
            let s = steps[i];
        }
    }
}

/// What unfolding a definition at a call says, at values of the arguments: where nothing
/// holds it back, the call has the value of the body; and its assumptions and tokens are
/// true.
pub proof fn law_unfolding(
    m: Model,
    def: FunctionDefinition,
    class: Id,
    args: Seq<Id>,
    gate: Option<Id>,
    open: bool,
    y: Seq<Value>,
)
    requires
        def.wf(),
        args.len() == def.n_params,
        args.len() <= y.len(),
        y.take(args.len() as int) == m.all(args),
        steps_run(m, steps_view(def.steps@), y, args.len()),
        gate_is(m, gate, open),
        all_decided(y, def.steps@),
        forall|i: int|
            0 <= i < def.token_steps@.len() ==> decided(y, (#[trigger] def.token_steps@[i]).guards@),
    ensures
        all_hold(m, body_facts(def, class, args, gate)) <==> {
            &&& forall|i: int|
                0 <= i < def.steps@.len() ==> told(m, y, #[trigger] def.steps@[i], open)
            &&& def.res matches Some(v) ==> open ==> m.at(class) == operand(y, v)
            &&& forall|i: int|
                0 <= i < def.token_steps@.len() ==> (open && on_path(
                    y,
                    (#[trigger] def.token_steps@[i]).guards@,
                ) ==> operand(y, def.token_steps@[i].token) == Value::Bool(true))
        },
{
    let seed = t_classes(args);
    lemma_seed(m, args);
    let insts = def.steps@;
    lemma_steps_upto(m, insts, seed, y, insts.len());
    assert(insts.take(insts.len() as int) =~= insts);
    lemma_slots(insts, seed);
    law_recipe_tells(m, insts, seed, gate, open, y);
    let ts = inst_vals(insts, seed);
    lemma_released(m, ts, y, def.token_steps@, gate, open);
    let first = inst_facts(insts, seed, class_gate(gate));
    let middle = match def.res {
        Some(v) => seq![body_fact(class, val_tm(ts, v), gate)],
        None => Seq::empty(),
    };
    let last = token_facts(ts, def.token_steps@, class_gate(gate));
    lemma_parts(m, first + middle, last);
    lemma_parts(m, first, middle);
    assert(all_hold(m, middle) <==> (def.res matches Some(v) ==> open ==> m.at(class) == operand(
        y,
        v,
    ))) by {
        if let Some(v) = def.res {
            lemma_operand_v(m, ts, y, v);
            lemma_body_fact(m, class, val_tm(ts, v), operand(y, v), gate, open);
        }
    }
}

proof fn lemma_body_fact(m: Model, class: Id, t: Tm, v: Value, gate: Option<Id>, open: bool)
    requires
        tm_value(m, t) == Some(v),
        gate_is(m, gate, open),
    ensures
        all_hold(m, seq![body_fact(class, t, gate)]) <==> (open ==> m.at(class) == v),
{
    let f = seq![body_fact(class, t, gate)];
    lemma_tm_bin(m, BinOp::Eq, Tm::Class(class), t);
    match gate {
        None => {
            if m.at(class) == v {
                assert forall|i: int| 0 <= i < f.len() implies equation_holds(m, #[trigger] f[i]) by {}
            }
            if all_hold(m, f) {
                assert(equation_holds(m, f[0]));
            }
        },
        Some(c) => {
            lemma_gate(m, gate, open, t_eq(Tm::Class(class), t), Value::Bool(m.at(class) == v));
            lemma_is_true(
                m,
                gated(class_gate(gate), t_eq(Tm::Class(class), t)),
                if open {
                    Value::Bool(m.at(class) == v)
                } else {
                    Value::Bool(true)
                },
            );
        },
    }
}

/// What replaying a postcondition at a call says, at values of the arguments: its
/// assumptions are true, and where nothing holds it back so are its result and its token.
pub proof fn law_replaying(
    m: Model,
    p: PostRecipe,
    args: Seq<Id>,
    gate: Option<Id>,
    open: bool,
    y: Seq<Value>,
)
    requires
        insts_ok(p.steps@, args.len()),
        val_ok(p.res, slots(p.steps@, args.len())),
        p.token matches Some(v) ==> val_ok(v, slots(p.steps@, args.len())),
        args.len() <= y.len(),
        y.take(args.len() as int) == m.all(args),
        steps_run(m, steps_view(p.steps@), y, args.len()),
        gate_is(m, gate, open),
        all_decided(y, p.steps@),
    ensures
        all_hold(m, post_facts(Some(p), args, class_gate(gate))) <==> {
            &&& forall|i: int|
                0 <= i < p.steps@.len() ==> told(m, y, #[trigger] p.steps@[i], true)
            &&& open ==> operand(y, p.res) == Value::Bool(true)
            &&& p.token matches Some(v) ==> open ==> operand(y, v) == Value::Bool(true)
        },
{
    let seed = t_classes(args);
    lemma_seed(m, args);
    let insts = p.steps@;
    lemma_steps_upto(m, insts, seed, y, insts.len());
    assert(insts.take(insts.len() as int) =~= insts);
    lemma_slots(insts, seed);
    law_recipe_tells(m, insts, seed, None, true, y);
    let ts = inst_vals(insts, seed);
    let first = inst_facts(insts, seed, None);
    assert(class_gate(None) == None::<Tm>);
    let truth = seq![(gated(class_gate(gate), val_tm(ts, p.res)), t_bool(true))];
    let last = match p.token {
        Some(v) => seq![(gated(class_gate(gate), val_tm(ts, v)), t_bool(true))],
        None => Seq::empty(),
    };
    lemma_parts(m, first + truth, last);
    lemma_parts(m, first, truth);
    lemma_operand_v(m, ts, y, p.res);
    lemma_gate(m, gate, open, val_tm(ts, p.res), operand(y, p.res));
    lemma_is_true(
        m,
        gated(class_gate(gate), val_tm(ts, p.res)),
        if open {
            operand(y, p.res)
        } else {
            Value::Bool(true)
        },
    );
    if let Some(v) = p.token {
        lemma_operand_v(m, ts, y, v);
        lemma_gate(m, gate, open, val_tm(ts, v), operand(y, v));
        lemma_is_true(
            m,
            gated(class_gate(gate), val_tm(ts, v)),
            if open {
                operand(y, v)
            } else {
                Value::Bool(true)
            },
        );
    }
}

/// In every model of a definition, the function's value at arguments is the value that the
/// steps of its body compute of them, wherever the token of its precondition is true.
#[verifier::rlimit(40)]
#[verifier::spinoff_prover]
pub proof fn law_definition(
    p: FunctionUnfoldApplier,
    m: Model,
    tys: Seq<TypeV>,
    xs: Seq<Value>,
    y: Seq<Value>,
)
    requires
        defines(p, m),
        p.def.wf(),
        xs.len() == p.def.n_params,
        xs.len() + 2 < Id::MAX,
        xs.len() <= y.len(),
        y.take(xs.len() as int) == xs,
        steps_run(m, steps_view(p.def.steps@), y, xs.len()),
        all_decided(y, p.def.steps@),
        forall|i: int|
            0 <= i < p.def.token_steps@.len() ==> decided(
                y,
                (#[trigger] p.def.token_steps@[i]).guards@,
            ),
        p.pre_token matches Some(t) ==> (m.func)(t, Seq::empty(), xs) == Value::Bool(true),
    ensures
        p.def.res matches Some(v) ==> (m.func)(p.func, tys, xs) == operand(y, v),
        !p.limited_post ==> (p.def.limited matches Some(f) ==> (m.func)(p.func, tys, xs) == (
        m.func)(f, tys, xs)),
{
    let n = xs.len() as int;
    let class: Id = n as Id;
    let mark: Id = (n + 1) as Id;
    let val = |id: Id|
        if id == class {
            (m.func)(p.func, tys, xs)
        } else if id == mark {
            Value::Bool(true)
        } else {
            xs[id as int]
        };
    let w = Model { val, ..m };
    let args = Seq::new(xs.len(), |i: int| i as Id);
    assert(w.all(args) =~= xs);
    let token = if p.pre_token is Some {
        Some(mark)
    } else {
        None
    };
    let u = Unfolded { token, unioned: true, replayed: false };
    assert(w.at(class) == (m.func)(p.func, tys, xs));
    let facts = call_facts(p.def, p.limited_post, class, tys, args, u);
    assert(all_hold(Model { val, ..m }, facts));
    let body = body_facts(p.def, class, args, token);
    let frame = if !p.limited_post {
        frame_facts(p.def.limited, class, tys, args)
    } else {
        Seq::empty()
    };
    assert(facts =~= (body + frame) + Seq::<(Tm, Tm)>::empty());
    lemma_parts(w, body + frame, Seq::empty());
    lemma_parts(w, body, frame);
    lemma_steps_elsewhere(m, w, p.def.steps@, y, xs.len());
    law_unfolding(w, p.def, class, args, token, true, y);
    if !p.limited_post && p.def.limited is Some {
        assert(equation_holds(w, frame[0]));
        lemma_tms_classes(w, args);
    }
}

/// Steps compute the same whatever classes stand for.
proof fn lemma_steps_elsewhere(
    m: Model,
    w: Model,
    insts: Seq<AxiomInst>,
    y: Seq<Value>,
    n: nat,
)
    requires
        steps_run(m, steps_view(insts), y, n),
        w == (Model { val: w.val, ..m }),
    ensures
        steps_run(w, steps_view(insts), y, n),
{
    let steps = steps_view(insts);
    assert forall|i: int| 0 <= i < steps.len() implies crate::meaning::quantified::step_computes(
        w,
        y,
        #[trigger] steps[i],
        y[(n + crate::meaning::quantified::yields(steps.take(i))) as int],
    ) by {
        assert(crate::meaning::quantified::step_computes(
            m,
            y,
            steps[i],
            y[(n + crate::meaning::quantified::yields(steps.take(i))) as int],
        ));
    }
}

} // verus!
