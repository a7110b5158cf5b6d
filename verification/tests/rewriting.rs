use silver_oxide::context::Context;
use silver_oxide::lang::{FuncId, Id, Symbolic};
use silver_oxide::nums::{Int, Rat};
use silver_oxide::rewrite::function::CallKey;
use silver_oxide::rewrite::memo::{new_memo_unit, new_scope_id, Memo, Scopes, ScratchScope};
use silver_oxide::rewrite::names::{reduce_rules, rules};
use silver_oxide::vmir::{BinOp, Literal, Polarity};

fn fresh_ctx() -> Context {
    Context::new(rules(&vec![]), reduce_rules(&vec![]), vec![], std::rc::Rc::new(vec![]))
}

fn rat(ctx: &mut Context, n: i64, d: i64) -> Id {
    ctx.add(&Symbolic::Lit(Literal::Real(Rat::new(
        &Int::from_i64(n),
        &Int::from_i64(d),
    ))))
}

fn whole(ctx: &mut Context, n: i64) -> Id {
    ctx.add(&Symbolic::Lit(Literal::Int(Int::from_i64(n))))
}

fn boolean(ctx: &mut Context, b: bool) -> Id {
    ctx.add(&Symbolic::Lit(Literal::Bool(b)))
}

#[test]
fn prove_under_empty_pc_proves_known_goal() {
    let mut ctx = fresh_ctx();
    let g = ctx.add(&Symbolic::Fresh(0));
    let true_ = boolean(&mut ctx, true);
    ctx.union(g, true_);
    ctx.rebuild();
    assert!(ctx.prove_under_pc(g, &vec![]));
}

#[test]
fn prove_unknown_goal_fails() {
    let mut ctx = fresh_ctx();
    let g = ctx.add(&Symbolic::Fresh(0));
    assert!(!ctx.prove_under_pc(g, &vec![]));
}

#[test]
fn prove_under_false_pc_is_vacuous() {
    let mut ctx = fresh_ctx();
    let g = ctx.add(&Symbolic::Fresh(0));
    let true_ = boolean(&mut ctx, true);
    let false_lit = boolean(&mut ctx, false);

    assert!(ctx.prove_under_pc(g, &vec![(false_lit, Polarity::Positive)]));
    ctx.saturate();
    assert_ne!(ctx.graph.find(g), ctx.graph.find(true_));
}

#[test]
fn prove_commits_conditional_implication() {
    let mut ctx = fresh_ctx();
    let c = ctx.add(&Symbolic::Fresh(0));
    let x = ctx.add(&Symbolic::Fresh(1));
    let true_ = boolean(&mut ctx, true);
    let goal = ctx.add(&Symbolic::Ite([c, true_, x]));

    assert!(ctx.prove_under_pc(goal, &vec![(c, Polarity::Positive)]));

    ctx.saturate();
    assert_ne!(ctx.graph.find(goal), ctx.graph.find(true_));

    ctx.union(c, true_);
    ctx.saturate();
    assert_eq!(ctx.graph.find(goal), ctx.graph.find(true_));
}

#[test]
fn const_fold_folds_subtraction() {
    let mut ctx = fresh_ctx();
    let one = rat(&mut ctx, 1, 1);
    let diff = ctx.add(&Symbolic::Binary(BinOp::SubR, [one, one]));
    ctx.rebuild();

    let zero = rat(&mut ctx, 0, 1);
    assert_eq!(ctx.graph.find(diff), ctx.graph.find(zero));
}

#[test]
fn const_fold_folds_ternary() {
    let mut ctx = fresh_ctx();
    let cond = boolean(&mut ctx, true);
    let t = ctx.add(&Symbolic::Fresh(0));
    let e = ctx.add(&Symbolic::Fresh(1));
    let ite = ctx.add(&Symbolic::Ite([cond, t, e]));
    ctx.saturate();

    assert_eq!(ctx.graph.find(ite), ctx.graph.find(t));
    assert_ne!(ctx.graph.find(ite), ctx.graph.find(e));
}

#[test]
fn rewrite_ite_false_picks_else() {
    let mut ctx = fresh_ctx();
    let cond = boolean(&mut ctx, false);
    let t = ctx.add(&Symbolic::Fresh(0));
    let e = ctx.add(&Symbolic::Fresh(1));
    let ite = ctx.add(&Symbolic::Ite([cond, t, e]));
    ctx.saturate();

    assert_eq!(ctx.graph.find(ite), ctx.graph.find(e));
    assert_ne!(ctx.graph.find(ite), ctx.graph.find(t));
}

#[test]
fn rewrite_add_zero_int() {
    let mut ctx = fresh_ctx();
    let x = ctx.add(&Symbolic::Fresh(0));
    let zero = whole(&mut ctx, 0);
    let sum = ctx.add(&Symbolic::Binary(BinOp::AddI, [x, zero]));
    ctx.saturate();

    assert_eq!(ctx.graph.find(sum), ctx.graph.find(x));
}

#[test]
fn rewrite_add_zero_real_commuted() {
    let mut ctx = fresh_ctx();
    let x = ctx.add(&Symbolic::Fresh(0));
    let zero = rat(&mut ctx, 0, 1);
    let sum = ctx.add(&Symbolic::Binary(BinOp::AddR, [zero, x]));
    ctx.saturate();

    assert_eq!(ctx.graph.find(sum), ctx.graph.find(x));
}

#[test]
fn eq_true_unions_args() {
    let mut ctx = fresh_ctx();
    let a = ctx.add(&Symbolic::Fresh(0));
    let b = ctx.add(&Symbolic::Fresh(1));
    let eq = ctx.add(&Symbolic::Binary(BinOp::Eq, [a, b]));
    let true_ = boolean(&mut ctx, true);
    ctx.union(eq, true_);
    ctx.saturate();

    assert_eq!(ctx.graph.find(a), ctx.graph.find(b));
}

#[test]
fn eq_unknown_does_not_union() {
    let mut ctx = fresh_ctx();
    let a = ctx.add(&Symbolic::Fresh(0));
    let b = ctx.add(&Symbolic::Fresh(1));
    let _eq = ctx.add(&Symbolic::Binary(BinOp::Eq, [a, b]));
    ctx.saturate();

    assert_ne!(ctx.graph.find(a), ctx.graph.find(b));
}

#[test]
fn eq_true_propagates_through_congruence() {
    let mut ctx = fresh_ctx();
    let f = FuncId(0);
    let a = ctx.add(&Symbolic::Fresh(0));
    let b = ctx.add(&Symbolic::Fresh(1));
    let fa = ctx.add(&Symbolic::FuncApp(f, vec![], vec![a]));
    let fb = ctx.add(&Symbolic::FuncApp(f, vec![], vec![b]));
    let eq = ctx.add(&Symbolic::Binary(BinOp::Eq, [a, b]));
    let true_ = boolean(&mut ctx, true);
    ctx.union(eq, true_);
    ctx.saturate();

    assert_eq!(ctx.graph.find(fa), ctx.graph.find(fb));
}

#[test]
fn realcast_folds_int_to_real() {
    let mut ctx = fresh_ctx();
    let two = whole(&mut ctx, 2);
    let cast = ctx.add(&Symbolic::RealCast(two));
    let real_two = rat(&mut ctx, 2, 1);
    ctx.saturate();
    assert_eq!(ctx.graph.find(cast), ctx.graph.find(real_two));
}

#[test]
fn rewrite_and_true_collapses() {
    let mut ctx = fresh_ctx();
    let b = ctx.add(&Symbolic::Fresh(0));
    let t = boolean(&mut ctx, true);
    let f = boolean(&mut ctx, false);
    let ite = ctx.add(&Symbolic::Ite([b, t, f]));
    ctx.saturate();
    assert_eq!(ctx.graph.find(ite), ctx.graph.find(b));
}

#[test]
fn rewrite_and_self_collapses() {
    let mut ctx = fresh_ctx();
    let b = ctx.add(&Symbolic::Fresh(0));
    let f = boolean(&mut ctx, false);
    let ite = ctx.add(&Symbolic::Ite([b, b, f]));
    ctx.saturate();
    assert_eq!(ctx.graph.find(ite), ctx.graph.find(b));
}

#[test]
fn memos_follow_units_and_scopes() {
    let key = |n: u32| CallKey { tys: vec![], args: vec![n] };
    let mut s = Scopes::new();
    let mut memo: Memo<CallKey> = Memo::new();
    assert!(memo.insert(&s, key(0)));
    assert!(!memo.insert(&s, key(0)));
    // A one-shot scope reads the live record; what it records stays in it.
    let scratch = ScratchScope::enter(&mut s);
    assert!(!memo.insert(&s, key(0)));
    assert!(memo.insert(&s, key(1)));
    let inner = ScratchScope::enter(&mut s);
    assert!(!memo.insert(&s, key(1)));
    inner.leave(&mut s);
    scratch.leave(&mut s);
    assert!(memo.insert(&s, key(1)));
    // A resumed scope reads its own record alone.
    let id = new_scope_id(&mut s);
    let kept = ScratchScope::resume(&mut s, id);
    assert!(memo.insert(&s, key(0)));
    kept.leave(&mut s);
    let kept = ScratchScope::resume(&mut s, id);
    assert!(!memo.insert(&s, key(0)));
    kept.leave(&mut s);
    // A new unit forgets.
    new_memo_unit(&mut s);
    assert!(memo.insert(&s, key(0)));
}

#[test]
fn a_goal_on_the_path_is_shown() {
    let mut ctx = fresh_ctx();
    let p = ctx.add(&Symbolic::Fresh(0));
    assert!(ctx.prove_under_pc(p, &vec![(p, Polarity::Positive)]));
    assert!(!ctx.prove_under_pc(p, &vec![(p, Polarity::Negative)]));
    assert!(!ctx.prove_under_pc(p, &vec![]));
}

#[test]
fn a_scope_does_not_see_the_one_beside_it() {
    let key = |n: u32| CallKey { tys: vec![], args: vec![n] };
    let mut s = Scopes::new();
    let mut memo: Memo<CallKey> = Memo::new();
    let first = ScratchScope::enter(&mut s);
    assert!(memo.insert(&s, key(0)));
    first.leave(&mut s);
    let second = ScratchScope::enter(&mut s);
    assert!(memo.insert(&s, key(0)));
    second.leave(&mut s);
    // What the live run records is not seen where a scope is entered again.
    let id = new_scope_id(&mut s);
    assert!(memo.insert(&s, key(1)));
    let kept = ScratchScope::resume(&mut s, id);
    assert!(memo.insert(&s, key(1)));
    kept.leave(&mut s);
    let fresh = ScratchScope::enter(&mut s);
    assert!(!memo.insert(&s, key(1)));
    fresh.leave(&mut s);
}

#[test]
fn a_choice_with_two_open_arms_is_not_split() {
    let mut ctx = fresh_ctx();
    let c = ctx.add(&Symbolic::Fresh(0));
    let p = ctx.add(&Symbolic::Fresh(1));
    let yes = boolean(&mut ctx, true);
    let same = ctx.add(&Symbolic::Ite([c, p, yes]));
    assert!(ctx.prove_under_pc(same, &vec![(p, Polarity::Positive)]));
    assert!(!ctx.prove_under_pc(same, &vec![]));
    assert!(ctx.prove_under_pc(same, &vec![(c, Polarity::Negative)]));
}
