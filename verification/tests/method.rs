use silver_oxide::context::Context;
use silver_oxide::lang::{Id, Symbolic};
use silver_oxide::method::error::VerifyError;
use silver_oxide::method::eval::EvalState;
use silver_oxide::method::graft::{graft_certificate, ResourceCertificate};
use silver_oxide::method::heap_exp::{inhale_heap_exp, ExpInst, HeapExp};
use silver_oxide::method::merge::heap_union;
use silver_oxide::method::plain::{Chunk, Heap};
use silver_oxide::method::subtract::heap_subtract;
use silver_oxide::nums::{Int, Rat};
use silver_oxide::program::HeapVal;
use silver_oxide::rewrite::names::{reduce_rules, rules};
use silver_oxide::types::Oracle;
use silver_oxide::vmir::{BinOp, Literal, Polarity, Val};

fn fresh_ctx() -> Context {
    Context::new(rules(&vec![]), reduce_rules(&vec![]), vec![], std::rc::Rc::new(vec![]))
}

fn fraction(n: i64) -> Literal {
    Literal::Real(Rat::new(&Int::from_i64(n), &Int::from_i64(1)))
}

fn rat(ctx: &mut Context, n: i64) -> Id {
    ctx.add(&Symbolic::Lit(fraction(n)))
}

fn whole(ctx: &mut Context, n: i64) -> Id {
    ctx.add(&Symbolic::Lit(Literal::Int(Int::from_i64(n))))
}

fn boolean(ctx: &mut Context, b: bool) -> Id {
    ctx.add(&Symbolic::Lit(Literal::Bool(b)))
}

fn ne_zero(ctx: &mut Context, d: Id) -> Id {
    let zero = whole(ctx, 0);
    let eq = ctx.add(&Symbolic::Binary(BinOp::Eq, [d, zero]));
    let false_ = boolean(ctx, false);
    let true_ = boolean(ctx, true);
    ctx.add(&Symbolic::Ite([eq, false_, true_]))
}

fn one_heap(heap: Heap) -> EvalState {
    EvalState { vals: vec![], heaps: vec![heap], types: Oracle::new() }
}

#[test]
fn method_heap_union_merges_egg_equivalent_addresses() {
    let mut ctx = fresh_ctx();
    let a = ctx.add(&Symbolic::Fresh(0));
    let b = ctx.add(&Symbolic::Fresh(1));
    let p1 = rat(&mut ctx, 1);
    let p2 = rat(&mut ctx, 2);
    let v1 = ctx.add(&Symbolic::Fresh(2));
    let v2 = ctx.add(&Symbolic::Fresh(3));

    let h1 = Heap::empty().with_chunk(a, Chunk::new(p1, v1));
    let h2 = Heap::empty().with_chunk(b, Chunk::new(p2, v2));

    ctx.union(a, b);
    ctx.rebuild();

    let merged = heap_union(&mut ctx, &h1, &h2, &vec![]);

    let canon = ctx.graph.find(a);
    let chunk = merged.chunk(canon).expect("merged chunk missing");

    let expected_perm = ctx.add(&Symbolic::Binary(BinOp::AddR, [p1, p2]));
    ctx.saturate();
    assert_eq!(ctx.graph.find(chunk.perm), ctx.graph.find(expected_perm));
    assert_eq!(ctx.graph.find(v1), ctx.graph.find(v2));
    assert_eq!(ctx.graph.find(chunk.value), ctx.graph.find(v1));
    assert_eq!(merged.entries().len(), 1);
}

#[test]
fn method_merge_zero_fraction_picks_active_value() {
    let mut ctx = fresh_ctx();
    let a = ctx.add(&Symbolic::Fresh(0));
    let p0 = rat(&mut ctx, 0);
    let p1 = rat(&mut ctx, 1);
    let v0 = ctx.add(&Symbolic::Fresh(1));
    let v1 = ctx.add(&Symbolic::Fresh(2));

    let h1 = Heap::empty().with_chunk(a, Chunk::new(p0, v0));
    let h2 = Heap::empty().with_chunk(a, Chunk::new(p1, v1));

    let merged = heap_union(&mut ctx, &h1, &h2, &vec![]);
    let chunk = merged.chunk(ctx.graph.find(a)).expect("merged chunk missing");
    ctx.saturate();

    assert_eq!(ctx.graph.find(chunk.value), ctx.graph.find(v1));
    assert_ne!(ctx.graph.find(v0), ctx.graph.find(v1));
}

#[test]
fn method_merge_both_active_fuses_values() {
    let mut ctx = fresh_ctx();
    let a = ctx.add(&Symbolic::Fresh(0));
    let p0 = rat(&mut ctx, 1);
    let p1 = rat(&mut ctx, 1);
    let v0 = ctx.add(&Symbolic::Fresh(1));
    let v1 = ctx.add(&Symbolic::Fresh(2));

    let h1 = Heap::empty().with_chunk(a, Chunk::new(p0, v0));
    let h2 = Heap::empty().with_chunk(a, Chunk::new(p1, v1));

    let merged = heap_union(&mut ctx, &h1, &h2, &vec![]);
    let chunk = merged.chunk(ctx.graph.find(a)).expect("merged chunk missing");
    ctx.saturate();

    assert_eq!(ctx.graph.find(v0), ctx.graph.find(v1));
    assert_eq!(ctx.graph.find(chunk.value), ctx.graph.find(v0));
}

#[test]
fn method_merge_under_false_pc_blocks_fusion() {
    let mut ctx = fresh_ctx();
    let a = ctx.add(&Symbolic::Fresh(0));
    let p0 = rat(&mut ctx, 1);
    let p1 = rat(&mut ctx, 1);
    let v0 = ctx.add(&Symbolic::Fresh(1));
    let v1 = ctx.add(&Symbolic::Fresh(2));
    let false_lit = boolean(&mut ctx, false);

    let h1 = Heap::empty().with_chunk(a, Chunk::new(p0, v0));
    let h2 = Heap::empty().with_chunk(a, Chunk::new(p1, v1));

    let merged = heap_union(&mut ctx, &h1, &h2, &vec![(false_lit, Polarity::Positive)]);
    let chunk = merged.chunk(ctx.graph.find(a)).expect("merged chunk missing");
    ctx.saturate();

    assert_ne!(ctx.graph.find(v0), ctx.graph.find(v1));
    assert_eq!(ctx.graph.find(chunk.value), ctx.graph.find(v0));
}

#[test]
fn method_merge_under_true_pc_allows_fusion() {
    let mut ctx = fresh_ctx();
    let a = ctx.add(&Symbolic::Fresh(0));
    let p0 = rat(&mut ctx, 1);
    let p1 = rat(&mut ctx, 1);
    let v0 = ctx.add(&Symbolic::Fresh(1));
    let v1 = ctx.add(&Symbolic::Fresh(2));
    let true_lit = boolean(&mut ctx, true);

    let h1 = Heap::empty().with_chunk(a, Chunk::new(p0, v0));
    let h2 = Heap::empty().with_chunk(a, Chunk::new(p1, v1));

    let merged = heap_union(&mut ctx, &h1, &h2, &vec![(true_lit, Polarity::Positive)]);
    let _chunk = merged.chunk(ctx.graph.find(a)).expect("merged chunk missing");
    ctx.saturate();

    assert_eq!(ctx.graph.find(v0), ctx.graph.find(v1));
}

#[test]
fn method_subtract_symbolic_perm_fails_without_proof() {
    let mut ctx = fresh_ctx();
    let a = ctx.add(&Symbolic::Fresh(0));
    let p_have = ctx.add(&Symbolic::Fresh(1));
    let p_take = ctx.add(&Symbolic::Fresh(2));
    let v1 = ctx.add(&Symbolic::Fresh(3));
    let v2 = ctx.add(&Symbolic::Fresh(4));

    let h1 = Heap::empty().with_chunk(a, Chunk::new(p_have, v1));
    let h2 = Heap::empty().with_chunk(a, Chunk::new(p_take, v2));

    let err = heap_subtract(&mut ctx, &h1, &h2, &vec![])
        .err()
        .expect("symbolic-perm exhale must fail without a proof");
    assert!(matches!(err.root_cause(), VerifyError::InsufficientPermission));
}

#[test]
fn method_heap_subtract_canonical_match() {
    let mut ctx = fresh_ctx();
    let a = ctx.add(&Symbolic::Fresh(0));
    let b = ctx.add(&Symbolic::Fresh(1));
    let p2 = rat(&mut ctx, 2);
    let p1 = rat(&mut ctx, 1);
    let v1 = ctx.add(&Symbolic::Fresh(2));
    let v2 = ctx.add(&Symbolic::Fresh(3));

    let h1 = Heap::empty().with_chunk(a, Chunk::new(p2, v1));
    let h2 = Heap::empty().with_chunk(b, Chunk::new(p1, v2));

    ctx.union(a, b);
    ctx.rebuild();

    let result = heap_subtract(&mut ctx, &h1, &h2, &vec![]).ok().expect("subtract should succeed");

    let canon = ctx.graph.find(a);
    let chunk = result.chunk(canon).expect("result chunk missing");
    let expected_perm = rat(&mut ctx, 1);
    ctx.rebuild();
    assert_eq!(ctx.graph.find(chunk.perm), ctx.graph.find(expected_perm));
    assert_eq!(ctx.graph.find(v1), ctx.graph.find(v2));
}

#[test]
fn method_heap_subtract_exact_match_drops_chunk() {
    let mut ctx = fresh_ctx();
    let a = ctx.add(&Symbolic::Fresh(0));
    let p1 = rat(&mut ctx, 1);
    let v1 = ctx.add(&Symbolic::Fresh(2));
    let v2 = ctx.add(&Symbolic::Fresh(3));

    let h1 = Heap::empty().with_chunk(a, Chunk::new(p1, v1));
    let h2 = Heap::empty().with_chunk(a, Chunk::new(p1, v2));

    let result = heap_subtract(&mut ctx, &h1, &h2, &vec![]).ok().expect("subtract should succeed");

    let canon = ctx.graph.find(a);
    assert!(result.chunk(canon).is_none());
}

#[test]
fn method_heap_subtract_over_consume_fails() {
    let mut ctx = fresh_ctx();
    let a = ctx.add(&Symbolic::Fresh(0));
    let p1 = rat(&mut ctx, 1);
    let p2 = rat(&mut ctx, 2);
    let v1 = ctx.add(&Symbolic::Fresh(2));
    let v2 = ctx.add(&Symbolic::Fresh(3));

    let h1 = Heap::empty().with_chunk(a, Chunk::new(p1, v1));
    let h2 = Heap::empty().with_chunk(a, Chunk::new(p2, v2));

    let err = heap_subtract(&mut ctx, &h1, &h2, &vec![])
        .err()
        .expect("over-consumption must fail");
    assert!(matches!(err.root_cause(), VerifyError::InsufficientPermission));
}

#[test]
fn method_heap_subtract_missing_addr_fails() {
    let mut ctx = fresh_ctx();
    let a = ctx.add(&Symbolic::Fresh(0));
    let _b = ctx.add(&Symbolic::Fresh(1));
    let p1 = rat(&mut ctx, 1);
    let v1 = ctx.add(&Symbolic::Fresh(2));

    let h1 = Heap::empty();
    let h2 = Heap::empty().with_chunk(a, Chunk::new(p1, v1));

    let err = heap_subtract(&mut ctx, &h1, &h2, &vec![])
        .err()
        .expect("subtract from empty must fail");
    assert!(matches!(err.root_cause(), VerifyError::InsufficientPermission));
}

#[test]
fn graft_transfers_nonzero_knowledge() {
    let mut rctx = fresh_ctx();
    let d = rctx.add(&Symbolic::Fresh(0));
    let d_ne0 = ne_zero(&mut rctx, d);
    let r_true = boolean(&mut rctx, true);
    rctx.union(d_ne0, r_true);
    rctx.rebuild();
    rctx.saturate();
    let cert = ResourceCertificate {
        graph: rctx.graph.copy(),
        types: Oracle::new(),
        params: vec![rctx.graph.find(d)],
        delta: vec![],
        bool_id: rctx.graph.find(d_ne0),
    };

    let mut cctx = fresh_ctx();
    let a = cctx.add(&Symbolic::Fresh(0));
    let _ = graft_certificate(&mut cctx, &cert, &vec![a]);
    cctx.rebuild();

    let a_ne0 = ne_zero(&mut cctx, a);
    let c_true = boolean(&mut cctx, true);
    cctx.saturate();
    assert_eq!(cctx.graph.find(a_ne0), cctx.graph.find(c_true));
}

#[test]
fn inhale_accumulates_permissions_for_repeated_address() {
    let mut ctx = fresh_ctx();
    let seven = Int::from_i64(7);
    let heap_exp = HeapExp {
        insts: vec![
            ExpInst::Acc {
                heap: HeapVal::Temp(0),
                addr: Val::Literal(Literal::Int(Int::from_i64(7))),
                perm: Val::Literal(fraction(1)),
            },
            ExpInst::Acc {
                heap: HeapVal::Temp(1),
                addr: Val::Literal(Literal::Int(Int::from_i64(7))),
                perm: Val::Literal(fraction(2)),
            },
        ],
        res_pure: Val::Literal(Literal::Bool(true)),
        res_impure: HeapVal::Temp(2),
    };

    let mut state = one_heap(Heap::empty());
    let out_heap = inhale_heap_exp(&mut ctx, &vec![], &heap_exp, &mut state).ok().expect("no quantifier");

    let addr = ctx.add(&Symbolic::Lit(Literal::Int(seven)));
    let perm = out_heap.perm_at(addr).expect("missing chunk for address");

    let zero = rat(&mut ctx, 0);
    let p1 = rat(&mut ctx, 1);
    let p2 = rat(&mut ctx, 2);
    let sum1 = ctx.add(&Symbolic::Binary(BinOp::AddR, [zero, p1]));
    let sum2 = ctx.add(&Symbolic::Binary(BinOp::AddR, [sum1, p2]));
    ctx.rebuild();

    assert_eq!(ctx.graph.find(perm), ctx.graph.find(sum2));
}

#[test]
fn inhale_assumes_final_pure_result_true() {
    let mut ctx = fresh_ctx();
    let heap_exp = HeapExp {
        insts: vec![],
        res_pure: Val::Literal(Literal::Bool(false)),
        res_impure: HeapVal::Temp(0),
    };

    let mut state = one_heap(Heap::empty());
    let out = inhale_heap_exp(&mut ctx, &vec![], &heap_exp, &mut state);
    assert!(out.is_ok());

    let false_ = boolean(&mut ctx, false);
    let true_ = boolean(&mut ctx, true);
    assert_eq!(ctx.graph.find(false_), ctx.graph.find(true_));
}

#[test]
fn inhale_keeps_existing_value_for_existing_address() {
    let mut ctx = fresh_ctx();
    let addr = whole(&mut ctx, 3);
    let seed = ctx.add(&Symbolic::Fresh(1000));
    let zero = rat(&mut ctx, 0);
    let input_heap = Heap::empty().with_chunk(addr, Chunk::new(zero, seed));

    let heap_exp = HeapExp {
        insts: vec![ExpInst::Acc {
            heap: HeapVal::Temp(0),
            addr: Val::Literal(Literal::Int(Int::from_i64(3))),
            perm: Val::Literal(fraction(1)),
        }],
        res_pure: Val::Literal(Literal::Bool(true)),
        res_impure: HeapVal::Temp(1),
    };

    let mut state = one_heap(input_heap);
    let out_heap = inhale_heap_exp(&mut ctx, &vec![], &heap_exp, &mut state).ok().expect("no quantifier");
    let value = out_heap.value_at(addr).expect("missing chunk value");
    assert_eq!(ctx.graph.find(value), ctx.graph.find(seed));
}
