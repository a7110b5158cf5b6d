use silver_oxide::context::Context;
use silver_oxide::heap::bounds::assume_location_axioms;
use silver_oxide::heap::chunk::{Chunk, Kinds, LocationKind};
use silver_oxide::heap::groups::Heap;
use silver_oxide::heap::subtract::{heap_subtract, Demand};
use silver_oxide::heap::union::heap_union;
use silver_oxide::lang::{FuncId, Id, Symbolic};
use silver_oxide::method::error::VerifyError;
use silver_oxide::nums::{Int, Rat};
use silver_oxide::prove::is_inconsistent;
use silver_oxide::rewrite::names::{reduce_rules, rules};
use silver_oxide::vmir::{BinOp, Bound, Literal, Polarity, Type};

fn fresh_ctx() -> Context {
    Context::new(rules(&vec![]), reduce_rules(&vec![]), vec![], std::rc::Rc::new(vec![]))
}

fn rat(ctx: &mut Context, n: i64, d: i64) -> Id {
    ctx.add(&Symbolic::Lit(Literal::Real(Rat::new(
        &Int::from_i64(n),
        &Int::from_i64(d),
    ))))
}

fn boolean(ctx: &mut Context, b: bool) -> Id {
    ctx.add(&Symbolic::Lit(Literal::Bool(b)))
}

// One kind without a bound: no axioms about locations come of it.
fn test_kinds() -> Kinds {
    let mut kinds = Kinds::new();
    let k = kinds.intern(LocationKind { group: 0, value: Type::Int, bound: Bound::Unbounded });
    assert_eq!(k, 0);
    kinds
}

#[test]
fn multiarg_location_nonaliasing_all_args_equal_is_inconsistent() {
    let mut ctx = fresh_ctx();
    let addr_ty = Type::addr(
        0,
        Type::Int,
        Bound::Bounded(Rat::new(&Int::from_i64(1), &Int::from_i64(1))),
    );
    let addr_fn = FuncId(0);
    let (x0, y0) = (ctx.add(&Symbolic::Fresh(0)), ctx.add(&Symbolic::Fresh(1)));
    let (x1, y1) = (ctx.add(&Symbolic::Fresh(2)), ctx.add(&Symbolic::Fresh(3)));
    let a0 = ctx.add(&Symbolic::FuncApp(addr_fn, vec![], vec![x0, y0]));
    let a1 = ctx.add(&Symbolic::FuncApp(addr_fn, vec![], vec![x1, y1]));
    let mut kinds = Kinds::new();
    let k = kinds.intern(LocationKind::from_addr_type(&addr_ty).unwrap());
    let (v0, v1) = (ctx.add(&Symbolic::Fresh(4)), ctx.add(&Symbolic::Fresh(5)));
    let (p0, p1) = (rat(&mut ctx, 3, 4), rat(&mut ctx, 1, 2));
    let heap = Heap::empty()
        .with_chunk(k, Chunk::new(a0, p0, v0))
        .with_chunk(k, Chunk::new(a1, p1, v1));

    let true_ = boolean(&mut ctx, true);
    for (a, b) in [(x0, x1), (y0, y1)] {
        let eq = ctx.add(&Symbolic::Binary(BinOp::Eq, [a, b]));
        ctx.union(eq, true_);
    }
    ctx.rebuild();

    assume_location_axioms(&mut ctx, &kinds, &heap);
    ctx.saturate();
    assert!(is_inconsistent(&ctx.graph));
}

#[test]
fn algebra_heap_union_merges_egg_equivalent_addresses() {
    let mut ctx = fresh_ctx();
    let kinds = test_kinds();
    let a = ctx.add(&Symbolic::Fresh(0));
    let b = ctx.add(&Symbolic::Fresh(1));
    let p1 = rat(&mut ctx, 1, 1);
    let p2 = rat(&mut ctx, 2, 1);
    let v1 = ctx.add(&Symbolic::Fresh(2));
    let v2 = ctx.add(&Symbolic::Fresh(3));

    let h1 = Heap::empty().with_chunk(0, Chunk::new(a, p1, v1));
    ctx.union(a, b);
    ctx.rebuild();

    let merged = heap_union(&mut ctx, &kinds, &h1, 0, Chunk::new(b, p2, v2), &vec![]);

    let canon = ctx.graph.find(a);
    let chunk = merged.chunk(0, canon).expect("merged chunk missing");

    let expected_perm = ctx.add(&Symbolic::Binary(BinOp::AddR, [p1, p2]));
    ctx.saturate();
    assert_eq!(ctx.graph.find(chunk.perm_repr_id()), ctx.graph.find(expected_perm));
    assert_eq!(ctx.graph.find(v1), ctx.graph.find(v2));
    assert_eq!(ctx.graph.find(chunk.value), ctx.graph.find(v1));
    assert_eq!(merged.entries().len(), 1);
}

#[test]
fn subtract_consolidates_post_hoc_aliased_chunks() {
    let mut ctx = fresh_ctx();
    let a = ctx.add(&Symbolic::Fresh(0));
    let b = ctx.add(&Symbolic::Fresh(1));
    let half = rat(&mut ctx, 1, 2);
    let (v0, v1) = (ctx.add(&Symbolic::Fresh(2)), ctx.add(&Symbolic::Fresh(3)));
    let h = Heap::empty()
        .with_chunk(0, Chunk::new(a, half, v0))
        .with_chunk(0, Chunk::new(b, half, v1));
    assert_eq!(h.entries().len(), 2);

    ctx.union(a, b);
    ctx.rebuild();

    let one = rat(&mut ctx, 1, 1);
    let out = heap_subtract(
        &mut ctx,
        &h,
        0,
        &Chunk::new(a, one, v0),
        &vec![],
        Demand::Concrete,
    )
    .ok()
    .expect("full permission is held across the two aliased fragments");
    assert_eq!(out.entries().len(), 0);
}

#[test]
fn give_back_restores_full_permission() {
    let mut ctx = fresh_ctx();
    let kinds = test_kinds();
    let a = ctx.add(&Symbolic::Fresh(0));
    let c = ctx.add(&Symbolic::Fresh(1));
    let one = rat(&mut ctx, 1, 1);
    let zero = rat(&mut ctx, 0, 1);
    let p = ctx.add(&Symbolic::Ite([c, one, zero]));
    let rest = ctx.add(&Symbolic::Binary(BinOp::SubR, [one, p]));
    let (v0, v1) = (ctx.add(&Symbolic::Fresh(2)), ctx.add(&Symbolic::Fresh(3)));

    let h = Heap::empty().with_chunk(0, Chunk::new(a, rest, v0));
    let out = heap_union(&mut ctx, &kinds, &h, 0, Chunk::new(a, p, v1), &vec![]);
    let chunk = out.chunk(0, ctx.graph.find(a)).expect("merged chunk missing");
    ctx.saturate();
    assert_eq!(ctx.graph.find(chunk.perm_repr_id()), ctx.graph.find(one));
}

#[test]
fn algebra_merge_zero_fraction_picks_active_value() {
    let mut ctx = fresh_ctx();
    let kinds = test_kinds();
    let a = ctx.add(&Symbolic::Fresh(0));
    let p0 = rat(&mut ctx, 0, 1);
    let p1 = rat(&mut ctx, 1, 1);
    let v0 = ctx.add(&Symbolic::Fresh(1));
    let v1 = ctx.add(&Symbolic::Fresh(2));

    let h1 = Heap::empty().with_chunk(0, Chunk::new(a, p0, v0));
    let merged = heap_union(&mut ctx, &kinds, &h1, 0, Chunk::new(a, p1, v1), &vec![]);
    let chunk = merged.chunk(0, ctx.graph.find(a)).expect("merged chunk missing");
    ctx.saturate();

    assert_eq!(ctx.graph.find(chunk.value), ctx.graph.find(v1));
    assert_ne!(ctx.graph.find(v0), ctx.graph.find(v1));
}

#[test]
fn algebra_merge_both_active_fuses_values() {
    let mut ctx = fresh_ctx();
    let kinds = test_kinds();
    let a = ctx.add(&Symbolic::Fresh(0));
    let p0 = rat(&mut ctx, 1, 1);
    let p1 = rat(&mut ctx, 1, 1);
    let v0 = ctx.add(&Symbolic::Fresh(1));
    let v1 = ctx.add(&Symbolic::Fresh(2));

    let h1 = Heap::empty().with_chunk(0, Chunk::new(a, p0, v0));
    let merged = heap_union(&mut ctx, &kinds, &h1, 0, Chunk::new(a, p1, v1), &vec![]);
    let chunk = merged.chunk(0, ctx.graph.find(a)).expect("merged chunk missing");
    ctx.saturate();

    assert_eq!(ctx.graph.find(v0), ctx.graph.find(v1));
    assert_eq!(ctx.graph.find(chunk.value), ctx.graph.find(v0));
}

#[test]
fn algebra_merge_under_false_pc_blocks_fusion() {
    let mut ctx = fresh_ctx();
    let kinds = test_kinds();
    let a = ctx.add(&Symbolic::Fresh(0));
    let p0 = rat(&mut ctx, 1, 1);
    let p1 = rat(&mut ctx, 1, 1);
    let v0 = ctx.add(&Symbolic::Fresh(1));
    let v1 = ctx.add(&Symbolic::Fresh(2));
    let false_lit = boolean(&mut ctx, false);

    let h1 = Heap::empty().with_chunk(0, Chunk::new(a, p0, v0));
    let merged = heap_union(
        &mut ctx,
        &kinds,
        &h1,
        0,
        Chunk::new(a, p1, v1),
        &vec![(false_lit, Polarity::Positive)],
    );
    let chunk = merged.chunk(0, ctx.graph.find(a)).expect("merged chunk missing");
    ctx.saturate();

    assert_ne!(ctx.graph.find(v0), ctx.graph.find(v1));
    assert_eq!(ctx.graph.find(chunk.value), ctx.graph.find(v0));
}

#[test]
fn algebra_merge_under_true_pc_allows_fusion() {
    let mut ctx = fresh_ctx();
    let kinds = test_kinds();
    let a = ctx.add(&Symbolic::Fresh(0));
    let p0 = rat(&mut ctx, 1, 1);
    let p1 = rat(&mut ctx, 1, 1);
    let v0 = ctx.add(&Symbolic::Fresh(1));
    let v1 = ctx.add(&Symbolic::Fresh(2));
    let true_lit = boolean(&mut ctx, true);

    let h1 = Heap::empty().with_chunk(0, Chunk::new(a, p0, v0));
    let merged = heap_union(
        &mut ctx,
        &kinds,
        &h1,
        0,
        Chunk::new(a, p1, v1),
        &vec![(true_lit, Polarity::Positive)],
    );
    let _chunk = merged.chunk(0, ctx.graph.find(a)).expect("merged chunk missing");
    ctx.saturate();

    assert_eq!(ctx.graph.find(v0), ctx.graph.find(v1));
}

#[test]
fn algebra_subtract_symbolic_perm_fails_without_proof() {
    let mut ctx = fresh_ctx();
    let a = ctx.add(&Symbolic::Fresh(0));
    let p_have = ctx.add(&Symbolic::Fresh(1));
    let p_take = ctx.add(&Symbolic::Fresh(2));
    let v1 = ctx.add(&Symbolic::Fresh(3));
    let v2 = ctx.add(&Symbolic::Fresh(4));

    let h1 = Heap::empty().with_chunk(0, Chunk::new(a, p_have, v1));
    let err = heap_subtract(
        &mut ctx,
        &h1,
        0,
        &Chunk::new(a, p_take, v2),
        &vec![],
        Demand::Concrete,
    )
    .err()
    .expect("symbolic-perm exhale must fail without a proof");
    assert!(matches!(err.root_cause(), VerifyError::InsufficientPermission));
}

#[test]
fn algebra_heap_subtract_canonical_match() {
    let mut ctx = fresh_ctx();
    let a = ctx.add(&Symbolic::Fresh(0));
    let b = ctx.add(&Symbolic::Fresh(1));
    let p2 = rat(&mut ctx, 2, 1);
    let p1 = rat(&mut ctx, 1, 1);
    let v1 = ctx.add(&Symbolic::Fresh(2));
    let v2 = ctx.add(&Symbolic::Fresh(3));

    let h1 = Heap::empty().with_chunk(0, Chunk::new(a, p2, v1));
    ctx.union(a, b);
    ctx.rebuild();

    let result = heap_subtract(
        &mut ctx,
        &h1,
        0,
        &Chunk::new(b, p1, v2),
        &vec![],
        Demand::Concrete,
    )
    .ok()
    .expect("subtract should succeed");

    let canon = ctx.graph.find(a);
    let chunk = result.chunk(0, canon).expect("result chunk missing");
    let expected_perm = rat(&mut ctx, 1, 1);
    ctx.rebuild();
    assert_eq!(ctx.graph.find(chunk.perm_repr_id()), ctx.graph.find(expected_perm));
    assert_eq!(ctx.graph.find(v1), ctx.graph.find(v2));
}

#[test]
fn algebra_heap_subtract_exact_match_drops_chunk() {
    let mut ctx = fresh_ctx();
    let a = ctx.add(&Symbolic::Fresh(0));
    let p1 = rat(&mut ctx, 1, 1);
    let v1 = ctx.add(&Symbolic::Fresh(2));
    let v2 = ctx.add(&Symbolic::Fresh(3));

    let h1 = Heap::empty().with_chunk(0, Chunk::new(a, p1, v1));
    let result = heap_subtract(
        &mut ctx,
        &h1,
        0,
        &Chunk::new(a, p1, v2),
        &vec![],
        Demand::Concrete,
    )
    .ok()
    .expect("subtract should succeed");

    let canon = ctx.graph.find(a);
    assert!(result.chunk(0, canon).is_none());
}

#[test]
fn algebra_heap_subtract_over_consume_fails() {
    let mut ctx = fresh_ctx();
    let a = ctx.add(&Symbolic::Fresh(0));
    let p1 = rat(&mut ctx, 1, 1);
    let p2 = rat(&mut ctx, 2, 1);
    let v1 = ctx.add(&Symbolic::Fresh(2));
    let v2 = ctx.add(&Symbolic::Fresh(3));

    let h1 = Heap::empty().with_chunk(0, Chunk::new(a, p1, v1));
    let err = heap_subtract(
        &mut ctx,
        &h1,
        0,
        &Chunk::new(a, p2, v2),
        &vec![],
        Demand::Concrete,
    )
    .err()
    .expect("over-consumption must fail");
    assert!(matches!(err.root_cause(), VerifyError::InsufficientPermission));
}

#[test]
fn algebra_heap_subtract_missing_addr_fails() {
    let mut ctx = fresh_ctx();
    let a = ctx.add(&Symbolic::Fresh(0));
    let _b = ctx.add(&Symbolic::Fresh(1));
    let p1 = rat(&mut ctx, 1, 1);
    let v1 = ctx.add(&Symbolic::Fresh(2));

    let h1 = Heap::empty();
    let err = heap_subtract(
        &mut ctx,
        &h1,
        0,
        &Chunk::new(a, p1, v1),
        &vec![],
        Demand::Concrete,
    )
    .err()
    .expect("subtract from empty must fail");
    assert!(matches!(err.root_cause(), VerifyError::InsufficientPermission));
}

#[test]
fn no_share_is_always_there_to_take() {
    let mut ctx = fresh_ctx();
    let a = ctx.add(&Symbolic::Fresh(0));
    let v = ctx.add(&Symbolic::Fresh(1));
    let none = rat(&mut ctx, 0, 1);
    let demand = Chunk::new(a, none, v);
    let out = heap_subtract(&mut ctx, &Heap::empty(), 0, &demand, &vec![], Demand::Concrete);
    assert_eq!(out.ok().expect("nothing is asked for").entries().len(), 0);
}

#[test]
fn shares_of_one_class_are_taken_up_to_their_sum() {
    let take = |n: i64, d: i64| {
        let mut ctx = fresh_ctx();
        let ids: Vec<Id> = (0..3).map(|k| ctx.add(&Symbolic::Fresh(k))).collect();
        let v = ctx.add(&Symbolic::Fresh(9));
        let mut h = Heap::empty();
        for (k, (n, d)) in [(1, 2), (1, 4), (1, 4)].into_iter().enumerate() {
            let p = rat(&mut ctx, n, d);
            h = h.with_chunk(0, Chunk::new(ids[k], p, v));
        }
        ctx.union(ids[0], ids[1]);
        ctx.union(ids[1], ids[2]);
        ctx.rebuild();
        let p = rat(&mut ctx, n, d);
        let demand = Chunk::new(ids[0], p, v);
        heap_subtract(&mut ctx, &h, 0, &demand, &vec![], Demand::Concrete)
    };
    assert_eq!(take(1, 1).ok().expect("the shares sum to it").entries().len(), 0);
    assert!(take(3, 4).is_ok());
    let err = take(5, 4).err().expect("more than is there");
    assert!(matches!(err.root_cause(), VerifyError::InsufficientPermission));
}

#[test]
fn values_stay_apart_on_a_path_that_is_not_taken() {
    let mut ctx = fresh_ctx();
    let kinds = test_kinds();
    let a = ctx.add(&Symbolic::Fresh(0));
    let (v, w) = (ctx.add(&Symbolic::Fresh(1)), ctx.add(&Symbolic::Fresh(2)));
    let no = boolean(&mut ctx, false);
    let half = rat(&mut ctx, 1, 2);
    let left = Heap::empty().with_chunk(0, Chunk::new(a, half, v));
    let more = || Chunk::new(a, half, w);
    heap_union(&mut ctx, &kinds, &left, 0, more(), &vec![(no, Polarity::Positive)]);
    ctx.saturate();
    assert_ne!(ctx.graph.find(v), ctx.graph.find(w));
    heap_union(&mut ctx, &kinds, &left, 0, more(), &vec![]);
    ctx.saturate();
    assert_eq!(ctx.graph.find(v), ctx.graph.find(w));
}
