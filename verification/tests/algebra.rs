use silver_oxide::context::Context;
use silver_oxide::heap::alias::{chunk_under_pc, pc_alias_partners};
use silver_oxide::heap::chunk::{Chunk, Kinds, LocationKind};
use silver_oxide::heap::cube::{cube_entails, cube_eq, cube_meet, cube_push};
use silver_oxide::heap::debit::prove_no_demand;
use silver_oxide::heap::enough::{prove_perm_positive, prove_sufficient};
use silver_oxide::heap::flow::merge_heaps;
use silver_oxide::heap::groups::Heap;
use silver_oxide::heap::perm::ChunkPerm;
use silver_oxide::heap::sign::{perm_known_positive, positivity_known};
use silver_oxide::heap::subtract::{heap_subtract, Demand};
use silver_oxide::heap::sum::union_heaps;
use silver_oxide::heap::summary::{perm_held_at, summarize_perm_at};
use silver_oxide::heap::union::heap_union;
use silver_oxide::lang::{Id, Symbolic};
use silver_oxide::method::error::VerifyError;
use silver_oxide::nums::{Int, Rat};
use silver_oxide::prove::is_inconsistent;
use silver_oxide::rewrite::names::{reduce_rules, rules};
use silver_oxide::vmir::{BinOp, Bound, Literal, Polarity, Type, Val};

fn fresh_ctx() -> Context {
    Context::new(rules(&vec![]), reduce_rules(&vec![]), vec![], std::rc::Rc::new(vec![]))
}

fn rat(ctx: &mut Context, n: i64, d: i64) -> Id {
    let q = Rat::new(&Int::from_i64(n), &Int::from_i64(d));
    ctx.add(&Symbolic::Lit(Literal::Real(q)))
}

fn boolean(ctx: &mut Context, b: bool) -> Id {
    ctx.add(&Symbolic::Lit(Literal::Bool(b)))
}

fn symbols(ctx: &mut Context, n: u32) -> Vec<Id> {
    (0..n).map(|k| ctx.add(&Symbolic::Fresh(k))).collect()
}

fn unbounded() -> Kinds {
    let mut kinds = Kinds::new();
    kinds.intern(LocationKind { group: 0, value: Type::Int, bound: Bound::Unbounded });
    kinds
}

fn take(
    ctx: &mut Context,
    h: &Heap,
    addr: Id,
    perm: Id,
    value: Id,
    pc: &Vec<(Id, Polarity)>,
) -> Result<Heap, VerifyError> {
    heap_subtract(ctx, h, 0, &Chunk::new(addr, perm, value), pc, Demand::Concrete)
}

#[test]
fn a_comparison_known_to_be_true_shows_a_share_positive() {
    let mut ctx = fresh_ctx();
    let ids = symbols(&mut ctx, 2);
    let zero = rat(&mut ctx, 0, 1);
    let above = ctx.add(&Symbolic::Binary(BinOp::LtR, [zero, ids[0]]));
    assert!(!positivity_known(&ctx.graph, ids[0]));
    let yes = boolean(&mut ctx, true);
    ctx.union(above, yes);
    ctx.rebuild();
    assert!(positivity_known(&ctx.graph, ids[0]));
    assert!(!positivity_known(&ctx.graph, ids[1]));
    let half = rat(&mut ctx, 1, 2);
    assert!(perm_known_positive(&ctx.graph, half));
    assert!(!perm_known_positive(&ctx.graph, zero));
}

#[test]
fn demands_are_proved_on_the_path() {
    let mut ctx = fresh_ctx();
    let c = symbols(&mut ctx, 1)[0];
    let half = rat(&mut ctx, 1, 2);
    let zero = rat(&mut ctx, 0, 1);
    let p = ctx.add(&Symbolic::Ite([c, half, zero]));
    ctx.rebuild();
    let on = vec![(c, Polarity::Positive)];
    let off = vec![(c, Polarity::Negative)];
    assert!(prove_no_demand(&mut ctx, p, &off));
    assert!(!prove_no_demand(&mut ctx, p, &on));
    assert!(prove_perm_positive(&mut ctx, &ChunkPerm::leaf(p), &on));
    assert!(!prove_perm_positive(&mut ctx, &ChunkPerm::leaf(p), &off));
    assert!(prove_sufficient(&mut ctx, &ChunkPerm::leaf(half), half, &vec![]));
    let one = rat(&mut ctx, 1, 1);
    assert!(!prove_sufficient(&mut ctx, &ChunkPerm::leaf(half), one, &vec![]));
}

#[test]
fn addresses_that_are_one_on_the_path_share_a_chunk() {
    let mut ctx = fresh_ctx();
    let ids = symbols(&mut ctx, 4);
    let (a, b, v, w) = (ids[0], ids[1], ids[2], ids[3]);
    let one = rat(&mut ctx, 1, 1);
    let eq = ctx.add(&Symbolic::Binary(BinOp::Eq, [a, b]));
    let same = vec![(eq, Polarity::Positive)];
    let chunks = vec![Chunk::new(a, one, v)];
    assert_eq!(chunk_under_pc(&mut ctx, &chunks, b, &same), Some(0));
    assert_eq!(chunk_under_pc(&mut ctx, &chunks, b, &vec![]), None);
    assert_eq!(chunk_under_pc(&mut ctx, &chunks, a, &vec![]), Some(0));
    assert_eq!(pc_alias_partners(&mut ctx, &chunks, b, &same), vec![a]);
    assert_eq!(pc_alias_partners(&mut ctx, &chunks, b, &vec![]), Vec::<Id>::new());

    let h = Heap::empty().with_chunk(0, Chunk::new(a, one, v));
    let missing = take(&mut ctx, &h, b, one, w, &vec![]);
    assert!(matches!(missing, Err(VerifyError::InsufficientPermission)));
    assert!(take(&mut ctx, &h, b, one, w, &same).is_ok());
}

#[test]
fn shares_at_one_address_are_summed() {
    let mut ctx = fresh_ctx();
    let ids = symbols(&mut ctx, 5);
    let (a, b, c, v, w) = (ids[0], ids[1], ids[2], ids[3], ids[4]);
    let half = rat(&mut ctx, 1, 2);
    let third = rat(&mut ctx, 1, 3);
    let chunks = vec![Chunk::new(a, half, v), Chunk::new(b, third, w)];
    let ab = ctx.add(&Symbolic::Binary(BinOp::Eq, [a, b]));
    let ca = ctx.add(&Symbolic::Binary(BinOp::Eq, [c, a]));
    let path = vec![(ab, Polarity::Positive), (ca, Polarity::Positive)];
    let (sum, members) = summarize_perm_at(&mut ctx, &chunks, c, &path);
    assert_eq!(members.len(), 2);
    let five_sixths = rat(&mut ctx, 5, 6);
    assert!(prove_sufficient(&mut ctx, &sum, five_sixths, &path));
    let held = perm_held_at(&mut ctx, &chunks, c, &path);
    assert!(prove_sufficient(&mut ctx, &ChunkPerm::leaf(held), five_sixths, &path));
    let one = rat(&mut ctx, 1, 1);
    assert!(!prove_sufficient(&mut ctx, &sum, one, &path));
}

#[test]
fn heaps_are_united_chunk_by_chunk() {
    let mut ctx = fresh_ctx();
    let ids = symbols(&mut ctx, 4);
    let (a, b, v, w) = (ids[0], ids[1], ids[2], ids[3]);
    let half = rat(&mut ctx, 1, 2);
    let one = rat(&mut ctx, 1, 1);
    let x = Heap::empty().with_chunk(0, Chunk::new(a, half, v));
    let y = Heap::empty()
        .with_chunk(0, Chunk::new(a, half, w))
        .with_chunk(0, Chunk::new(b, half, w));
    let both = union_heaps(&mut ctx, &x, &y, &vec![]);
    assert_eq!(both.chunks_of(0).len(), 2);
    assert!(take(&mut ctx, &both, a, one, v, &vec![]).is_ok());
    assert!(take(&mut ctx, &both, b, half, w, &vec![]).is_ok());
    assert!(take(&mut ctx, &both, b, one, w, &vec![]).is_err());
    // Both halves were held, so the values are one.
    assert_eq!(ctx.graph.find(v), ctx.graph.find(w));
}

#[test]
fn joined_branches_hold_what_the_branch_held() {
    let mut ctx = fresh_ctx();
    let ids = symbols(&mut ctx, 3);
    let (a, c, v) = (ids[0], ids[1], ids[2]);
    let one = rat(&mut ctx, 1, 1);
    let full = Heap::empty().with_chunk(0, Chunk::new(a, one, v));
    let joined = merge_heaps(&mut ctx, &unbounded(), c, &full, &Heap::empty());
    assert_eq!(joined.chunks_of(0).len(), 1);
    let on = vec![(c, Polarity::Positive)];
    let off = vec![(c, Polarity::Negative)];
    assert!(take(&mut ctx, &joined, a, one, v, &on).is_ok());
    assert!(take(&mut ctx, &joined, a, one, v, &off).is_err());
    assert!(take(&mut ctx, &joined, a, one, v, &vec![]).is_err());
}

#[test]
fn what_is_taken_can_be_given_back() {
    let mut ctx = fresh_ctx();
    let ids = symbols(&mut ctx, 2);
    let (a, v) = (ids[0], ids[1]);
    let one = rat(&mut ctx, 1, 1);
    let third = rat(&mut ctx, 1, 3);
    let h = Heap::empty().with_chunk(0, Chunk::new(a, one, v));
    let rest = take(&mut ctx, &h, a, third, v, &vec![]).ok().expect("a third is held");
    assert!(take(&mut ctx, &rest, a, one, v, &vec![]).is_err());
    let back = heap_union(&mut ctx, &unbounded(), &rest, 0, Chunk::new(a, third, v), &vec![]);
    assert!(take(&mut ctx, &back, a, one, v, &vec![]).is_ok());
}

#[test]
fn a_wildcard_leaves_something_behind() {
    let mut ctx = fresh_ctx();
    let ids = symbols(&mut ctx, 2);
    let (a, v) = (ids[0], ids[1]);
    let half = rat(&mut ctx, 1, 2);
    let h = Heap::empty().with_chunk(0, Chunk::new(a, half, v));
    let w = ctx.fresh_wildcard();
    let demand = Chunk::new_perm(a, ChunkPerm::wild_leaf(w), v);
    let out = heap_subtract(&mut ctx, &h, 0, &demand, &vec![], Demand::Wildcard);
    let out = out.ok().expect("some share is held");
    assert_eq!(out.chunks_of(0).len(), 1);
    assert!(take(&mut ctx, &out, a, half, v, &vec![]).is_err());
    let none = heap_subtract(&mut ctx, &Heap::empty(), 0, &demand, &vec![], Demand::Wildcard);
    assert!(matches!(none, Err(VerifyError::InsufficientPermission)));
}

#[test]
fn cubes_meet_where_they_agree() {
    let mut ctx = fresh_ctx();
    let ids = symbols(&mut ctx, 3);
    let yes = |k: usize| (ids[k], Polarity::Positive);
    let no = |k: usize| (ids[k], Polarity::Negative);
    let g = &ctx.graph;
    let met = cube_meet(g, &vec![yes(0), no(1)], &vec![no(1), yes(2)]).expect("they agree");
    assert!(cube_eq(g, &met, &vec![yes(0), no(1), yes(2)]));
    assert!(cube_meet(g, &vec![yes(0)], &vec![no(0)]).is_none());
    assert!(cube_entails(g, &met, &vec![yes(2)]));
    assert!(!cube_entails(g, &vec![yes(2)], &met));
    assert_eq!(cube_push(g, &vec![yes(0)], yes(0)).len(), 1);
    assert_eq!(cube_push(g, &vec![yes(0)], no(1)).len(), 2);
}

#[test]
fn a_contradiction_is_seen() {
    let mut ctx = fresh_ctx();
    let (yes, no) = (boolean(&mut ctx, true), boolean(&mut ctx, false));
    assert!(!is_inconsistent(&ctx.graph));
    ctx.union(yes, no);
    ctx.rebuild();
    assert!(is_inconsistent(&ctx.graph));
}

#[test]
fn cubes_are_compared_as_sets() {
    let mut ctx = fresh_ctx();
    let ids = symbols(&mut ctx, 2);
    let yes = |k: usize| (ids[k], Polarity::Positive);
    let g = &ctx.graph;
    assert!(cube_eq(g, &vec![yes(0), yes(0)], &vec![yes(0)]));
    assert!(!cube_eq(g, &vec![yes(0), yes(0)], &vec![yes(0), yes(1)]));
    assert!(cube_eq(g, &vec![], &vec![]));
}

#[test]
fn united_heaps_keep_the_total() {
    // Two chunks of one heap are at one address: each adds to what is held there.
    let mut ctx = fresh_ctx();
    let ids = symbols(&mut ctx, 4);
    let (a, b, v, w) = (ids[0], ids[1], ids[2], ids[3]);
    let third = rat(&mut ctx, 1, 3);
    let one = rat(&mut ctx, 1, 1);
    let x = Heap::empty().with_chunk(0, Chunk::new(a, third, v));
    let y = Heap::empty()
        .with_chunk(0, Chunk::new(a, third, v))
        .with_chunk(0, Chunk::new(b, third, w));
    ctx.union(a, b);
    ctx.saturate();
    let both = union_heaps(&mut ctx, &x, &y, &vec![]);
    assert!(take(&mut ctx, &both, a, one, v, &vec![]).is_ok());
}

#[test]
fn a_joined_value_has_no_recipe_of_one_branch() {
    let mut ctx = fresh_ctx();
    let ids = symbols(&mut ctx, 4);
    let (a, c, v, w) = (ids[0], ids[1], ids[2], ids[3]);
    let one = rat(&mut ctx, 1, 1);
    let from = |n: usize| Some(std::rc::Rc::new(Val::Temp(n)));
    let heap = |value: Id, n: usize| {
        Heap::empty().with_chunk(0, Chunk::new(a, one, value).with_recipe(from(n)))
    };
    let differ = merge_heaps(&mut ctx, &unbounded(), c, &heap(v, 0), &heap(w, 1));
    assert!(differ.chunks_of(0)[0].recipe.is_none());
    let same = merge_heaps(&mut ctx, &unbounded(), c, &heap(v, 0), &heap(v, 0));
    assert!(same.chunks_of(0)[0].recipe.is_some());
    assert_eq!(same.chunks_of(0)[0].value, v);
}
