use silver_oxide::context::Context;
use silver_oxide::heap::chunk::Chunk;
use silver_oxide::heap::groups::Heap;
use silver_oxide::heap::trace::{MergeTrace, Tracer};
use silver_oxide::interner::Interner;
use silver_oxide::lang::{Discriminant, FuncId, Id, Symbolic};
use silver_oxide::method::error::VerifyError;
use silver_oxide::method::heap_exp::{value_type_in_heap_exp, ExpInst, HeapExp};
use silver_oxide::nums::{Int, Rat};
use silver_oxide::program::{HeapVal, PureInst};
use silver_oxide::rewrite::names::{reduce_rules, rules};
use silver_oxide::stats::{Iteration, VerifyStats};
use silver_oxide::text::{
    comes_before, insert_before_last, insert_behind, letters, number, replace_all,
    replace_first, split, trim,
};
use silver_oxide::types::{infer_type, lit_type, Oracle};
use silver_oxide::viz::{
    classes_below, cluster_color, dump_line, escape, heap_subgraph, join, mark_class, numbered,
    page, rename_node, rename_symbol, render_node, sanitize, snapshot, style_class, Edit, Labels,
    Pages,
};
use silver_oxide::vmir::{BinOp, Literal, Type, Val};

fn fresh_ctx() -> Context {
    Context::new(rules(&vec![]), reduce_rules(&vec![]), vec![], std::rc::Rc::new(vec![]))
}

fn whole(n: i64) -> Int {
    Int::from_i64(n)
}

fn part(n: i64, d: i64) -> Rat {
    Rat::new(&whole(n), &whole(d))
}

#[test]
fn integers_compute_beyond_machine_words() {
    let a = Int::parse("123456789012345678901234567890").expect("parses");
    assert_eq!(a.plus(&whole(10)).text(), "123456789012345678901234567900");
    assert_eq!(a.minus(&a).text(), "0");
    assert_eq!(a.times(&whole(-2)).text(), "-246913578024691357802469135780");
    assert_eq!(Int::from_usize(42).text(), "42");
    assert!(whole(-3).less(&whole(2)));
    assert!(!whole(2).less(&whole(2)));
    assert!(whole(2).same(&Int::parse("2").expect("parses")));
    assert!(Int::parse("2x").is_none());
}

#[test]
fn rationals_are_kept_in_lowest_terms() {
    assert_eq!(part(2, 4).text(), "1/2");
    assert_eq!(part(1, -2).text(), "-1/2");
    assert_eq!(part(1, 2).plus(&part(1, 3)).text(), "5/6");
    assert_eq!(part(1, 2).minus(&part(1, 3)).text(), "1/6");
    assert_eq!(part(2, 3).times(&part(3, 4)).text(), "1/2");
    assert_eq!(part(1, 2).over(&part(1, 4)).text(), "2");
    assert!(part(1, 3).less(&part(1, 2)));
    assert!(part(2, 4).same(&part(1, 2)));
    assert!(Rat::from_int(&whole(3)).same(&part(6, 2)));
    assert!(Rat::parse("3/4").expect("parses").same(&part(3, 4)));
    assert!(Rat::parse("three").is_none());
}

#[test]
fn tokens_are_read_as_terms() {
    assert_eq!(
        Symbolic::from_op("true", vec![]).ok(),
        Some(Symbolic::Lit(Literal::Bool(true)))
    );
    assert_eq!(Symbolic::from_op("null", vec![]).ok(), Some(Symbolic::Lit(Literal::Null)));
    assert_eq!(
        Symbolic::from_op("42", vec![]).ok(),
        Some(Symbolic::Lit(Literal::Int(whole(42))))
    );
    assert_eq!(
        Symbolic::from_op("3/4", vec![]).ok(),
        Some(Symbolic::Lit(Literal::Real(part(3, 4))))
    );
    assert_eq!(
        Symbolic::from_op("+r", vec![1, 2]).ok(),
        Some(Symbolic::Binary(BinOp::AddR, [1, 2]))
    );
    assert_eq!(Symbolic::from_op("ite", vec![3, 1, 2]).ok(), Some(Symbolic::Ite([3, 1, 2])));
    assert_eq!(Symbolic::from_op("real", vec![7]).ok(), Some(Symbolic::RealCast(7)));
}

#[test]
fn tokens_that_say_nothing_are_refused() {
    let refused = |op: &str, args: Vec<Id>| Symbolic::from_op(op, args).err().unwrap().text();
    assert_eq!(refused("huh", vec![]), "unknown leaf `huh`");
    assert_eq!(refused("huh", vec![1, 2]), "unknown op `huh`/2");
    assert_eq!(refused("+i", vec![1]), "`+i` expects 2 children");
    assert_eq!(
        refused("<", vec![1, 2]),
        "`<` is sort-ambiguous — write `<i` (Int) or `<r` (Real)"
    );
}

#[test]
fn operators_match_whatever_their_children() {
    let a = Symbolic::Binary(BinOp::AddI, [1, 2]);
    let b = Symbolic::Binary(BinOp::AddI, [3, 4]);
    let c = Symbolic::Binary(BinOp::SubI, [1, 2]);
    assert!(a.matches(&b));
    assert!(!a.matches(&c));
    let f = Symbolic::FuncApp(FuncId(1), vec![], vec![1]);
    let g = Symbolic::FuncApp(FuncId(1), vec![], vec![1, 2]);
    assert!(!f.matches(&g));
    assert_eq!(f.discriminant(), g.discriminant());
    assert_eq!(f.discriminant(), Discriminant::FuncApp(FuncId(1)));
    assert!(f.matches(&Symbolic::FuncApp(FuncId(1), vec![], vec![5])));
}

#[test]
fn texts_are_cut_and_joined() {
    assert_eq!(number(1205), "1205");
    assert_eq!(trim("  a b\t\n"), "a b");
    assert_eq!(split("a,,b", ','), vec!["a".to_string(), "".to_string(), "b".to_string()]);
    assert_eq!(letters("añ"), vec!['a', 'ñ']);
    assert_eq!(replace_all("aXbXc", "X", "--"), "a--b--c");
    assert_eq!(replace_first("aXbXc", "X", "--"), "a--bXc");
    assert_eq!(insert_behind("one two", "one", "!"), "one! two");
    assert_eq!(insert_before_last("{a}{b}", '}', ";"), "{a}{b;}");
    assert!(comes_before("ab", "b"));
    assert!(comes_before("a", "ab"));
    assert!(!comes_before("b", "ab"));
    assert!(!comes_before("a", "a"));
}

#[test]
fn names_keep_their_keys() {
    let (names, a) = Interner::new().with_name("Node");
    let (names, b) = names.with_name("List");
    let (names, again) = names.with_name("Node");
    assert_eq!((a, b, again), (0, 1, 0));
    assert_eq!(names.get("List"), Some(1));
    assert_eq!(names.get("Tree"), None);
    assert_eq!(names.name(0), Some("Node".to_string()));
    assert_eq!(names.name(2), None);
}

#[test]
fn labels_are_escaped_and_file_names_plain() {
    assert_eq!(escape("a\"b\\c"), "a\\\"b\\\\c");
    assert_eq!(sanitize("Node::next(0)"), "Node__next_0_");
    assert_eq!(numbered(7), "007");
    assert_eq!(numbered(42), "042");
    assert_eq!(numbered(1234), "1234");
    assert_eq!(cluster_color(Some(&Type::Int)), "#cce5ff");
    assert_eq!(cluster_color(None), "#e0e0e0");
    assert_eq!(join(&vec!["a".to_string(), "b".to_string(), "c".to_string()], ", "), "a, b, c");
}

#[test]
fn a_page_is_the_picture_with_its_edits() {
    let raw = "digraph egraph {\n  subgraph cluster_1 {\n    1.0[label = \"5\"]\n  }\n}\n";
    let renames = vec![rename_node(1, 0, "5", "x\"")];
    let styles = vec![style_class(1, "#cce5ff", Some("Int"), None), mark_class(1)];
    let text = page(raw, 3, "  heaps\n", "start", &renames, &styles);
    assert!(text.starts_with("digraph step_003 {\n  heaps\n"));
    assert!(text.contains("1.0[label = \"x\\\"\"]"));
    assert!(text.contains("bgcolor=\"#cce5ff\""));
    assert!(text.contains("label=\"Int\""));
    assert!(text.contains("    color=red\n    penwidth=3\n"));
    assert!(text.contains("start"));
    assert!(text.trim_end().ends_with('}'));
    let Edit { needle, text } = rename_symbol(1, "y");
    assert_eq!(needle, "fresh1\"");
    assert_eq!(text, "y\"");
}

#[test]
fn a_graph_is_drawn_with_its_classes() {
    let mut ctx = fresh_ctx();
    let x = ctx.add(&Symbolic::Fresh(0));
    let s = ctx.add(&Symbolic::Binary(BinOp::AddI, [x, x]));
    ctx.rebuild();
    let raw = ctx.graph.draw("compound=true", "clusterrank=local");
    assert!(raw.starts_with("digraph egraph {\n"));
    assert!(raw.contains("compound=true"));
    assert!(raw.contains(&format!("subgraph cluster_{} {{\n", ctx.graph.find(s))));
}

#[test]
fn a_heap_is_drawn_with_its_chunks() {
    let mut ctx = fresh_ctx();
    let a = ctx.add(&Symbolic::Fresh(0));
    let p = ctx.add(&Symbolic::Lit(Literal::Real(part(1, 2))));
    let v = ctx.add(&Symbolic::Fresh(1));
    let heap = Heap::empty().with_chunk(0, Chunk::new(a, p, v));
    let text = heap_subgraph(&ctx.graph, 4, "h\"", &heap);
    assert!(text.starts_with("  subgraph cluster_heap_4 {\n    label=\"h\\\"\"\n"));
    for class in [a, p, v] {
        let head = format!("{}.0 [lhead=cluster_{}", class, class);
        assert!(text.contains(&head), "{}", text);
    }
}

#[test]
fn a_walk_lists_classes_by_depth() {
    let mut ctx = fresh_ctx();
    let x = ctx.add(&Symbolic::Fresh(0));
    let y = ctx.add(&Symbolic::Fresh(1));
    let s = ctx.add(&Symbolic::Binary(BinOp::AddI, [x, y]));
    let t = ctx.add(&Symbolic::Binary(BinOp::MulI, [s, x]));
    assert_eq!(classes_below(&ctx.graph, t, 0), vec![t]);
    let near = classes_below(&ctx.graph, t, 1);
    assert_eq!(near.len(), 3);
    assert!(near.contains(&s) && near.contains(&x) && !near.contains(&y));
    assert_eq!(classes_below(&ctx.graph, t, 5).len(), 4);

    let shown = render_node(&ctx.graph, "+i", &Symbolic::Binary(BinOp::AddI, [x, y]));
    assert_eq!(shown, format!("+i(@{}, @{})", x, y));
    assert_eq!(render_node(&ctx.graph, "x", &Symbolic::Fresh(0)), "x");
    let line = dump_line(7, &vec!["a".to_string(), "b".to_string()]);
    assert_eq!(line, "  @7     = [a, b]\n");
}

#[test]
fn runs_are_counted() {
    let mut stats = VerifyStats::zero();
    let its = vec![
        Iteration {
            egraph_nodes: 10,
            egraph_classes: 4,
            applied: vec![("b".to_string(), 2), ("a".to_string(), 1)],
        },
        Iteration { egraph_nodes: 7, egraph_classes: 6, applied: vec![("a".to_string(), 3)] },
    ];
    stats.record_run(&its);
    assert_eq!(
        stats.snapshot_string(),
        "egraph_classes_peak=6\negraph_nodes_peak=10\nprove_calls=0\nprove_probe=0\n\
         reduces=0\nrule.a=4\nrule.b=2\nrule_applications=6\nsat_iterations=2\n\
         saturations=0\n"
    );
}

#[test]
fn types_are_inferred() {
    let mut ctx = fresh_ctx();
    let x = ctx.add(&Symbolic::Fresh(0));
    let y = ctx.add(&Symbolic::Fresh(1));
    let one = ctx.add(&Symbolic::Lit(Literal::Int(whole(1))));
    let sum = ctx.add(&Symbolic::Binary(BinOp::AddI, [one, x]));
    let eq = ctx.add(&Symbolic::Binary(BinOp::Eq, [x, y]));
    let mut oracle = Oracle::new();
    oracle.fresh_types.insert(0, Type::Ref);
    assert_eq!(infer_type(&ctx.graph, &oracle, x), Some(Type::Ref));
    assert_eq!(infer_type(&ctx.graph, &oracle, y), None);
    assert_eq!(infer_type(&ctx.graph, &oracle, sum), Some(Type::Int));
    assert_eq!(infer_type(&ctx.graph, &oracle, eq), Some(Type::Bool));
    assert_eq!(lit_type(&Literal::Real(part(1, 2))), Type::Real);
    assert_eq!(lit_type(&Literal::Null), Type::Ref);
}

#[test]
fn errors_name_their_cause() {
    let e = VerifyError::SideCondition("division by zero").with_inst("e3 := e1 / e2".to_string());
    assert_eq!(
        e.text(),
        "side condition may not hold: division by zero\n    instruction: e3 := e1 / e2"
    );
    let e = e.with_inst("another".to_string());
    assert!(e.text().ends_with("e3 := e1 / e2"));
    assert!(matches!(e.root_cause(), VerifyError::SideCondition("division by zero")));
    assert_eq!(VerifyError::AssertionFailed.text(), "assertion failed");
    assert_eq!(VerifyError::InsufficientPermission.text(), "insufficient permission");
    assert_eq!(VerifyError::AbstractResourceCall.text(), "call to abstract resource");
    assert_eq!(VerifyError::Unimplemented("loops").text(), "unimplemented: loops");
}

#[test]
fn numbers_are_shown_in_decimal() {
    assert_eq!(whole(0).text(), "0");
    assert_eq!(whole(-120).text(), "-120");
    assert_eq!(whole(i64::MAX).text(), "9223372036854775807");
}

#[test]
fn counts_of_joins_add_up() {
    let mut t = Tracer::new(true);
    t.bump_select(2);
    t.bump_select(5);
    t.bump_zero();
    t.bump_select(3);
    let counts = MergeTrace::take(&mut t).unwrap();
    assert_eq!((counts.selects_built, counts.zero_leaves, counts.max_depth), (3, 1, 5));
    assert_eq!(MergeTrace::take(&mut t), Some(MergeTrace::zero()));
}

#[test]
fn operands_of_heap_expressions_have_types() {
    let e = HeapExp {
        insts: vec![
            ExpInst::Acc { heap: HeapVal::Empty, addr: Val::Temp(0), perm: Val::Temp(0) },
            ExpInst::Pure(Type::Bool, PureInst::Fresh),
        ],
        res_pure: Val::Temp(1),
        res_impure: HeapVal::Empty,
    };
    let of = |v: Val| value_type_in_heap_exp(&vec![Type::Ref], &e, &v).map(|t| format!("{:?}", t));
    assert_eq!(of(Val::Temp(0)), Some(format!("{:?}", Type::Ref)));
    assert_eq!(of(Val::Temp(1)), Some(format!("{:?}", Type::Bool)));
    assert_eq!(of(Val::Temp(2)), None);
    assert_eq!(of(Val::Literal(Literal::Null)), Some(format!("{:?}", Type::Ref)));
    assert_eq!(of(Val::Literal(Literal::Int(whole(1)))), Some(format!("{:?}", Type::Int)));
}

#[test]
fn texts_of_numbers_follow_their_grammar() {
    let read_int = |text: &str| Int::parse(text).map(|n| n.text());
    assert_eq!(read_int("+7").as_deref(), Some("7"));
    assert_eq!(read_int("-007").as_deref(), Some("-7"));
    assert_eq!(read_int("1_000_").as_deref(), Some("1000"));
    for refused in ["", "-", "+", "_1", "-_1", "-+7", "+-7", "++7", "1.5", "0x1"] {
        assert!(read_int(refused).is_none(), "{}", refused);
    }
    let read_rat = |text: &str| Rat::parse(text).map(|q| q.text());
    assert_eq!(read_rat("4/-6").as_deref(), Some("-2/3"));
    assert_eq!(read_rat("6/3").as_deref(), Some("2"));
    assert_eq!(read_rat("-5").as_deref(), Some("-5"));
    for refused in ["3/0", "1/2/3", "/2", "1/", ""] {
        assert!(read_rat(refused).is_none(), "{}", refused);
    }
}

fn snapped(ctx: &Context, heaps: &Vec<(String, Heap)>, mark: Option<u32>) -> String {
    let mut pages = Pages { on: true, list: vec!["first".to_string()] };
    let labels: Vec<Labels> = (0..ctx.graph.size() as u32)
        .map(|id| Labels {
            terms: ctx.graph.terms_of(id).iter().map(|_| format!("name{}", id)).collect(),
            ty: Some(format!("type{}", id)),
            lit: Some(format!("lit{}", id)),
        })
        .collect();
    snapshot(&mut pages, &ctx.graph, &Oracle::new(), &labels, heaps, "here", mark);
    assert!(pages.on);
    assert_eq!(pages.list.len(), 2);
    assert_eq!(pages.list[0], "first");
    pages.list[1].clone()
}

#[test]
fn a_snapshot_names_labels_and_marks_classes() {
    let mut ctx = fresh_ctx();
    let x = ctx.add(&Symbolic::Fresh(0));
    let five = ctx.add(&Symbolic::Lit(Literal::Int(whole(5))));
    let heap = Heap::empty().with_chunk(0, Chunk::new(x, five, x));
    let text = snapped(&ctx, &vec![("held".to_string(), heap)], Some(x));
    assert!(text.starts_with("digraph step_001 {\n  subgraph cluster_heap_0 {\n    label=\"held\"\n"));
    assert!(text.contains(&format!("{}.0[label = \"name{}\"]", x, x)));
    assert!(text.contains(&format!("label=\"type{}\\n= lit{}\"", five, five)));
    assert!(!text.contains(&format!("type{}", x)));
    assert!(text.contains("color=red"));
    assert!(!snapped(&ctx, &vec![], Some(five)).contains("color=red"));
    assert!(!snapped(&ctx, &vec![], None).contains("color=red"));

    let six = ctx.add(&Symbolic::Lit(Literal::Int(whole(6))));
    ctx.union(five, six);
    ctx.rebuild();
    let text = snapped(&ctx, &vec![], Some(six));
    assert!(text.contains("\u{22a5}"));
    assert!(text.contains("color=red"));

    let mut off = Pages { on: false, list: vec![] };
    snapshot(&mut off, &fresh_ctx().graph, &Oracle::new(), &vec![], &vec![], "here", None);
    assert!(!off.on && off.list.is_empty());
}
