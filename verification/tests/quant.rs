use silver_oxide::interner::Interner;
use silver_oxide::method::error::VerifyError;
use silver_oxide::nums::Int;
use silver_oxide::program::{
    Declaration, Forall, HeapVal, Inst, InstKind, Method, PathConds, Program, PureBody, PureInst,
    TrigTerm, Trigger,
};
use silver_oxide::quant::{
    build_recipe_table, compile, free_temps, intern, intern_insts, prepare_body, rename_inst,
    RecipeTable,
};
use silver_oxide::rewrite::quantified::PreparedTerm;
use silver_oxide::rewrite::recipe::{AxiomInst, AxiomPure};
use silver_oxide::vmir::{BinOp, Literal, Type, Val};

fn pure(pi: PureInst) -> Inst {
    Inst { pc: PathConds { conds: vec![] }, kind: InstKind::Pure(Type::Bool, pi) }
}

fn effect(kind: InstKind) -> Inst {
    Inst { pc: PathConds { conds: vec![] }, kind }
}

fn seven() -> Val {
    Val::Literal(Literal::Int(Int::from_i64(7)))
}

fn trigger(function: usize, args: Vec<Val>) -> Trigger {
    let terms = args.into_iter().map(TrigTerm::Val).collect();
    Trigger { terms: vec![TrigTerm::App { function, types: vec![], args: terms }] }
}

// forall x :: { f(x) } x + e2 == e0, where five slots lie around the quantifier.
fn sample(label: usize, base: usize, left: usize, right: usize) -> Forall {
    Forall {
        label,
        binder_base: base,
        bound: vec![Type::Int],
        triggers: vec![trigger(3, vec![Val::Temp(base)])],
        body: PureBody {
            insts: vec![
                pure(PureInst::Binary(BinOp::AddI, Val::Temp(base), Val::Temp(left))),
                pure(PureInst::Binary(BinOp::Eq, Val::Temp(base + 1), Val::Temp(right))),
            ],
            res: Val::Temp(base + 2),
        },
    }
}

fn refusal<T>(r: Result<T, VerifyError>) -> String {
    match r {
        Ok(_) => panic!("expected an error"),
        Err(e) => e.text(),
    }
}

const NO_SLOT: &str = "unimplemented: quantifier reads a slot that does not exist";

#[test]
fn compiling_renames_captures_binders_and_steps() {
    let q = sample(0, 5, 2, 0);
    let table = RecipeTable::new();
    let (recipe, free) = compile(&q, &table).ok().expect("compiles");
    assert_eq!(free, vec![2, 0]);
    assert_eq!(recipe.n_caps, 2);
    assert_eq!(recipe.n_bound, 1);
    assert_eq!(recipe.res, Val::Temp(4));
    assert_eq!(recipe.insts.len(), 2);
    assert!(matches!(
        &recipe.insts[0],
        AxiomInst::Val(AxiomPure::Binary(BinOp::AddI, Val::Temp(2), Val::Temp(0)))
    ));
    assert!(matches!(
        &recipe.insts[1],
        AxiomInst::Val(AxiomPure::Binary(BinOp::Eq, Val::Temp(3), Val::Temp(1)))
    ));
    match &recipe.groups[0][0] {
        PreparedTerm::App { func, args, .. } => {
            assert_eq!(func.0, 3);
            assert!(matches!(&args[0], PreparedTerm::Bound(0)));
        },
        _ => panic!("the trigger is an application"),
    }
}

#[test]
fn triggers_are_captured_first() {
    let mut q = sample(0, 5, 2, 0);
    q.triggers = vec![trigger(3, vec![Val::Temp(0), Val::Temp(5), seven()])];
    let raw = prepare_body(&q.body.insts, &RecipeTable::new()).ok().expect("prepares");
    assert_eq!(free_temps(&q, &raw), vec![0, 2]);
    let (recipe, free) = compile(&q, &RecipeTable::new()).ok().expect("compiles");
    assert_eq!(free, vec![0, 2]);
    match &recipe.groups[0][0] {
        PreparedTerm::App { args, .. } => {
            assert!(matches!(&args[0], PreparedTerm::Capture(0)));
            assert!(matches!(&args[1], PreparedTerm::Bound(0)));
            assert!(matches!(&args[2], PreparedTerm::Lit(Literal::Int(_))));
        },
        _ => panic!("the trigger is an application"),
    }
}

#[test]
fn steps_out_of_scope_are_refused() {
    let table = RecipeTable::new();

    // The second step would read its own slot.
    let mut q = sample(0, 5, 2, 0);
    q.body.insts[1] = pure(PureInst::Binary(BinOp::Eq, Val::Temp(7), Val::Temp(0)));
    assert_eq!(refusal(compile(&q, &table)), NO_SLOT);

    // The result names a slot after the last.
    let mut q = sample(0, 5, 2, 0);
    q.body.res = Val::Temp(8);
    assert_eq!(refusal(compile(&q, &table)), NO_SLOT);

    // A trigger names a step.
    let mut q = sample(0, 5, 2, 0);
    q.triggers = vec![trigger(3, vec![Val::Temp(6)])];
    assert_eq!(refusal(compile(&q, &table)), NO_SLOT);
}

#[test]
fn slots_that_do_not_fit_are_refused() {
    let mut q = sample(0, 0, 0, 0);
    q.binder_base = 1;
    q.body = PureBody { insts: vec![], res: Val::Temp(usize::MAX) };
    q.triggers = vec![];
    assert_eq!(refusal(compile(&q, &RecipeTable::new())), NO_SLOT);

    let v = AxiomInst::Assume(Val::Temp(usize::MAX));
    assert!(rename_inst(&v, 1, &vec![0, 0]).is_none());
    assert!(rename_inst(&v, 1, &vec![0]).is_some());
    let token = AxiomInst::Token { func: silver_oxide::lang::FuncId(0), args: vec![], guards: vec![] };
    assert!(rename_inst(&token, 0, &vec![]).is_none());
}

#[test]
fn effects_have_no_place_in_a_quantifier() {
    let table = RecipeTable::new();
    for (inst, text) in [
        (pure(PureInst::Fresh), "unimplemented: impure inst in quantifier body"),
        (
            pure(PureInst::Deref(HeapVal::Empty, Val::Temp(0))),
            "unimplemented: impure inst in quantifier body",
        ),
        (
            effect(InstKind::Assert(Val::Temp(0))),
            "unimplemented: effectful inst in quantifier body",
        ),
        (
            pure(PureInst::Forall(Box::new(sample(9, 5, 0, 0)))),
            "unimplemented: forall recipe not interned",
        ),
    ] {
        let mut q = sample(0, 5, 2, 0);
        q.body.insts = vec![inst];
        q.body.res = seven();
        assert_eq!(refusal(compile(&q, &table)), text);
    }
}

#[test]
fn the_same_quantifier_at_two_places_is_one_recipe() {
    let mut table = RecipeTable::new();
    let a = intern(&mut table, &sample(0, 5, 2, 0)).ok().expect("interns");
    let b = intern(&mut table, &sample(1, 9, 4, 7)).ok().expect("interns");
    let c = intern(&mut table, &sample(2, 5, 2, 2)).ok().expect("interns");
    assert_eq!(a, b);
    assert_ne!(a, c);
    assert_eq!(table.recipes.len(), 2);
    assert_eq!(table.entries.len(), 3);
    assert_eq!(table.entry_of(1).ok().unwrap().free, vec![4, 7]);
    assert_eq!(table.entry_of(2).ok().unwrap().free, vec![2]);
    assert_eq!(refusal(table.entry_of(3)), "unimplemented: forall recipe not interned");

    // A second time changes nothing.
    let again = intern(&mut table, &sample(0, 5, 2, 0)).ok().expect("interns");
    assert_eq!(again, a);
    assert_eq!(table.entries.len(), 3);
}

#[test]
fn a_quantifier_inside_another_is_entered_first() {
    let inner = sample(1, 6, 5, 2);
    let outer = Forall {
        label: 0,
        binder_base: 5,
        bound: vec![Type::Int],
        triggers: vec![],
        body: PureBody {
            insts: vec![pure(PureInst::Forall(Box::new(inner)))],
            res: Val::Temp(6),
        },
    };
    let mut table = RecipeTable::new();
    let id = intern(&mut table, &outer).ok().expect("interns");
    assert_eq!(table.entries[0].label, 1);
    assert_eq!(table.entries[0].free, vec![5, 2]);
    assert_eq!(table.entries[1].label, 0);
    // The binder is no capture; what the inner quantifier captures besides it is one.
    assert_eq!(table.entries[1].free, vec![2]);
    match &table.get(id).insts[0] {
        AxiomInst::Forall { recipe, caps } => {
            assert_eq!(*recipe, table.entries[0].recipe);
            assert_eq!(caps, &vec![Val::Temp(1), Val::Temp(0)]);
        },
        _ => panic!("the step is the inner quantifier"),
    }
}

#[test]
fn two_quantifiers_with_one_label_are_refused() {
    let outer = Forall {
        label: 1,
        binder_base: 5,
        bound: vec![Type::Int],
        triggers: vec![],
        body: PureBody {
            insts: vec![pure(PureInst::Forall(Box::new(sample(1, 6, 5, 2))))],
            res: Val::Temp(6),
        },
    };
    let mut table = RecipeTable::new();
    assert_eq!(
        refusal(intern(&mut table, &outer)),
        "unimplemented: two quantifiers with one label"
    );
}

#[test]
fn interning_stops_at_the_first_that_fails() {
    let mut bad = sample(1, 5, 2, 0);
    bad.body.res = Val::Temp(99);
    let insts = vec![
        pure(PureInst::Forall(Box::new(sample(0, 5, 2, 0)))),
        pure(PureInst::Forall(Box::new(bad))),
        pure(PureInst::Forall(Box::new(sample(2, 5, 2, 2)))),
    ];
    let mut table = RecipeTable::new();
    assert_eq!(refusal(intern_insts(&mut table, &insts)), NO_SLOT);
    assert_eq!(table.entries.len(), 1);
    assert_eq!(table.entries[0].label, 0);
}

#[test]
fn every_quantifier_of_a_program_is_compiled() {
    let program = Program {
        interner: Interner::new(),
        decls: vec![
            Declaration::Domain,
            Declaration::Axiom(PureBody {
                insts: vec![pure(PureInst::Forall(Box::new(sample(0, 5, 2, 0))))],
                res: Val::Temp(5),
            }),
            Declaration::Method(Method {
                insts: vec![pure(PureInst::Forall(Box::new(sample(1, 5, 2, 2))))],
            }),
        ],
    };
    let table = build_recipe_table(&program).ok().expect("compiles");
    assert!(!table.is_empty());
    let labels: Vec<usize> = table.entries.iter().map(|e| e.label).collect();
    assert_eq!(labels, vec![0, 1]);
    let shared = table.share();
    assert_eq!(shared.recipes.len(), 2);
}
