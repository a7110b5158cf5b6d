use silver_oxide::check::can_verify;
use silver_oxide::interner::Interner;
use silver_oxide::method::error::VerifyError;
use silver_oxide::nums::{Int, Rat};
use silver_oxide::program::{
    Adt, AdtCtor, AdtOps, AdtVariant, Assign, Declaration, FuncCall, Function, HeapInst, HeapVal,
    Inst, InstKind, Method, PathConds, PredMeta, Program, PureInst, Resource, ResourceBody,
    ResourceCall, Sign, Target,
};
use silver_oxide::quant::Quantifiers;
use silver_oxide::verify::{verify, AnalyzedProgram};
use silver_oxide::vmir::{BinOp, Bound, Literal, Polarity, Type, Val};

fn t(n: usize) -> Val {
    Val::Temp(n)
}

fn h(n: usize) -> HeapVal {
    HeapVal::Temp(n)
}

fn truth(b: bool) -> Val {
    Val::Literal(Literal::Bool(b))
}

fn whole(n: i64) -> Val {
    Val::Literal(Literal::Int(Int::from_i64(n)))
}

fn share(n: i64, d: i64) -> Val {
    Val::Literal(Literal::Real(Rat::new(&Int::from_i64(n), &Int::from_i64(d))))
}

fn field(of: Type) -> Type {
    Type::addr(0, of, Bound::Unbounded)
}

fn on(pc: Vec<(Val, Polarity)>, kind: InstKind) -> Inst {
    Inst { pc: PathConds { conds: pc }, kind }
}

fn step(kind: InstKind) -> Inst {
    on(vec![], kind)
}

fn pure(ty: Type, pi: PureInst) -> Inst {
    step(InstKind::Pure(ty, pi))
}

fn fresh(ty: Type) -> Inst {
    pure(ty, PureInst::Fresh)
}

fn call(ty: Type, func: usize, args: Vec<Val>) -> Inst {
    pure(ty, PureInst::FunctionCall(FuncCall { function: func, types: vec![], args }))
}

fn eq(a: Val, b: Val) -> Inst {
    pure(Type::Bool, PureInst::Binary(BinOp::Eq, a, b))
}

fn not(a: Val) -> Inst {
    pure(Type::Bool, PureInst::Ternary(a, truth(false), truth(true)))
}

fn read(heap: HeapVal, loc: Val) -> Inst {
    pure(Type::Int, PureInst::Deref(heap, loc))
}

fn perm(heap: HeapVal, loc: Val) -> Inst {
    pure(Type::Real, PureInst::Perm(heap, loc))
}

fn inhale(base: HeapVal, loc: Val, perm: Val) -> Inst {
    step(InstKind::Heap(HeapInst::Combine { base, sign: Sign::Add, target: Target::Loc(loc), perm }))
}

fn exhale(base: HeapVal, loc: Val, perm: Val) -> Inst {
    step(InstKind::Heap(HeapInst::Combine { base, sign: Sign::Sub, target: Target::Loc(loc), perm }))
}

fn write(base: HeapVal, loc: Val, val: Val) -> Inst {
    step(InstKind::Heap(HeapInst::Assign(base, Assign { loc, val })))
}

fn fold(base: HeapVal, args: Vec<Val>, perm: Val) -> Inst {
    step(InstKind::Heap(HeapInst::Fold { base, call: ResourceCall { resource: 1, args }, perm }))
}

fn unfold(base: HeapVal, args: Vec<Val>, perm: Val) -> Inst {
    step(InstKind::Heap(HeapInst::Unfold { base, call: ResourceCall { resource: 1, args }, perm }))
}

fn learn(v: Val) -> Inst {
    step(InstKind::Assume(v))
}

fn check(v: Val) -> Inst {
    step(InstKind::Assert(v))
}

fn function(params: Vec<Type>, ret: Type) -> Declaration {
    Declaration::Function(Function { params, ret, body: None })
}

/// The result of the method that is declared first. Everything else must be good.
fn outcome(decls: Vec<Declaration>) -> Result<(), VerifyError> {
    let mut interner = Interner::new();
    for i in 0..decls.len() {
        interner = interner.with_name(format!("d{}", i).as_str()).0;
    }
    let scc_order = (0..decls.len()).map(|i| vec![i]).collect();
    let program = Program { interner, decls };
    assert!(can_verify(&program, &scc_order));
    let a = AnalyzedProgram { program, quants: Quantifiers::none(), scc_order };
    let mut first = Ok(());
    for (name, row) in verify(&a, &vec![]) {
        if name == "d0" {
            first = row;
        } else {
            assert!(row.is_ok());
        }
    }
    first
}

fn method(insts: Vec<Inst>) -> Result<(), VerifyError> {
    outcome(vec![Declaration::Method(Method { insts })])
}

fn cause(r: Result<(), VerifyError>) -> VerifyError {
    match r {
        Err(VerifyError::AtInst { source, .. }) => *source,
        _ => panic!("expected a failure at an instruction"),
    }
}

fn lacks_permission(r: Result<(), VerifyError>) -> bool {
    matches!(cause(r), VerifyError::InsufficientPermission)
}

fn is_unproven(r: Result<(), VerifyError>) -> bool {
    matches!(cause(r), VerifyError::AssertionFailed)
}

/// A method together with a predicate over the locations that it is given: all of each,
/// behind the condition that is the last parameter where there is one.
fn with_predicate(insts: Vec<Inst>, fields: Vec<Type>, guarded: bool) -> Result<(), VerifyError> {
    let n = fields.len();
    let mut params: Vec<Type> = fields.iter().map(|f| field(f.clone())).collect();
    let mut body = vec![];
    let mut amount = share(1, 1);
    if guarded {
        params.push(Type::Bool);
        body.push(pure(Type::Real, PureInst::Ternary(t(n), share(1, 1), share(0, 1))));
        amount = t(n + 1);
    }
    for i in 0..n {
        let amount = match &amount {
            Val::Temp(k) => t(*k),
            _ => share(1, 1),
        };
        let mut inst = inhale(h(i), t(i), amount);
        if guarded {
            inst.pc.conds.push((t(n), Polarity::Positive));
        }
        body.push(inst);
    }
    let mut decls = vec![
        Declaration::Method(Method { insts }),
        Declaration::Resource(Resource {
            params: params.clone(),
            body: Some(ResourceBody { insts: body, res: (h(n), truth(true)) }),
            pred: Some(PredMeta {
                addr_fn: 2,
                snap_cons: 3,
                snap_projs: (0..n).map(|i| 4 + i).collect(),
            }),
            snapshot: None,
        }),
        function(params, field(Type::Snap(1))),
        function(fields.clone(), Type::Snap(1)),
    ];
    for f in fields {
        decls.push(function(vec![Type::Snap(1)], Type::Option(Box::new(f))));
    }
    outcome(decls)
}

#[test]
fn fold_unfold_roundtrip_preserves_field() {
    let r = with_predicate(
        vec![
            fresh(field(Type::Int)),
            inhale(HeapVal::Empty, t(0), share(1, 1)),
            read(h(0), t(0)),
            eq(t(1), whole(5)),
            learn(t(2)),
            fold(h(0), vec![t(0)], share(1, 1)),
            unfold(h(1), vec![t(0)], share(1, 1)),
            read(h(2), t(0)),
            eq(t(3), whole(5)),
            check(t(4)),
        ],
        vec![Type::Int],
        false,
    );
    assert!(r.is_ok());
}

#[test]
fn fold_consumes_field_permission() {
    let r = with_predicate(
        vec![
            fresh(field(Type::Int)),
            inhale(HeapVal::Empty, t(0), share(1, 1)),
            fold(h(0), vec![t(0)], share(1, 1)),
            read(h(1), t(0)),
        ],
        vec![Type::Int],
        false,
    );
    assert!(lacks_permission(r));
}

#[test]
fn fold_unfold_two_field_predicate() {
    let r = with_predicate(
        vec![
            fresh(field(Type::Int)),
            fresh(Type::addr(1, Type::Int, Bound::Unbounded)),
            inhale(HeapVal::Empty, t(0), share(1, 1)),
            inhale(h(0), t(1), share(1, 1)),
            write(h(1), t(0), whole(1)),
            write(h(2), t(1), whole(2)),
            fold(h(3), vec![t(0), t(1)], share(1, 1)),
            unfold(h(4), vec![t(0), t(1)], share(1, 1)),
            read(h(5), t(0)),
            eq(t(2), whole(1)),
            check(t(3)),
            read(h(5), t(1)),
            eq(t(4), whole(2)),
            check(t(5)),
        ],
        vec![Type::Int, Type::Int],
        false,
    );
    assert!(r.is_ok());
}

#[test]
fn fold_unfold_conditional_true_branch() {
    let r = with_predicate(
        vec![
            fresh(field(Type::Int)),
            inhale(HeapVal::Empty, t(0), share(1, 1)),
            read(h(0), t(0)),
            eq(t(1), whole(5)),
            learn(t(2)),
            fold(h(0), vec![t(0), truth(true)], share(1, 1)),
            unfold(h(1), vec![t(0), truth(true)], share(1, 1)),
            read(h(2), t(0)),
            eq(t(3), whole(5)),
            check(t(4)),
        ],
        vec![Type::Int],
        true,
    );
    assert!(r.is_ok());
}

#[test]
fn fold_unfold_conditional_false_keeps_field() {
    let r = with_predicate(
        vec![
            fresh(field(Type::Int)),
            inhale(HeapVal::Empty, t(0), share(1, 1)),
            read(h(0), t(0)),
            eq(t(1), whole(5)),
            learn(t(2)),
            fold(h(0), vec![t(0), truth(false)], share(1, 1)),
            read(h(1), t(0)),
            eq(t(3), whole(5)),
            check(t(4)),
        ],
        vec![Type::Int],
        true,
    );
    assert!(r.is_ok());
}

#[test]
fn fold_unfold_mixed_element_types() {
    let r = with_predicate(
        vec![
            fresh(field(Type::Int)),
            fresh(Type::addr(1, Type::Bool, Bound::Unbounded)),
            inhale(HeapVal::Empty, t(0), share(1, 1)),
            inhale(h(0), t(1), share(1, 1)),
            write(h(1), t(0), whole(7)),
            write(h(2), t(1), truth(true)),
            fold(h(3), vec![t(0), t(1)], share(1, 1)),
            unfold(h(4), vec![t(0), t(1)], share(1, 1)),
            read(h(5), t(0)),
            eq(t(2), whole(7)),
            check(t(3)),
            pure(Type::Bool, PureInst::Deref(h(5), t(1))),
            eq(t(4), truth(true)),
            check(t(5)),
        ],
        vec![Type::Int, Type::Bool],
        false,
    );
    assert!(r.is_ok());
}

#[test]
fn inline_inhale_then_exhale_roundtrips() {
    let r = method(vec![
        fresh(field(Type::Int)),
        inhale(HeapVal::Empty, t(0), share(1, 1)),
        read(h(0), t(0)),
        eq(t(1), whole(5)),
        learn(t(2)),
        check(t(2)),
        exhale(h(0), t(0), share(1, 1)),
    ]);
    assert!(r.is_ok());
}

#[test]
fn inline_exhale_without_permission_fails() {
    let r = method(vec![
        fresh(field(Type::Int)),
        inhale(HeapVal::Empty, t(0), share(1, 2)),
        exhale(h(0), t(0), share(1, 1)),
    ]);
    assert!(lacks_permission(r));
}

#[test]
fn inline_exhale_unproven_fact_fails() {
    let r = method(vec![
        fresh(field(Type::Int)),
        inhale(HeapVal::Empty, t(0), share(1, 1)),
        read(h(0), t(0)),
        eq(t(1), whole(5)),
        check(t(2)),
    ]);
    assert!(is_unproven(r));
}

#[test]
fn new_single_field_grants_full_permission() {
    let r = method(vec![
        fresh(field(Type::Int)),
        inhale(HeapVal::Empty, t(0), share(1, 1)),
        exhale(h(0), t(0), share(1, 1)),
    ]);
    assert!(r.is_ok());
}

#[test]
fn new_permission_is_exactly_full() {
    let r = method(vec![
        fresh(field(Type::Int)),
        inhale(HeapVal::Empty, t(0), share(1, 1)),
        exhale(h(0), t(0), share(1, 1)),
        exhale(h(1), t(0), share(1, 1)),
    ]);
    assert!(lacks_permission(r));
}

#[test]
fn perm_in_exhale_sees_removed_permission() {
    let r = method(vec![
        fresh(field(Type::Int)),
        inhale(HeapVal::Empty, t(0), share(1, 1)),
        exhale(h(0), t(0), share(1, 1)),
        perm(h(1), t(0)),
        eq(t(1), share(0, 1)),
        check(t(2)),
    ]);
    assert!(r.is_ok());
}

#[test]
fn perm_before_acc_in_exhale_is_full() {
    let r = method(vec![
        fresh(field(Type::Int)),
        inhale(HeapVal::Empty, t(0), share(1, 1)),
        perm(h(0), t(0)),
        eq(t(1), share(1, 1)),
        check(t(2)),
        exhale(h(0), t(0), share(1, 1)),
    ]);
    assert!(r.is_ok());
}

#[test]
fn assert_held_permission_ok() {
    let mut insts = vec![
        fresh(field(Type::Int)),
        inhale(HeapVal::Empty, t(0), share(1, 1)),
        perm(h(0), t(0)),
    ];
    insts.extend(at_least(t(1), share(1, 1), 2));
    insts.push(check(t(3)));
    insts.push(exhale(h(0), t(0), share(1, 1)));
    assert!(method(insts).is_ok());
}

#[test]
fn assert_unheld_permission_fails() {
    let r = method(vec![
        fresh(field(Type::Int)),
        exhale(HeapVal::Empty, t(0), share(1, 1)),
    ]);
    assert!(lacks_permission(r));
}

#[test]
fn deref_without_permission_fails() {
    let r = method(vec![fresh(field(Type::Int)), read(HeapVal::Empty, t(0))]);
    assert!(lacks_permission(r));
}

#[test]
fn assert_pure_unproven_fails() {
    let r = method(vec![fresh(Type::Int), eq(t(0), whole(5)), check(t(1))]);
    assert!(is_unproven(r));
}

#[test]
fn assume_then_assert_pure() {
    let r = method(vec![fresh(Type::Int), eq(t(0), whole(5)), learn(t(1)), check(t(1))]);
    assert!(r.is_ok());
}

#[test]
fn field_assign_updates_value() {
    let r = method(vec![
        fresh(field(Type::Int)),
        inhale(HeapVal::Empty, t(0), share(1, 1)),
        write(h(0), t(0), whole(10)),
        read(h(1), t(0)),
        eq(t(1), whole(10)),
        check(t(2)),
    ]);
    assert!(r.is_ok());
}

#[test]
fn field_assign_without_write_permission_fails() {
    let r = method(vec![
        fresh(field(Type::Int)),
        inhale(HeapVal::Empty, t(0), share(1, 1)),
        exhale(h(0), t(0), share(1, 2)),
        write(h(1), t(0), whole(20)),
    ]);
    assert!(lacks_permission(r));
}

#[test]
fn field_assign_with_no_permission_fails() {
    let r = method(vec![fresh(field(Type::Int)), write(HeapVal::Empty, t(0), whole(1))]);
    assert!(lacks_permission(r));
}

/// A method together with an ADT: the tag function, then each constructor with its
/// projections.
fn with_adt(insts: Vec<Inst>, fields: Vec<usize>) -> Result<(), VerifyError> {
    let mut next: usize = 3;
    let mut variants = vec![];
    let mut constructors = vec![];
    let mut functions = vec![];
    for (tag, n) in fields.into_iter().enumerate() {
        let ctor_fn = next;
        let types: Vec<Type> = (0..n).map(|_| Type::Int).collect();
        variants.push(AdtVariant { name: None, field_types: types.clone() });
        constructors.push(AdtCtor { ctor_fn, tag, projections: (0..n).map(|i| next + 1 + i).collect() });
        functions.push(function(types, Type::Domain(1, vec![])));
        for _ in 0..n {
            functions.push(function(vec![Type::Domain(1, vec![])], Type::Int));
        }
        next += 1 + n;
    }
    let mut decls = vec![
        Declaration::Method(Method { insts }),
        Declaration::Adt(Adt { variants, ops: Some(AdtOps { tag_fn: 2, constructors }) }),
        function(vec![Type::Domain(1, vec![])], Type::Int),
    ];
    decls.append(&mut functions);
    outcome(decls)
}

#[test]
fn adt_discriminator_on_known_constructor() {
    let r = with_adt(
        vec![
            call(Type::Domain(1, vec![]), 3, vec![]),
            call(Type::Int, 2, vec![t(0)]),
            eq(t(1), whole(1)),
            not(t(2)),
            check(t(3)),
        ],
        vec![0, 0],
    );
    assert!(r.is_ok());
}

#[test]
fn adt_discriminator_wrong_variant_fails() {
    let r = with_adt(
        vec![
            call(Type::Domain(1, vec![]), 3, vec![]),
            call(Type::Int, 2, vec![t(0)]),
            eq(t(1), whole(1)),
            check(t(2)),
        ],
        vec![0, 0],
    );
    assert!(is_unproven(r));
}

fn first_of_pair(want: i64) -> Result<(), VerifyError> {
    with_adt(
        vec![
            call(Type::Domain(1, vec![]), 3, vec![whole(3), whole(4)]),
            call(Type::Int, 4, vec![t(0)]),
            eq(t(1), whole(want)),
            check(t(2)),
        ],
        vec![2],
    )
}

#[test]
fn adt_destructor_projects_constructor_field() {
    assert!(first_of_pair(3).is_ok());
}

#[test]
fn adt_destructor_wrong_field_value_fails() {
    assert!(is_unproven(first_of_pair(4)));
}

fn resource(params: Vec<Type>, insts: Vec<Inst>, heap: HeapVal) -> Result<(), VerifyError> {
    outcome(vec![Declaration::Resource(Resource {
        params,
        body: Some(ResourceBody { insts, res: (heap, truth(true)) }),
        pred: None,
        snapshot: None,
    })])
}

#[test]
fn resource_negative_permission_rejected() {
    let r = resource(
        vec![field(Type::Int)],
        vec![
            pure(Type::Real, PureInst::Binary(BinOp::SubR, share(1, 1), share(2, 1))),
            inhale(h(0), t(0), t(1)),
        ],
        h(1),
    );
    assert!(matches!(cause(r), VerifyError::SideCondition("permission may be negative")));
}

#[test]
fn resource_positive_permission_ok() {
    let r = resource(vec![field(Type::Int)], vec![inhale(h(0), t(0), share(1, 1))], h(1));
    assert!(r.is_ok());
}

#[test]
fn resource_div_by_zero_rejected() {
    let r = resource(
        vec![Type::Int],
        vec![pure(Type::Int, PureInst::Binary(BinOp::DivI, t(0), whole(0)))],
        h(0),
    );
    assert!(matches!(cause(r), VerifyError::SideCondition("divisor may be zero")));
}

#[test]
fn a_failing_prefix_fails_the_whole() {
    let failing = || {
        vec![
            fresh(field(Type::Int)),
            inhale(HeapVal::Empty, t(0), share(1, 2)),
            exhale(h(0), t(0), share(1, 1)),
        ]
    };
    let text = |r: Result<(), VerifyError>| r.unwrap_err().text();
    let mut longer = failing();
    longer.push(check(truth(true)));
    assert_eq!(text(method(failing())), text(method(longer)));
    assert_eq!(text(method(failing())), text(method(failing())));
}

#[test]
fn a_slot_that_is_not_filled_is_found() {
    let fits = |insts: Vec<Inst>| {
        let program = Program {
            interner: Interner::new(),
            decls: vec![Declaration::Method(Method { insts })],
        };
        can_verify(&program, &vec![vec![0]])
    };
    assert!(fits(vec![fresh(Type::Bool), check(t(0))]));
    assert!(!fits(vec![fresh(Type::Bool), check(t(1))]));
    assert!(!fits(vec![fresh(field(Type::Int)), read(h(0), t(0))]));
    let none = Program { interner: Interner::new(), decls: vec![] };
    assert!(can_verify(&none, &vec![]));
    assert!(!can_verify(&none, &vec![vec![0]]));
}

/// That a permission is at least an amount.
fn at_least(held: Val, amount: Val, at: usize) -> Vec<Inst> {
    vec![pure(Type::Bool, PureInst::Binary(BinOp::LtR, held, amount)), not(t(at))]
}

#[test]
fn assume_then_assert_acc() {
    let mut insts = vec![
        fresh(field(Type::Int)),
        inhale(HeapVal::Empty, t(0), share(1, 1)),
        perm(h(0), t(0)),
    ];
    insts.extend(at_least(t(1), share(1, 1), 2));
    insts.push(learn(t(3)));
    insts.push(perm(h(0), t(0)));
    insts.extend(at_least(t(4), share(1, 1), 5));
    insts.push(check(t(6)));
    assert!(method(insts).is_ok());
}

#[test]
fn new_multiple_fields() {
    let r = method(vec![
        fresh(field(Type::Int)),
        fresh(Type::addr(1, Type::Int, Bound::Unbounded)),
        inhale(HeapVal::Empty, t(0), share(1, 1)),
        inhale(h(0), t(1), share(1, 1)),
        exhale(h(1), t(0), share(1, 1)),
        exhale(h(2), t(1), share(1, 1)),
    ]);
    assert!(r.is_ok());
}

#[test]
fn perm_in_inhale_sees_added_permission() {
    let r = method(vec![
        fresh(field(Type::Int)),
        inhale(HeapVal::Empty, t(0), share(1, 1)),
        perm(h(0), t(0)),
        eq(t(1), share(1, 1)),
        check(t(2)),
        learn(t(2)),
        exhale(h(0), t(0), share(1, 1)),
    ]);
    assert!(r.is_ok());
}

#[test]
fn exhale_value_read_uses_pre_exhale_heap() {
    let r = method(vec![
        fresh(field(Type::Int)),
        inhale(HeapVal::Empty, t(0), share(1, 1)),
        read(h(0), t(0)),
        eq(t(1), whole(5)),
        learn(t(2)),
        exhale(h(0), t(0), share(1, 1)),
        read(h(0), t(0)),
        eq(t(3), whole(5)),
        check(t(4)),
    ]);
    assert!(r.is_ok());
}

#[test]
fn literal_division_folds_to_real() {
    let r = method(vec![
        fresh(field(Type::Int)),
        pure(Type::Real, PureInst::Binary(BinOp::DivR, share(4, 1), share(2, 1))),
        inhale(HeapVal::Empty, t(0), t(1)),
        exhale(h(0), t(0), share(2, 1)),
    ]);
    assert!(r.is_ok());
}

#[test]
fn under_pc_verifies() {
    let and = |a: Val, b: Val| pure(Type::Bool, PureInst::Ternary(a, b, truth(false)));
    let implies = |a: Val, b: Val| pure(Type::Bool, PureInst::Ternary(a, b, truth(true)));
    let r = method(vec![
        fresh(field(Type::Int)),
        fresh(Type::Bool),
        inhale(HeapVal::Empty, t(0), share(1, 1)),
        and(t(1), truth(true)),
        read(h(0), t(0)),
        eq(t(3), whole(10)),
        implies(t(2), t(4)),
        learn(t(5)),
        and(t(1), t(1)),
        read(h(0), t(0)),
        eq(t(7), whole(10)),
        implies(t(6), t(8)),
        check(t(9)),
    ]);
    assert!(r.is_ok());
}

fn half_and_half(now: HeapVal, amount: Val) -> Result<(), VerifyError> {
    method(vec![
        fresh(field(Type::Int)),
        inhale(HeapVal::Empty, t(0), share(1, 2)),
        inhale(h(0), t(0), share(1, 2)),
        perm(h(1), t(0)),
        eq(t(1), share(1, 1)),
        check(t(2)),
        perm(now, t(0)),
        eq(t(3), amount),
        check(t(4)),
    ])
}

#[test]
fn unlabeled_old_reads_post_requires_heap() {
    assert!(half_and_half(h(0), share(1, 2)).is_ok());
    assert!(is_unproven(half_and_half(h(0), share(1, 1))));
}

#[test]
fn labeled_old_reads_label_heap_permission() {
    let r = method(vec![
        fresh(field(Type::Int)),
        inhale(HeapVal::Empty, t(0), share(1, 4)),
        exhale(h(0), t(0), share(1, 4)),
        inhale(h(1), t(0), share(1, 2)),
        inhale(h(2), t(0), share(1, 2)),
        perm(h(3), t(0)),
        eq(t(1), share(1, 1)),
        check(t(2)),
        perm(h(2), t(0)),
        eq(t(3), share(1, 2)),
        check(t(4)),
    ]);
    assert!(r.is_ok());
}

#[test]
fn implies_spatial_verifies() {
    let cond = || vec![(t(1), Polarity::Positive)];
    let r = method(vec![
        fresh(field(Type::Int)),
        fresh(Type::Bool),
        pure(Type::Real, PureInst::Ternary(t(1), share(1, 1), share(0, 1))),
        inhale(HeapVal::Empty, t(0), t(2)),
        on(cond(), InstKind::Pure(Type::Int, PureInst::Deref(h(0), t(0)))),
        eq(t(3), whole(7)),
        pure(Type::Bool, PureInst::Ternary(t(1), t(4), truth(true))),
        learn(t(5)),
        learn(t(1)),
        perm(h(0), t(0)),
        eq(t(6), share(1, 1)),
        check(t(7)),
        read(h(0), t(0)),
        eq(t(8), whole(7)),
        check(t(9)),
    ]);
    assert!(r.is_ok());
}

/// Inhales half of a location that holds 0, or all of it with 1, by the boolean in the
/// second slot, then goes on. Ten slots are filled, and two heaps are there.
fn conditional_inhale(then: Vec<Inst>) -> Result<(), VerifyError> {
    let on_it = || vec![(t(1), Polarity::Positive)];
    let off_it = || vec![(t(1), Polarity::Negative)];
    let mut insts = vec![
        fresh(field(Type::Int)),
        fresh(Type::Bool),
        pure(Type::Real, PureInst::Ternary(t(1), share(1, 2), share(0, 1))),
        inhale(HeapVal::Empty, t(0), t(2)),
        on(on_it(), InstKind::Pure(Type::Int, PureInst::Deref(h(0), t(0)))),
        eq(t(3), whole(0)),
        pure(Type::Bool, PureInst::Ternary(t(1), t(4), truth(true))),
        learn(t(5)),
        pure(Type::Real, PureInst::Ternary(t(1), share(0, 1), share(1, 1))),
        inhale(h(0), t(0), t(6)),
        on(off_it(), InstKind::Pure(Type::Int, PureInst::Deref(h(1), t(0)))),
        eq(t(7), whole(1)),
        pure(Type::Bool, PureInst::Ternary(t(1), truth(true), t(8))),
        learn(t(9)),
    ];
    insts.extend(then);
    method(insts)
}

fn holds_there(amount: Val, value: Val, at: usize) -> Vec<Inst> {
    vec![
        perm(h(1), t(0)),
        eq(t(at), amount),
        check(t(at + 1)),
        read(h(1), t(0)),
        eq(t(at + 2), value),
        check(t(at + 3)),
    ]
}

#[test]
fn conditional_inhale_true_branch_verifies() {
    let mut then = vec![learn(t(1))];
    then.extend(holds_there(share(1, 2), whole(0), 10));
    assert!(conditional_inhale(then).is_ok());
}

#[test]
fn conditional_inhale_false_branch_verifies() {
    let mut then = vec![eq(t(1), truth(false)), learn(t(10))];
    then.extend(holds_there(share(1, 1), whole(1), 11));
    assert!(conditional_inhale(then).is_ok());
}

#[test]
fn conditional_inhale_does_not_leak_other_branch() {
    let then = vec![learn(t(1)), read(h(1), t(0)), eq(t(10), whole(1)), check(t(11))];
    assert!(is_unproven(conditional_inhale(then)));
}

fn contract(params: Vec<Type>, insts: Vec<Inst>, heap: HeapVal, said: Val) -> Declaration {
    Declaration::Resource(Resource {
        params,
        body: Some(ResourceBody { insts, res: (heap, said) }),
        pred: None,
        snapshot: None,
    })
}

fn produce(base: HeapVal, resource: usize, args: Vec<Val>) -> Inst {
    let target = Target::Resource(ResourceCall { resource, args });
    step(InstKind::Heap(HeapInst::Combine { base, sign: Sign::Add, target, perm: share(1, 1) }))
}

fn consume(base: HeapVal, resource: usize, args: Vec<Val>) -> Inst {
    let target = Target::Resource(ResourceCall { resource, args });
    step(InstKind::Heap(HeapInst::Combine { base, sign: Sign::Sub, target, perm: share(1, 1) }))
}

/// The abstract predicate that the functions of the declarations 2 and 3 belong to.
fn abstract_predicate() -> Vec<Declaration> {
    vec![
        Declaration::Resource(Resource {
            params: vec![Type::Ref],
            body: None,
            pred: Some(PredMeta { addr_fn: 2, snap_cons: 3, snap_projs: vec![] }),
            snapshot: None,
        }),
        function(vec![Type::Ref], field(Type::Snap(1))),
        function(vec![], Type::Snap(1)),
    ]
}

/// A contract over the abstract predicate of some of its parameters.
fn numbers(params: usize, of: Vec<usize>) -> Declaration {
    let mut insts = vec![];
    for (k, x) in of.iter().enumerate() {
        insts.push(call(field(Type::Snap(1)), 2, vec![t(*x)]));
        insts.push(inhale(h(k), t(params + k), share(1, 1)));
    }
    contract((0..params).map(|_| Type::Ref).collect(), insts, h(of.len()), truth(true))
}

#[test]
fn double_consume_predicate_should_fail() {
    let with = |calls: usize| {
        let mut insts = vec![fresh(Type::Ref), produce(HeapVal::Empty, 4, vec![t(0)])];
        for k in 0..calls {
            insts.push(consume(h(k), 4, vec![t(0)]));
        }
        let mut decls = vec![Declaration::Method(Method { insts })];
        decls.extend(abstract_predicate());
        decls.push(numbers(1, vec![0]));
        outcome(decls)
    };
    assert!(with(1).is_ok());
    assert!(lacks_permission(with(2)));
}

#[test]
fn ensures_does_not_double_count_carried_permission() {
    let mut decls = vec![Declaration::Method(Method {
        insts: vec![
            fresh(Type::Ref),
            fresh(Type::Ref),
            fresh(Type::Ref),
            produce(HeapVal::Empty, 5, vec![t(0), t(1)]),
            consume(h(0), 4, vec![t(0)]),
            produce(h(1), 4, vec![t(0)]),
            fresh(Type::Int),
            consume(h(2), 4, vec![t(1)]),
            produce(h(3), 4, vec![t(1)]),
            fresh(Type::Int),
            pure(Type::Int, PureInst::Binary(BinOp::AddI, t(3), t(4))),
            produce(h(4), 4, vec![t(2)]),
            consume(h(5), 6, vec![t(0), t(1), t(2)]),
            call(field(Type::Snap(1)), 2, vec![t(0)]),
            perm(h(6), t(6)),
            eq(t(7), share(0, 1)),
            check(t(8)),
        ],
    })];
    decls.extend(abstract_predicate());
    decls.push(numbers(1, vec![0]));
    decls.push(numbers(2, vec![0, 1]));
    decls.push(numbers(3, vec![0, 1, 2]));
    assert!(outcome(decls).is_ok());
}

fn all_of_one() -> Declaration {
    contract(vec![field(Type::Int)], vec![inhale(h(0), t(0), share(1, 1))], h(1), truth(true))
}

#[test]
fn exhale_exceeding_held_permission_fails() {
    let decls = vec![
        Declaration::Method(Method {
            insts: vec![
                fresh(field(Type::Int)),
                inhale(HeapVal::Empty, t(0), share(1, 2)),
                consume(h(0), 1, vec![t(0)]),
            ],
        }),
        all_of_one(),
    ];
    assert!(lacks_permission(outcome(decls)));
}

#[test]
fn concrete_predicate_body_verifies() {
    let decls = vec![contract(
        vec![field(Type::Int)],
        vec![inhale(h(0), t(0), share(1, 1)), read(h(1), t(0)), eq(t(1), whole(0))],
        h(1),
        t(2),
    )];
    assert!(outcome(decls).is_ok());
    let unread = vec![contract(vec![field(Type::Int)], vec![read(h(0), t(0))], h(0), truth(true))];
    assert!(lacks_permission(outcome(unread)));
}

#[test]
fn graft_reuses_ensures_equality() {
    let both = || vec![inhale(h(0), t(0), share(1, 1)), inhale(h(1), t(1), share(1, 1))];
    let params = || vec![field(Type::Int), field(Type::Int)];
    let run = |said: Val| {
        let mut after = both();
        after.extend(vec![read(h(2), t(0)), read(h(2), t(1)), eq(t(2), t(3))]);
        outcome(vec![
            Declaration::Method(Method {
                insts: vec![
                    fresh(field(Type::Int)),
                    fresh(field(Type::Int)),
                    produce(HeapVal::Empty, 1, vec![t(0), t(1)]),
                    consume(h(0), 1, vec![t(0), t(1)]),
                    produce(h(1), 2, vec![t(0), t(1)]),
                    read(h(2), t(0)),
                    read(h(2), t(1)),
                    eq(t(2), t(3)),
                    check(t(4)),
                ],
            }),
            contract(params(), both(), h(2), truth(true)),
            contract(params(), after, h(2), said),
        ])
    };
    assert!(run(t(4)).is_ok());
    assert!(is_unproven(run(truth(true))));
}

#[test]
fn fold_unfold_fractional_with_pure_fact() {
    let cell = || field(Type::Int);
    let positive = |v: Val| pure(Type::Bool, PureInst::Binary(BinOp::LtI, whole(0), v));
    let decls = vec![
        Declaration::Method(Method {
            insts: vec![
                fresh(cell()),
                call(field(Type::Snap(1)), 2, vec![t(0)]),
                inhale(HeapVal::Empty, t(1), share(1, 1)),
                unfold(h(0), vec![t(0)], share(1, 1)),
                read(h(1), t(0)),
                positive(t(2)),
                check(t(3)),
                write(h(1), t(0), whole(10)),
                fold(h(2), vec![t(0)], share(1, 1)),
                exhale(h(3), t(1), share(1, 2)),
                unfold(h(4), vec![t(0)], share(1, 2)),
                read(h(5), t(0)),
                positive(t(4)),
                check(t(5)),
                eq(t(4), whole(10)),
                check(t(6)),
            ],
        }),
        Declaration::Resource(Resource {
            params: vec![cell()],
            body: Some(ResourceBody {
                insts: vec![inhale(h(0), t(0), share(1, 1)), read(h(1), t(0)), positive(t(1))],
                res: (h(1), t(2)),
            }),
            pred: Some(PredMeta { addr_fn: 2, snap_cons: 3, snap_projs: vec![4] }),
            snapshot: None,
        }),
        function(vec![cell()], field(Type::Snap(1))),
        function(vec![Type::Int], Type::Snap(1)),
        function(vec![Type::Snap(1)], Type::Option(Box::new(Type::Int))),
    ];
    assert!(outcome(decls).is_ok());
}

#[test]
fn a_prefix_of_a_good_method_is_good() {
    let insts = |n: usize| {
        let mut all = vec![
            fresh(field(Type::Int)),
            inhale(HeapVal::Empty, t(0), share(1, 1)),
            write(h(0), t(0), whole(3)),
            read(h(1), t(0)),
            eq(t(1), whole(3)),
            check(t(2)),
        ];
        all.truncate(n);
        all
    };
    for n in 0..7 {
        assert!(method(insts(n)).is_ok());
    }
}
