use silver_oxide::interner::Interner;
use silver_oxide::lang::FuncId;
use silver_oxide::meta::derive_adt_meta;
use silver_oxide::method::error::VerifyError;
use silver_oxide::mono::Allocator;
use silver_oxide::nums::{Int, Rat};
use silver_oxide::prelude::with_prelude;
use silver_oxide::program::{
    Adt, AdtCtor, AdtOps, AdtVariant, Assign, Declaration, HeapInst, HeapVal, Inst, InstKind,
    Method, PathConds, Program, PureInst, Resource, ResourceBody, ResourceCall, Sign, Target,
};
use silver_oxide::quant::Quantifiers;
use silver_oxide::verify::{verification_order, verify, AnalyzedProgram};
use silver_oxide::vmir::{BinOp, Bound, Literal, Polarity, Type, Val};

fn always() -> PathConds {
    PathConds { conds: vec![] }
}

fn pure(ty: Type, pi: PureInst) -> Inst {
    Inst { pc: always(), kind: InstKind::Pure(ty, pi) }
}

fn step(kind: InstKind) -> Inst {
    Inst { pc: always(), kind }
}

fn share(n: i64, d: i64) -> Val {
    Val::Literal(Literal::Real(Rat::new(&Int::from_i64(n), &Int::from_i64(d))))
}

fn whole(n: i64) -> Val {
    Val::Literal(Literal::Int(Int::from_i64(n)))
}

fn location() -> Inst {
    pure(Type::addr(0, Type::Int, Bound::Unbounded), PureInst::Fresh)
}

fn combine(base: HeapVal, sign: Sign, loc: Val, perm: Val) -> Inst {
    step(InstKind::Heap(HeapInst::Combine { base, sign, target: Target::Loc(loc), perm }))
}

fn run_method(insts: Vec<Inst>) -> Result<(), VerifyError> {
    let (interner, _) = Interner::new().with_name("m");
    let a = AnalyzedProgram {
        program: Program { interner, decls: vec![Declaration::Method(Method { insts })] },
        quants: Quantifiers::none(),
        scc_order: vec![vec![0]],
    };
    let mut rows = verify(&a, &vec![]);
    assert_eq!(rows.len(), 1);
    let (name, result) = rows.pop().unwrap();
    assert_eq!(name, "m");
    result
}

fn stopped(r: Result<(), VerifyError>) -> (String, VerifyError) {
    match r {
        Err(VerifyError::AtInst { inst, source }) => (inst, *source),
        _ => panic!("expected a failure at an instruction"),
    }
}

#[test]
fn an_empty_method_verifies() {
    assert!(run_method(vec![]).is_ok());
}

#[test]
fn what_was_assumed_can_be_asserted() {
    let r = run_method(vec![
        pure(Type::Bool, PureInst::Fresh),
        step(InstKind::Assume(Val::Temp(0))),
        step(InstKind::Assert(Val::Temp(0))),
    ]);
    assert!(r.is_ok());
}

#[test]
fn an_unproven_assertion_fails() {
    let (at, cause) = stopped(run_method(vec![
        pure(Type::Bool, PureInst::Fresh),
        step(InstKind::Assert(Val::Temp(0))),
    ]));
    assert_eq!(at, "assert t0");
    assert!(matches!(cause, VerifyError::AssertionFailed));
}

#[test]
fn an_assertion_on_a_path_rests_on_the_path() {
    let on = |p: Polarity| PathConds { conds: vec![(Val::Temp(0), p)] };
    let assert_on = |p: Polarity| {
        run_method(vec![
            pure(Type::Bool, PureInst::Fresh),
            Inst { pc: on(p), kind: InstKind::Assert(Val::Temp(0)) },
        ])
    };
    assert!(assert_on(Polarity::Positive).is_ok());
    assert!(assert_on(Polarity::Negative).is_err());
}

#[test]
fn no_more_than_what_is_held_can_be_given_up() {
    let give_up = |perm: Val| {
        run_method(vec![
            location(),
            combine(HeapVal::Empty, Sign::Add, Val::Temp(0), share(1, 2)),
            combine(HeapVal::Temp(0), Sign::Sub, Val::Temp(0), perm),
        ])
    };
    assert!(give_up(share(1, 2)).is_ok());
    assert!(give_up(share(1, 3)).is_ok());
    let (at, cause) = stopped(give_up(share(1, 1)));
    assert_eq!(at, "h1 = h0 - acc(t0, 1)");
    assert!(matches!(cause, VerifyError::InsufficientPermission));
}

#[test]
fn a_written_value_is_read_back() {
    let write = |perm: Val| {
        run_method(vec![
            location(),
            combine(HeapVal::Empty, Sign::Add, Val::Temp(0), perm),
            step(InstKind::Heap(HeapInst::Assign(
                HeapVal::Temp(0),
                Assign { loc: Val::Temp(0), val: whole(42) },
            ))),
            pure(Type::Int, PureInst::Deref(HeapVal::Temp(1), Val::Temp(0))),
            pure(Type::Bool, PureInst::Binary(BinOp::Eq, Val::Temp(1), whole(42))),
            step(InstKind::Assert(Val::Temp(2))),
        ])
    };
    assert!(write(share(1, 1)).is_ok());
    let (at, cause) = stopped(write(share(1, 2)));
    assert_eq!(at, "h1 = h0[t0] := 42");
    assert!(matches!(cause, VerifyError::InsufficientPermission));
}

#[test]
fn a_read_needs_permission() {
    let (at, cause) = stopped(run_method(vec![
        location(),
        pure(Type::Int, PureInst::Deref(HeapVal::Empty, Val::Temp(0))),
    ]));
    assert_eq!(at, "t1 = empty[t0]");
    assert!(matches!(cause, VerifyError::InsufficientPermission));
}

#[test]
fn a_divisor_in_a_resource_must_not_be_zero() {
    let divide = |by: Val| {
        let resource = Declaration::Resource(Resource {
            params: vec![Type::Int],
            body: Some(ResourceBody {
                insts: vec![pure(Type::Int, PureInst::Binary(BinOp::DivI, whole(6), by))],
                res: (HeapVal::Temp(0), Val::Literal(Literal::Bool(true))),
            }),
            pred: None,
            snapshot: None,
        });
        let a = AnalyzedProgram {
            program: Program { interner: Interner::new(), decls: vec![resource] },
            quants: Quantifiers::none(),
            scc_order: vec![vec![0]],
        };
        verify(&a, &vec![]).pop().unwrap().1
    };
    assert!(divide(whole(2)).is_ok());
    let (at, cause) = stopped(divide(Val::Temp(0)));
    assert_eq!(at, "t1 = 6 / t0");
    assert!(matches!(cause, VerifyError::SideCondition(_)));
}

#[test]
fn a_resource_is_certified_before_it_is_used() {
    let resource = |insts: Vec<Inst>, heap: HeapVal| {
        Declaration::Resource(Resource {
            params: vec![Type::addr(0, Type::Int, Bound::Unbounded)],
            body: Some(ResourceBody {
                insts,
                res: (heap, Val::Literal(Literal::Bool(true))),
            }),
            pred: None,
            snapshot: None,
        })
    };
    let call = |base: HeapVal, sign: Sign, perm: Val| {
        step(InstKind::Heap(HeapInst::Combine {
            base,
            sign,
            target: Target::Resource(ResourceCall { resource: 1, args: vec![Val::Temp(0)] }),
            perm,
        }))
    };
    let (interner, _) = Interner::new().with_name("m");
    let (interner, _) = interner.with_name("acc");
    let a = AnalyzedProgram {
        program: Program {
            interner,
            decls: vec![
                Declaration::Method(Method {
                    insts: vec![
                        location(),
                        call(HeapVal::Empty, Sign::Add, share(1, 1)),
                        pure(Type::Int, PureInst::Deref(HeapVal::Temp(0), Val::Temp(0))),
                        call(HeapVal::Temp(0), Sign::Sub, share(1, 1)),
                        call(HeapVal::Temp(1), Sign::Sub, share(1, 1)),
                    ],
                }),
                resource(
                    vec![combine(HeapVal::Temp(0), Sign::Add, Val::Temp(0), share(1, 1))],
                    HeapVal::Temp(1),
                ),
            ],
        },
        quants: Quantifiers::none(),
        scc_order: vec![vec![0], vec![1]],
    };
    assert_eq!(verification_order(&a), vec![1, 0]);
    let mut rows = verify(&a, &vec![]);
    assert_eq!(rows.len(), 2);
    let (name, result) = rows.remove(0);
    assert_eq!(name, "acc");
    assert!(result.is_ok());
    // What was given up cannot be given up a second time.
    let (name, result) = rows.remove(0);
    assert_eq!(name, "m");
    let (at, cause) = stopped(result);
    assert_eq!(at, "h2 = h1 - acc(r1(t0), 1)");
    assert!(matches!(cause, VerifyError::InsufficientPermission));
}

#[test]
fn the_option_type_is_declared_once() {
    let (interner, _) = Interner::new().with_name("Tree");
    let p = with_prelude(Program { interner, decls: vec![Declaration::Domain] });
    assert_eq!(p.decls.len(), 2);
    assert_eq!(p.name(1), "Option");
    assert!(matches!(&p.decls[1], Declaration::Adt(adt) if adt.variants.len() == 2));
    let p = with_prelude(p);
    assert_eq!(p.decls.len(), 2);
}

#[test]
fn the_functions_of_an_adt_are_gathered() {
    let adt = Adt {
        variants: vec![],
        ops: Some(AdtOps {
            tag_fn: 10,
            constructors: vec![
                AdtCtor { ctor_fn: 11, tag: 0, projections: vec![12, 13] },
                AdtCtor { ctor_fn: 14, tag: 1, projections: vec![] },
            ],
        }),
    };
    let p = Program { interner: Interner::new(), decls: vec![Declaration::Adt(adt)] };
    let meta = derive_adt_meta(&p);
    assert_eq!(meta.dtors.get(&13), Some(&(11, 1)));
    assert_eq!(meta.dtors.len(), 2);
    assert_eq!(meta.tag_fns[&10][&14], 1);
}

#[test]
fn minted_functions_are_distinct_and_kept() {
    let adt = Adt {
        variants: vec![
            AdtVariant { name: None, field_types: vec![Type::Int, Type::Bool] },
            AdtVariant { name: None, field_types: vec![] },
        ],
        ops: None,
    };
    let p = Program { interner: Interner::new(), decls: vec![Declaration::Adt(adt)] };
    let mut alloc = Allocator::new(&p);
    let tag = alloc.tag(0);
    let all = vec![
        tag,
        alloc.cons(0, 0),
        alloc.proj(0, 0, 0),
        alloc.proj(0, 0, 1),
        alloc.cons(0, 1),
    ];
    let want: Vec<FuncId> = (0..5).map(|i| FuncId(tag.0 + i)).collect();
    assert_eq!(all, want);
    assert_eq!(alloc.tag(0), tag);
    let (some, value, none) = (alloc.option_some(), alloc.option_value(), alloc.option_none());
    assert!(some.0 > tag.0 + 4);
    assert_eq!(value.0, some.0 + 1);
    assert_eq!(none.0, some.0 + 2);
}
