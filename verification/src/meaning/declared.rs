//! What the rules of a program say of its declarations.

use crate::context::Context;
use crate::lang::FuncId;
use crate::method::resource::Env;
use crate::method::unit::{all_decl_rules, ctors_rules, decl_rules, field_rules, parts_of, starts};
use crate::model::Model;
use crate::mono::in_turn;
use crate::program::{AdtCtor, Declaration};
use crate::rewrite::instantiate::{quantifies, QuantRecipe};
use crate::rewrite::names::kept_rules;
use crate::rewrite::prints::Ctor;
use crate::rewrite::proj::{reads_field, ProjApplier};
use crate::rewrite::rules::Rule;
use crate::rewrite::table::{law_static_rules_sound, static_table};
use crate::vmir::{MemberId, TypeV, Value};
use vstd::prelude::*;

verus! {

/// A function reads argument `k` of what a constructor builds.
pub open spec fn reads_argument(m: Model, accessor: MemberId, ctor: MemberId, k: int) -> bool {
    forall|s: Seq<TypeV>, t: Seq<TypeV>, a: Seq<Value>|
        #![trigger (m.func)(FuncId(accessor), s, seq![(m.func)(FuncId(ctor), t, a)])]
        k < a.len() ==> (m.func)(FuncId(accessor), s, seq![(m.func)(FuncId(ctor), t, a)]) == a[k]
}

/// A function tells what a constructor builds by a number.
pub open spec fn tells(m: Model, tag_fn: MemberId, ctor: MemberId, tag: usize) -> bool {
    forall|s: Seq<TypeV>, t: Seq<TypeV>, a: Seq<Value>|
        #![trigger (m.func)(FuncId(tag_fn), s, seq![(m.func)(FuncId(ctor), t, a)])]
        (m.func)(FuncId(tag_fn), s, seq![(m.func)(FuncId(ctor), t, a)]) == Value::Int(tag as int)
}

/// The functions of a declaration are what it declares them to be: the projections of a
/// constructor read its arguments in their order, and the tag function tells the tag of
/// each constructor; the projections of a snapshot read what it was made of.
pub open spec fn as_declared(m: Model, d: Declaration) -> bool {
    match d {
        Declaration::Adt(adt) => adt.ops matches Some(ops) ==> forall|c: int|
            0 <= c < ops.constructors@.len() ==> #[trigger] ctor_as_declared(
                m,
                ops.tag_fn,
                ops.constructors@[c],
            ),
        Declaration::Resource(r) => r.pred matches Some(p) ==> forall|k: int|
            0 <= k < p.snap_projs@.len() ==> reads_argument(
                m,
                #[trigger] p.snap_projs@[k],
                p.snap_cons,
                k,
            ),
        _ => true,
    }
}

/// The projections of a constructor read its arguments in their order, and the tag
/// function tells its tag.
pub open spec fn ctor_as_declared(m: Model, tag_fn: MemberId, c: AdtCtor) -> bool {
    &&& tells(m, tag_fn, c.ctor_fn, c.tag)
    &&& forall|k: int|
        0 <= k < c.projections@.len() ==> reads_argument(
            m,
            #[trigger] c.projections@[k],
            c.ctor_fn,
            k,
        )
}

/// Rules hold one by one.
pub open spec fn all_rules(rs: Seq<Rule>, cs: Seq<Ctor>, table: Seq<QuantRecipe>, m: Model) -> bool {
    forall|i: int| 0 <= i < rs.len() ==> (#[trigger] rs[i]).holds(cs, table, m)
}

proof fn lemma_fields(
    ctor: MemberId,
    projs: Seq<MemberId>,
    cs: Seq<Ctor>,
    table: Seq<QuantRecipe>,
    m: Model,
)
    requires
        projs.len() <= usize::MAX,
    ensures
        all_rules(field_rules(ctor, projs), cs, table, m) <==> forall|k: int|
            0 <= k < projs.len() ==> reads_argument(m, #[trigger] projs[k], ctor, k),
{
    let rs = field_rules(ctor, projs);
    if all_rules(rs, cs, table, m) {
        assert forall|k: int| 0 <= k < projs.len() implies reads_argument(
            m,
            #[trigger] projs[k],
            ctor,
            k,
        ) by {
            assert(rs[k].holds(cs, table, m));
            assert(reads_field(m, FuncId(projs[k]), FuncId(ctor), k as usize));
        }
    }
    if forall|k: int| 0 <= k < projs.len() ==> reads_argument(m, #[trigger] projs[k], ctor, k) {
        assert forall|i: int| 0 <= i < rs.len() implies (#[trigger] rs[i]).holds(cs, table, m) by {
            assert(reads_argument(m, projs[i], ctor, i));
            assert(reads_field(m, FuncId(projs[i]), FuncId(ctor), i as usize));
        }
    }
}

proof fn lemma_all_joined(a: Seq<Rule>, b: Seq<Rule>, cs: Seq<Ctor>, table: Seq<QuantRecipe>, m: Model)
    ensures
        all_rules(a + b, cs, table, m) <==> all_rules(a, cs, table, m) && all_rules(b, cs, table, m),
{
    let all = a + b;
    if all_rules(all, cs, table, m) {
        assert forall|i: int| 0 <= i < a.len() implies (#[trigger] a[i]).holds(cs, table, m) by {
            assert(all[i] == a[i]);
            assert(all[i].holds(cs, table, m));
        }
        assert forall|i: int| 0 <= i < b.len() implies (#[trigger] b[i]).holds(cs, table, m) by {
            assert(all[a.len() + i] == b[i]);
            assert(all[a.len() + i].holds(cs, table, m));
        }
    }
    if all_rules(a, cs, table, m) && all_rules(b, cs, table, m) {
        assert forall|i: int| 0 <= i < all.len() implies (#[trigger] all[i]).holds(cs, table, m) by {
            if i < a.len() {
                assert(all[i] == a[i]);
            } else {
                assert(all[i] == b[i - a.len()]);
            }
        }
    }
}

/// Every projection of constructors reads its argument.
spec fn ctors_read(m: Model, ctors: Seq<AdtCtor>) -> bool {
    forall|c: int, k: int|
        #![trigger ctors[c].projections@[k]]
        0 <= c < ctors.len() && 0 <= k < ctors[c].projections@.len() ==> reads_argument(
            m,
            ctors[c].projections@[k],
            ctors[c].ctor_fn,
            k,
        )
}

proof fn lemma_ctors(
    ctors: Seq<AdtCtor>,
    cs: Seq<Ctor>,
    table: Seq<QuantRecipe>,
    m: Model,
)
    ensures
        all_rules(ctors_rules(ctors), cs, table, m) <==> ctors_read(m, ctors),
    decreases ctors.len(),
{
    if ctors.len() > 0 {
        let front = ctors.drop_last();
        let last = ctors.last();
        lemma_ctors(front, cs, table, m);
        assert(last.projections.len() == last.projections@.len());
        lemma_fields(last.ctor_fn, last.projections@, cs, table, m);
        lemma_all_joined(
            ctors_rules(front),
            field_rules(last.ctor_fn, last.projections@),
            cs,
            table,
            m,
        );
        if ctors_read(m, ctors) {
            assert forall|c: int, k: int|
                #![trigger front[c].projections@[k]]
                0 <= c < front.len() && 0 <= k < front[c].projections@.len() implies reads_argument(
                m,
                front[c].projections@[k],
                front[c].ctor_fn,
                k,
            ) by {
                assert(front[c] == ctors[c]);
                assert(reads_argument(m, ctors[c].projections@[k], ctors[c].ctor_fn, k));
            }
            let n = ctors.len() - 1;
            assert forall|k: int| 0 <= k < last.projections@.len() implies reads_argument(
                m,
                #[trigger] last.projections@[k],
                last.ctor_fn,
                k,
            ) by {
                assert(reads_argument(m, ctors[n].projections@[k], ctors[n].ctor_fn, k));
            }
        }
        if ctors_read(m, front) && forall|k: int|
            0 <= k < last.projections@.len() ==> reads_argument(
                m,
                #[trigger] last.projections@[k],
                last.ctor_fn,
                k,
            ) {
            assert forall|c: int, k: int|
                #![trigger ctors[c].projections@[k]]
                0 <= c < ctors.len() && 0 <= k < ctors[c].projections@.len() implies reads_argument(
                m,
                ctors[c].projections@[k],
                ctors[c].ctor_fn,
                k,
            ) by {
                if c < front.len() {
                    assert(front[c] == ctors[c]);
                    assert(reads_argument(m, front[c].projections@[k], front[c].ctor_fn, k));
                } else {
                    assert(reads_argument(m, last.projections@[k], last.ctor_fn, k));
                }
            }
        }
    }
}

/// The rules of a declaration hold exactly where its functions are what it declares.
pub proof fn law_declaration_rules(
    d: Declaration,
    rs: Seq<Rule>,
    cs: Seq<Ctor>,
    table: Seq<QuantRecipe>,
    m: Model,
)
    requires
        decl_rules(d, rs),
    ensures
        all_rules(rs, cs, table, m) <==> as_declared(m, d),
{
    match d {
        Declaration::Adt(adt) => {
            if let Some(ops) = adt.ops {
                let ctors = ops.constructors@;
                let front = rs.drop_last();
                let tag = seq![rs.last()];
                assert(front + tag =~= rs);
                lemma_ctors(ctors, cs, table, m);
                lemma_all_joined(front, tag, cs, table, m);
                let t = rs.last()->Tag_0;
                let tags = t.ctor_tags@;
                if all_rules(rs, cs, table, m) {
                    assert(tag[0].holds(cs, table, m));
                    assert forall|c: int| 0 <= c < ctors.len() implies #[trigger] ctor_as_declared(
                        m,
                        ops.tag_fn,
                        ctors[c],
                    ) by {
                        assert(tags[c] == (FuncId(ctors[c].ctor_fn), ctors[c].tag));
                        assert forall|s: Seq<TypeV>, u: Seq<TypeV>, a: Seq<Value>|
                            #![trigger (m.func)(
                                FuncId(ops.tag_fn),
                                s,
                                seq![(m.func)(FuncId(ctors[c].ctor_fn), u, a)],
                            )]
                            (m.func)(
                                FuncId(ops.tag_fn),
                                s,
                                seq![(m.func)(FuncId(ctors[c].ctor_fn), u, a)],
                            ) == Value::Int(ctors[c].tag as int) by {
                            assert((m.func)(t.tag_fn, s, seq![(m.func)(tags[c].0, u, a)])
                                == Value::Int(tags[c].1 as int));
                        }
                        assert(tells(m, ops.tag_fn, ctors[c].ctor_fn, ctors[c].tag));
                        assert forall|k: int| 0 <= k < ctors[c].projections@.len() implies
                            reads_argument(
                            m,
                            #[trigger] ctors[c].projections@[k],
                            ctors[c].ctor_fn,
                            k,
                        ) by {}
                    }
                }
                if as_declared(m, d) {
                    assert forall|c: int, k: int|
                        #![trigger ctors[c].projections@[k]]
                        0 <= c < ctors.len() && 0 <= k < ctors[c].projections@.len() implies
                        reads_argument(m, ctors[c].projections@[k], ctors[c].ctor_fn, k) by {
                        assert(ctor_as_declared(m, ops.tag_fn, ctors[c]));
                    }
                    assert(crate::rewrite::adt::tags_hold(m, t.tag_fn, tags)) by {
                        assert forall|i: int, s: Seq<TypeV>, u: Seq<TypeV>, a: Seq<Value>|
                            #![trigger (m.func)(t.tag_fn, s, seq![(m.func)(tags[i].0, u, a)])]
                            0 <= i < tags.len() implies (m.func)(
                            t.tag_fn,
                            s,
                            seq![(m.func)(tags[i].0, u, a)],
                        ) == Value::Int(tags[i].1 as int) by {
                            assert(ctor_as_declared(m, ops.tag_fn, ctors[i]));
                            assert(tags[i] == (FuncId(ctors[i].ctor_fn), ctors[i].tag));
                        }
                    }
                    assert(tag[0].holds(cs, table, m));
                }
            }
        },
        Declaration::Resource(r) => {
            if let Some(p) = r.pred {
                assert(p.snap_projs.len() == p.snap_projs@.len());
                lemma_fields(p.snap_cons, p.snap_projs@, cs, table, m);
            }
        },
        _ => {},
    }
}

proof fn lemma_parts(
    ds: Seq<Declaration>,
    parts: Seq<Seq<Rule>>,
    cs: Seq<Ctor>,
    table: Seq<QuantRecipe>,
    m: Model,
)
    requires
        parts_of(ds, parts),
    ensures
        all_rules(in_turn(parts), cs, table, m) <==> forall|i: int|
            0 <= i < ds.len() ==> as_declared(m, #[trigger] ds[i]),
    decreases ds.len(),
{
    if ds.len() > 0 {
        let df = ds.drop_last();
        let pf = parts.drop_last();
        let n = ds.len() - 1;
        assert forall|i: int| 0 <= i < df.len() implies decl_rules(#[trigger] df[i], pf[i]) by {
            assert(df[i] == ds[i]);
        }
        lemma_parts(df, pf, cs, table, m);
        assert(decl_rules(ds[n], parts[n]));
        law_declaration_rules(ds[n], parts[n], cs, table, m);
        lemma_all_joined(in_turn(pf), parts[n], cs, table, m);
        if forall|i: int| 0 <= i < ds.len() ==> as_declared(m, #[trigger] ds[i]) {
            assert forall|i: int| 0 <= i < df.len() implies as_declared(m, #[trigger] df[i]) by {
                assert(df[i] == ds[i]);
            }
            assert(as_declared(m, ds[n]));
        }
        if (forall|i: int| 0 <= i < df.len() ==> as_declared(m, #[trigger] df[i])) && as_declared(
            m,
            ds[n],
        ) {
            assert forall|i: int| 0 <= i < ds.len() implies as_declared(m, #[trigger] ds[i]) by {
                if i < n {
                    assert(df[i] == ds[i]);
                }
            }
        }
    }
}

proof fn lemma_kept_hold(
    rs: Seq<Rule>,
    drop: Seq<String>,
    cs: Seq<Ctor>,
    table: Seq<QuantRecipe>,
    m: Model,
)
    requires
        all_rules(rs, cs, table, m),
    ensures
        all_rules(kept_rules(rs, drop), cs, table, m),
    decreases rs.len(),
{
    if rs.len() > 0 {
        let rest = rs.drop_first();
        assert forall|i: int| 0 <= i < rest.len() implies (#[trigger] rest[i]).holds(
            cs,
            table,
            m,
        ) by {
            assert(rest[i] == rs[i + 1]);
        }
        lemma_kept_hold(rest, drop, cs, table, m);
        assert(rs[0].holds(cs, table, m));
        lemma_all_joined(seq![rs[0]], kept_rules(rest, drop), cs, table, m);
        assert forall|i: int| 0 <= i < seq![rs[0]].len() implies (#[trigger] seq![rs[0]][i]).holds(
            cs,
            table,
            m,
        ) by {}
    }
}

/// What the verification of a member rests on is what the program declares, and what its
/// quantifiers mean: the functions of every declaration are what it declares them to be,
/// what reads an optional value reads what it was made of, and the quantifiers are true of
/// their instances. Nothing else is rested on, and all of it is.
pub proof fn law_background(env: Env, drop: Seq<String>, c: Context, m: Model)
    requires
        starts(env, drop, c),
    ensures
        (c.background())(m) <==> {
            &&& forall|i: int|
                0 <= i < env.program.decls@.len() ==> as_declared(
                    m,
                    #[trigger] env.program.decls@[i],
                )
            &&& reads_argument(m, env.option.value.0, env.option.some.0, 0)
            &&& quantifies(env.quants.recipes@, m)
        },
{
    let rs = c.rules@;
    let cs = c.ctors@;
    let table = c.table@;
    let ds = env.program.decls@;
    let (st, mem) = choose|st: Seq<Rule>, mem: Seq<Rule>|
        {
            &&& #[trigger] static_table(st)
            &&& #[trigger] all_decl_rules(env.program.decls@, mem)
            &&& rs.len() > 0
            &&& rs.last() is Instantiate
            &&& rs.drop_last() == kept_rules(st, drop) + mem + seq![
                Rule::Proj(
                    ProjApplier { accessor: env.option.value, ctor: env.option.some, index: 0 },
                ),
            ]
        };
    let parts = choose|parts: Seq<Seq<Rule>>| #[trigger] parts_of(ds, parts) && mem == in_turn(parts);
    assert forall|i: int| 0 <= i < st.len() implies (#[trigger] st[i]).holds(cs, table, m) by {
        law_static_rules_sound(st, cs, table, m, i);
    }
    lemma_kept_hold(st, drop, cs, table, m);
    let kept = kept_rules(st, drop);
    let option = seq![
        Rule::Proj(
            ProjApplier { accessor: env.option.value, ctor: env.option.some, index: 0 },
        ),
    ];
    let end = seq![rs.last()];
    assert(rs =~= (kept + mem + option) + end);
    lemma_all_joined(kept + mem + option, end, cs, table, m);
    lemma_all_joined(kept + mem, option, cs, table, m);
    lemma_all_joined(kept, mem, cs, table, m);
    lemma_parts(ds, parts, cs, table, m);
    assert(all_rules(end, cs, table, m) <==> quantifies(table, m)) by {
        if all_rules(end, cs, table, m) {
            assert(end[0].holds(cs, table, m));
        }
    }
    assert(all_rules(option, cs, table, m) <==> reads_argument(
        m,
        env.option.value.0,
        env.option.some.0,
        0,
    )) by {
        if all_rules(option, cs, table, m) {
            assert(option[0].holds(cs, table, m));
            assert(reads_field(m, env.option.value, env.option.some, 0));
        }
        if reads_argument(m, env.option.value.0, env.option.some.0, 0) {
            assert(reads_field(m, env.option.value, env.option.some, 0));
        }
    }
    let only = seq![Rule::IteReduce];
    assert forall|i: int| 0 <= i < only.len() implies (#[trigger] only[i]).holds(cs, table, m) by {
        assert(only[i] == st[0]);
        assert(st[0].holds(cs, table, m));
    }
    lemma_kept_hold(only, drop, cs, table, m);
}

/// What the verification of a member rests on makes every projection of a declared
/// constructor read the argument of its place, and the tag function tell the tag.
pub proof fn law_constructors(
    env: Env,
    drop: Seq<String>,
    c: Context,
    m: Model,
    d: int,
    k: int,
    s: Seq<TypeV>,
    t: Seq<TypeV>,
    a: Seq<Value>,
)
    requires
        starts(env, drop, c),
        (c.background())(m),
        0 <= d < env.program.decls@.len(),
        env.program.decls@[d] matches Declaration::Adt(adt) && adt.ops is Some && 0 <= k
            < adt.ops.unwrap().constructors@.len(),
    ensures
        ({
            let ops = env.program.decls@[d]->Adt_0.ops.unwrap();
            let ctor = ops.constructors@[k];
            let built = (m.func)(FuncId(ctor.ctor_fn), t, a);
            &&& (m.func)(FuncId(ops.tag_fn), s, seq![built]) == Value::Int(ctor.tag as int)
            &&& forall|f: int|
                0 <= f < ctor.projections@.len() && f < a.len() ==> (m.func)(
                    FuncId(#[trigger] ctor.projections@[f]),
                    s,
                    seq![built],
                ) == a[f]
        }),
{
    law_background(env, drop, c, m);
    let decl = env.program.decls@[d];
    assert(as_declared(m, decl));
    let ops = decl->Adt_0.ops.unwrap();
    let ctor = ops.constructors@[k];
    assert(ctor_as_declared(m, ops.tag_fn, ctor));
    assert(tells(m, ops.tag_fn, ctor.ctor_fn, ctor.tag));
    let built = (m.func)(FuncId(ctor.ctor_fn), t, a);
    assert forall|f: int| 0 <= f < ctor.projections@.len() && f < a.len() implies (m.func)(
        FuncId(#[trigger] ctor.projections@[f]),
        s,
        seq![built],
    ) == a[f] by {
        assert(reads_argument(m, ctor.projections@[f], ctor.ctor_fn, f));
    }
}

/// What the verification of a member rests on makes every projection of a snapshot read
/// what the snapshot was made of.
pub proof fn law_snapshots(
    env: Env,
    drop: Seq<String>,
    c: Context,
    m: Model,
    d: int,
    s: Seq<TypeV>,
    t: Seq<TypeV>,
    a: Seq<Value>,
)
    requires
        starts(env, drop, c),
        (c.background())(m),
        0 <= d < env.program.decls@.len(),
        env.program.decls@[d] matches Declaration::Resource(r) && r.pred is Some,
    ensures
        ({
            let p = env.program.decls@[d]->Resource_0.pred.unwrap();
            forall|f: int|
                0 <= f < p.snap_projs@.len() && f < a.len() ==> (m.func)(
                    FuncId(#[trigger] p.snap_projs@[f]),
                    s,
                    seq![(m.func)(FuncId(p.snap_cons), t, a)],
                ) == a[f]
        }),
{
    law_background(env, drop, c, m);
    let decl = env.program.decls@[d];
    assert(as_declared(m, decl));
    let p = decl->Resource_0.pred.unwrap();
    assert forall|f: int| 0 <= f < p.snap_projs@.len() && f < a.len() implies (m.func)(
        FuncId(#[trigger] p.snap_projs@[f]),
        s,
        seq![(m.func)(FuncId(p.snap_cons), t, a)],
    ) == a[f] by {
        assert(reads_argument(m, p.snap_projs@[f], p.snap_cons, f));
    }
}

} // verus!
