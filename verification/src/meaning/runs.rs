//! What the results of a program mean.

use crate::lang::FuncId;
use crate::meaning::slots::{law_method_executes, on_path};
use crate::meaning::values::{computes, operand};
use crate::method::graft::ResourceCertificate;
use crate::method::resource::OptionOps;
use crate::method::run::pures;
use crate::method::unit::{certifies, method_verified, CertSteps, Trail};
use crate::model::Model;
use crate::program::{Declaration, InstKind, Method, Program, Resource};
use crate::verify::{
    all_verified, decl_ok, env_with, flattened, groups_with, has_method, is_unit, option_of, order_of,
    unit_step, units, AnalyzedProgram, VerifyResult,
};
use crate::vmir::{MemberId, Value};
use std::collections::HashMap;
use vstd::prelude::*;

verus! {

/// Slots that are an execution of a method: every pure instruction leaves what it computes
/// of them, every assumption is true, and every assertion is true where its path is taken.
pub open spec fn executes(m: Model, x: Seq<Value>, method: Method) -> bool {
    forall|i: int|
        0 <= i < method.insts@.len() ==> match (#[trigger] method.insts@[i]).kind {
            InstKind::Pure(_, pi) => pures(method.insts@.take(i)) < x.len() && computes(
                m,
                x,
                pi,
                x[pures(method.insts@.take(i)) as int],
            ),
            InstKind::Assume(v) => operand(x, v) == Value::Bool(true),
            InstKind::Assert(v) => on_path(x, method.insts@[i].pc.conds@) ==> operand(x, v)
                == Value::Bool(true),
            InstKind::Heap(_) => true,
        }
}

/// A good row of a method means that every way in which its slots can be filled, as far as
/// the models of its last graph tell, is an execution in which every assertion on a path
/// that is taken is true.
pub proof fn law_good_row(
    a: AnalyzedProgram,
    option: OptionOps,
    drop: Seq<String>,
    ids: Seq<MemberId>,
    rows: Seq<VerifyResult>,
    certs: Seq<HashMap<MemberId, ResourceCertificate>>,
    k: int,
    method: Method,
)
    requires
        all_verified(a, option, drop, ids, rows, certs),
        0 <= k < ids.len(),
        a.program.decls@[ids[k] as int] == Declaration::Method(method),
        decl_ok(Declaration::Method(method)),
        rows[k].1 is Ok,
    ensures
        rows[k].0@ == a.program.name_of(ids[k] as nat),
        exists|t: Trail|
            {
                &&& #[trigger] method_verified(env_with(a, option, certs[k]), drop, method, t)
                &&& !t.ctxs.last().graph.full() ==> forall|m: Model| #[trigger]
                    t.ctxs.last().graph.models(m) ==> executes(
                        m,
                        m.all(t.slots.last().vals),
                        method,
                    )
            },
{
    let env = env_with(a, option, certs[k]);
    assert(unit_step(env, drop, ids[k], rows[k], certs[k]@, certs[k + 1]@));
    let t = choose|t: Trail| #[trigger] method_verified(env, drop, method, t);
    if !t.ctxs.last().graph.full() {
        assert forall|m: Model| #[trigger] t.ctxs.last().graph.models(m) implies executes(
            m,
            m.all(t.slots.last().vals),
            method,
        ) by {
            assert forall|i: int| 0 <= i < method.insts@.len() implies match (
            #[trigger] method.insts@[i]).kind {
                InstKind::Pure(_, pi) => pures(method.insts@.take(i)) < t.slots.last().vals.len()
                    && computes(
                    m,
                    m.all(t.slots.last().vals),
                    pi,
                    m.all(t.slots.last().vals)[pures(method.insts@.take(i)) as int],
                ),
                InstKind::Assume(v) => operand(m.all(t.slots.last().vals), v) == Value::Bool(true),
                InstKind::Assert(v) => on_path(
                    m.all(t.slots.last().vals),
                    method.insts@[i].pc.conds@,
                ) ==> operand(m.all(t.slots.last().vals), v) == Value::Bool(true),
                InstKind::Heap(_) => true,
            } by {
                law_method_executes(env, drop, method, t, m, i);
            }
        }
    }
}

/// A certificate at hand is that of a resource whose own row is good and comes earlier.
pub proof fn law_certificates_earned(
    a: AnalyzedProgram,
    option: OptionOps,
    drop: Seq<String>,
    ids: Seq<MemberId>,
    rows: Seq<VerifyResult>,
    certs: Seq<HashMap<MemberId, ResourceCertificate>>,
    k: int,
    id: MemberId,
)
    requires
        all_verified(a, option, drop, ids, rows, certs),
        0 <= k <= ids.len(),
        certs[k]@.dom().contains(id),
    ensures
        a.program.decls@[id as int] is Resource,
        exists|j: int, s: CertSteps|
            #![trigger rows[j], s.done]
            0 <= j < k && ids[j] == id && rows[j].1 is Ok && (a.program.decls@[id as int]->Resource_0.body matches Some(body)
                && certifies(
                env_with(a, option, certs[j]),
                drop,
                a.program.decls@[id as int]->Resource_0.params@.len(),
                body,
                certs[k]@[id],
                s,
            )),
    decreases k,
{
    if k > 0 {
        let j = k - 1;
        let env = env_with(a, option, certs[j]);
        assert(unit_step(env, drop, ids[j], rows[j], certs[j]@, certs[j + 1]@));
        if certs[j]@.dom().contains(id) && certs[j]@[id] == certs[k]@[id] {
            law_certificates_earned(a, option, drop, ids, rows, certs, j, id);
            let (i, s) = choose|i: int, s: CertSteps|
                #![trigger rows[i], s.done]
                0 <= i < j && ids[i] == id && rows[i].1 is Ok && (
                a.program.decls@[id as int]->Resource_0.body matches Some(body) && certifies(
                    env_with(a, option, certs[i]),
                    drop,
                    a.program.decls@[id as int]->Resource_0.params@.len(),
                    body,
                    certs[j]@[id],
                    s,
                ));
            assert(rows[i].1 is Ok && s.done == s.done);
        } else {
            assert(ids[j] == id);
            let r = a.program.decls@[id as int]->Resource_0;
            let body = r.body.unwrap();
            let (cert, s) = choose|cert: ResourceCertificate, s: CertSteps|
                #![trigger certifies(env, drop, r.params@.len(), body, cert, s)]
                certifies(env, drop, r.params@.len(), body, cert, s) && certs[k]@
                    == certs[j]@.insert(id, cert);
            assert(rows[j].1 is Ok && s.done == s.done);
        }
    }
}

/// Certificates stay: a good row of a resource with a body leaves one for every later row.
pub proof fn law_certificates_stay(
    a: AnalyzedProgram,
    option: OptionOps,
    drop: Seq<String>,
    ids: Seq<MemberId>,
    rows: Seq<VerifyResult>,
    certs: Seq<HashMap<MemberId, ResourceCertificate>>,
    j: int,
    k: int,
    r: Resource,
)
    requires
        all_verified(a, option, drop, ids, rows, certs),
        0 <= j < k <= ids.len(),
        a.program.decls@[ids[j] as int] == Declaration::Resource(r),
        r.body is Some,
        rows[j].1 is Ok,
    ensures
        certs[k]@.dom().contains(ids[j]),
    decreases k - j,
{
    let i = k - 1;
    assert(unit_step(
        env_with(a, option, certs[i]),
        drop,
        ids[i],
        rows[i],
        certs[i]@,
        certs[i + 1]@,
    ));
    if j < i {
        law_certificates_stay(a, option, drop, ids, rows, certs, j, i, r);
    }
}

proof fn lemma_kept(p: Program, groups: Seq<Vec<MemberId>>, methods: bool, g: int)
    requires
        0 <= g < groups.len(),
        has_method(p, groups[g]@) == methods,
    ensures
        groups_with(p, groups, methods).contains(groups[g]),
    decreases groups.len(),
{
    let front = groups.drop_last();
    let f = groups_with(p, front, methods);
    let all = groups_with(p, groups, methods);
    if g < groups.len() - 1 {
        assert(front[g] == groups[g]);
        lemma_kept(p, front, methods, g);
        let i = choose|i: int| 0 <= i < f.len() && f[i] == groups[g];
        assert(all[i] == groups[g]);
    } else {
        assert(all[f.len() as int] == groups[g]);
    }
}

proof fn lemma_flat(groups: Seq<Vec<MemberId>>, g: int, k: int)
    requires
        0 <= g < groups.len(),
        0 <= k < groups[g]@.len(),
    ensures
        flattened(groups).contains(groups[g]@[k]),
    decreases groups.len(),
{
    let front = groups.drop_last();
    let f = flattened(front);
    let all = flattened(groups);
    if g < groups.len() - 1 {
        assert(front[g] == groups[g]);
        lemma_flat(front, g, k);
        let i = choose|i: int| 0 <= i < f.len() && f[i] == groups[g]@[k];
        assert(all[i] == groups[g]@[k]);
    } else {
        assert(all[f.len() + k] == groups[g]@[k]);
    }
}

proof fn lemma_units(p: Program, ids: Seq<MemberId>, id: MemberId)
    requires
        ids.contains(id),
        is_unit(p.decls@[id as int]),
    ensures
        units(p, ids).contains(id),
    decreases ids.len(),
{
    let front = ids.drop_last();
    let f = units(p, front);
    let all = units(p, ids);
    let i = choose|i: int| 0 <= i < ids.len() && ids[i] == id;
    if i < ids.len() - 1 {
        assert(front[i] == id);
        lemma_units(p, front, id);
        let j = choose|j: int| 0 <= j < f.len() && f[j] == id;
        assert(all[j] == id);
    } else {
        assert(all[f.len() as int] == id);
    }
}

/// Every resource and every method of a group has a row.
pub proof fn law_every_member(p: Program, groups: Seq<Vec<MemberId>>, g: int, k: int)
    requires
        0 <= g < groups.len(),
        0 <= k < groups[g]@.len(),
        p.decls@[groups[g]@[k] as int] is Resource || p.decls@[groups[g]@[k] as int] is Method,
    ensures
        units(p, order_of(p, groups)).contains(groups[g]@[k]),
{
    let id = groups[g]@[k];
    let methods = has_method(p, groups[g]@);
    lemma_kept(p, groups, methods, g);
    let kept = groups_with(p, groups, methods);
    let i = choose|i: int| 0 <= i < kept.len() && kept[i] == groups[g];
    lemma_flat(kept, i, k);
    let part = flattened(kept);
    let j = choose|j: int| 0 <= j < part.len() && part[j] == id;
    let early = flattened(groups_with(p, groups, false));
    if methods {
        assert(order_of(p, groups)[early.len() + j] == id);
    } else {
        assert(order_of(p, groups)[j] == id);
    }
    lemma_units(p, order_of(p, groups), id);
}

/// Every row is that of a resource or a method of a group.
pub proof fn law_only_members(p: Program, groups: Seq<Vec<MemberId>>, j: int)
    requires
        0 <= j < units(p, order_of(p, groups)).len(),
    ensures
        ({
            let id = units(p, order_of(p, groups))[j];
            &&& p.decls@[id as int] is Resource || p.decls@[id as int] is Method
            &&& exists|g: int, k: int|
                0 <= g < groups.len() && 0 <= k < groups[g]@.len() && #[trigger] groups[g]@[k] == id
        }),
{
    let ids = order_of(p, groups);
    lemma_unit_from(p, ids, j);
    let id = units(p, ids)[j];
    let i = choose|i: int| 0 <= i < ids.len() && ids[i] == id;
    let early = flattened(groups_with(p, groups, false));
    if i < early.len() {
        lemma_flat_from(groups_with(p, groups, false), i);
        lemma_kept_from(p, groups, false, id);
    } else {
        lemma_flat_from(groups_with(p, groups, true), i - early.len());
        lemma_kept_from(p, groups, true, id);
    }
}

proof fn lemma_unit_from(p: Program, ids: Seq<MemberId>, j: int)
    requires
        0 <= j < units(p, ids).len(),
    ensures
        is_unit(p.decls@[units(p, ids)[j] as int]),
        ids.contains(units(p, ids)[j]),
    decreases ids.len(),
{
    let front = ids.drop_last();
    let f = units(p, front);
    if j < f.len() {
        lemma_unit_from(p, front, j);
        let i = choose|i: int| 0 <= i < front.len() && front[i] == f[j];
        assert(ids[i] == f[j]);
    } else {
        assert(ids[ids.len() - 1] == ids.last());
    }
}

proof fn lemma_flat_from(groups: Seq<Vec<MemberId>>, i: int)
    requires
        0 <= i < flattened(groups).len(),
    ensures
        exists|g: int, k: int|
            0 <= g < groups.len() && 0 <= k < groups[g]@.len() && #[trigger] groups[g]@[k]
                == flattened(groups)[i],
    decreases groups.len(),
{
    let front = groups.drop_last();
    let f = flattened(front);
    if i < f.len() {
        lemma_flat_from(front, i);
        let (g, k) = choose|g: int, k: int|
            0 <= g < front.len() && 0 <= k < front[g]@.len() && #[trigger] front[g]@[k] == f[i];
        assert(groups[g]@[k] == flattened(groups)[i]);
    } else {
        assert(groups[groups.len() - 1]@[i - f.len()] == flattened(groups)[i]);
    }
}

proof fn lemma_kept_from(p: Program, groups: Seq<Vec<MemberId>>, methods: bool, id: MemberId)
    requires
        exists|g: int, k: int|
            0 <= g < groups_with(p, groups, methods).len() && 0 <= k < groups_with(
                p,
                groups,
                methods,
            )[g]@.len() && #[trigger] groups_with(p, groups, methods)[g]@[k] == id,
    ensures
        exists|g: int, k: int|
            0 <= g < groups.len() && 0 <= k < groups[g]@.len() && #[trigger] groups[g]@[k] == id,
    decreases groups.len(),
{
    let all = groups_with(p, groups, methods);
    let (g, k) = choose|g: int, k: int|
        0 <= g < all.len() && 0 <= k < all[g]@.len() && #[trigger] all[g]@[k] == id;
    let front = groups.drop_last();
    let f = groups_with(p, front, methods);
    if g < f.len() {
        assert(f[g]@[k] == id);
        lemma_kept_from(p, front, methods, id);
        let (h, l) = choose|h: int, l: int|
            0 <= h < front.len() && 0 <= l < front[h]@.len() && #[trigger] front[h]@[l] == id;
        assert(groups[h]@[l] == id);
    } else {
        assert(groups[groups.len() - 1]@[k] == id);
    }
}

/// The functions of the option type are three, and none of them is declared.
pub proof fn law_option_ids(p: Program, id: MemberId)
    requires
        p.decls@.len() + 5 <= usize::MAX,
        id < p.decls@.len(),
    ensures
        option_of(p).some != option_of(p).none,
        option_of(p).some != option_of(p).value,
        option_of(p).none != option_of(p).value,
        option_of(p).some != FuncId(id),
        option_of(p).none != FuncId(id),
        option_of(p).value != FuncId(id),
{
}

} // verus!
