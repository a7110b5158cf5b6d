//! Verifying a program, member by member.

use crate::lang::FuncId;
use crate::method::error::VerifyError;
use crate::method::graft::ResourceCertificate;
use crate::method::resource::{Env, OptionOps};
use crate::method::run::insts_ok;
use crate::method::unit::{
    certifies, method_fails, method_verified, resource_fails, resource_ok, verify_method, verify_resource,
    CertSteps, Trail,
};
use crate::mono::Allocator;
use crate::program::{Declaration, Method, Program};
use crate::quant::Quantifiers;
use crate::vmir::MemberId;
use std::collections::HashMap;
use vstd::prelude::*;

verus! {

broadcast use vstd::std_specs::hash::group_hash_axioms;

/// A program with its compiled quantifiers and its members grouped by mutual
/// dependency. A group comes after those that it depends on.
pub struct AnalyzedProgram {
    pub program: Program,
    pub quants: Quantifiers,
    pub scc_order: Vec<Vec<MemberId>>,
}

/// A member can be verified: its instructions refer to the slots that they fill.
pub open spec fn decl_ok(d: Declaration) -> bool {
    match d {
        Declaration::Resource(r) => resource_ok(r),
        Declaration::Method(m) => insts_ok(m.insts@, 0, 0),
        _ => true,
    }
}

/// A program can be verified: its members can, there is room for the ids of the option
/// type, and its groups name members.
pub open spec fn program_ok(p: Program, groups: Seq<Vec<MemberId>>) -> bool {
    &&& p.decls@.len() + 5 <= usize::MAX
    &&& forall|i: int| 0 <= i < p.decls@.len() ==> decl_ok(#[trigger] p.decls@[i])
    &&& forall|g: int, k: int|
        0 <= g < groups.len() && 0 <= k < groups[g]@.len() ==> #[trigger] groups[g]@[k]
            < p.decls@.len()
}

impl AnalyzedProgram {
    pub open spec fn wf(self) -> bool {
        self.quants.wf() && program_ok(self.program, self.scc_order@)
    }
}

/// A group that holds a method.
pub open spec fn has_method(p: Program, group: Seq<MemberId>) -> bool {
    exists|k: int| 0 <= k < group.len() && p.decls@[(#[trigger] group[k]) as int] is Method
}

/// The groups with a method, or those without one, in turn.
pub open spec fn groups_with(p: Program, groups: Seq<Vec<MemberId>>, methods: bool) -> Seq<Vec<MemberId>>
    decreases groups.len(),
{
    if groups.len() == 0 {
        Seq::empty()
    } else {
        let front = groups_with(p, groups.drop_last(), methods);
        if has_method(p, groups.last()@) == methods {
            front.push(groups.last())
        } else {
            front
        }
    }
}

/// The members of groups, one group after the other.
pub open spec fn flattened(groups: Seq<Vec<MemberId>>) -> Seq<MemberId>
    decreases groups.len(),
{
    if groups.len() == 0 {
        Seq::empty()
    } else {
        flattened(groups.drop_last()) + groups.last()@
    }
}

/// The order of verification: the groups without a method, then those with one. So
/// every certificate is there when the first method asks for it.
pub open spec fn order_of(p: Program, groups: Seq<Vec<MemberId>>) -> Seq<MemberId> {
    flattened(groups_with(p, groups, false)) + flattened(groups_with(p, groups, true))
}

fn group_has_method(p: &Program, group: &Vec<MemberId>) -> (r: bool)
    requires
        forall|k: int| 0 <= k < group@.len() ==> #[trigger] group@[k] < p.decls@.len(),
    ensures
        r == has_method(*p, group@),
{
    let mut i: usize = 0;
    while i < group.len()
        invariant
            i <= group@.len(),
            forall|k: int| 0 <= k < group@.len() ==> #[trigger] group@[k] < p.decls@.len(),
            forall|k: int| 0 <= k < i ==> !(p.decls@[(#[trigger] group@[k]) as int] is Method),
        decreases group.len() - i,
    {
        let id = group[i];
        if let Declaration::Method(_) = &p.decls[id] {
            proof {
                assert(p.decls@[group@[i as int] as int] is Method);
            }
            return true;
        }
        i += 1;
    }
    false
}

fn append_group(out: &mut Vec<MemberId>, group: &Vec<MemberId>)
    ensures
        final(out)@ == old(out)@ + group@,
{
    let ghost had = out@;
    let mut i: usize = 0;
    proof {
        assert(had + group@.take(0) =~= had);
    }
    while i < group.len()
        invariant
            i <= group@.len(),
            out@ == had + group@.take(i as int),
        decreases group.len() - i,
    {
        out.push(group[i]);
        i += 1;
        proof {
            assert(out@ =~= had + group@.take(i as int));
        }
    }
    proof {
        assert(group@.take(group@.len() as int) =~= group@);
    }
}

fn members_with(p: &Program, groups: &Vec<Vec<MemberId>>, methods: bool) -> (r: Vec<MemberId>)
    requires
        forall|g: int, k: int|
            0 <= g < groups@.len() && 0 <= k < groups@[g]@.len() ==> #[trigger] groups@[g]@[k]
                < p.decls@.len(),
    ensures
        r@ == flattened(groups_with(*p, groups@, methods)),
{
    let mut out: Vec<MemberId> = Vec::new();
    let mut i: usize = 0;
    proof {
        assert(groups@.take(0) =~= Seq::empty());
    }
    while i < groups.len()
        invariant
            i <= groups@.len(),
            forall|g: int, k: int|
                0 <= g < groups@.len() && 0 <= k < groups@[g]@.len() ==> #[trigger] groups@[g]@[k]
                    < p.decls@.len(),
            out@ == flattened(groups_with(*p, groups@.take(i as int), methods)),
        decreases groups.len() - i,
    {
        proof {
            assert(groups@.take(i + 1).drop_last() =~= groups@.take(i as int));
            let front = groups_with(*p, groups@.take(i as int), methods);
            assert(front.push(groups@[i as int]).drop_last() =~= front);
        }
        if group_has_method(p, &groups[i]) == methods {
            append_group(&mut out, &groups[i]);
        }
        i += 1;
    }
    proof {
        assert(groups@.take(groups@.len() as int) =~= groups@);
    }
    out
}

proof fn lemma_flattened_in(groups: Seq<Vec<MemberId>>, n: nat)
    requires
        forall|g: int, k: int|
            0 <= g < groups.len() && 0 <= k < groups[g]@.len() ==> #[trigger] groups[g]@[k] < n,
    ensures
        forall|j: int| 0 <= j < flattened(groups).len() ==> #[trigger] flattened(groups)[j] < n,
    decreases groups.len(),
{
    if groups.len() > 0 {
        let front = groups.drop_last();
        assert forall|g: int, k: int|
            0 <= g < front.len() && 0 <= k < front[g]@.len() implies #[trigger] front[g]@[k] < n by {
            assert(groups[g]@[k] < n);
        }
        lemma_flattened_in(front, n);
        assert forall|j: int| 0 <= j < flattened(groups).len() implies #[trigger] flattened(
            groups,
        )[j] < n by {
            let f = flattened(front);
            if j < f.len() {
                assert(flattened(groups)[j] == f[j]);
            } else {
                assert(flattened(groups)[j] == groups[groups.len() - 1]@[j - f.len()]);
            }
        }
    }
}

proof fn lemma_kept_groups(p: Program, groups: Seq<Vec<MemberId>>, methods: bool, n: nat)
    requires
        forall|g: int, k: int|
            0 <= g < groups.len() && 0 <= k < groups[g]@.len() ==> #[trigger] groups[g]@[k] < n,
    ensures
        forall|g: int, k: int|
            0 <= g < groups_with(p, groups, methods).len() && 0 <= k < groups_with(
                p,
                groups,
                methods,
            )[g]@.len() ==> #[trigger] groups_with(p, groups, methods)[g]@[k] < n,
    decreases groups.len(),
{
    if groups.len() > 0 {
        let front = groups.drop_last();
        assert forall|g: int, k: int|
            0 <= g < front.len() && 0 <= k < front[g]@.len() implies #[trigger] front[g]@[k] < n by {
            assert(groups[g]@[k] < n);
        }
        lemma_kept_groups(p, front, methods, n);
        let all = groups_with(p, groups, methods);
        let f = groups_with(p, front, methods);
        assert forall|g: int, k: int|
            0 <= g < all.len() && 0 <= k < all[g]@.len() implies #[trigger] all[g]@[k] < n by {
            if g < f.len() {
                assert(all[g] == f[g]);
            } else {
                assert(all[g] == groups[groups.len() - 1]);
                assert(groups[groups.len() - 1]@[k] < n);
            }
        }
    }
}

/// The members of a program in the order of verification.
pub fn verification_order(a: &AnalyzedProgram) -> (r: Vec<MemberId>)
    requires
        a.wf(),
    ensures
        r@ == order_of(a.program, a.scc_order@),
        forall|j: int| 0 <= j < r@.len() ==> #[trigger] r@[j] < a.program.decls@.len(),
{
    let mut early = members_with(&a.program, &a.scc_order, false);
    let mut methods = members_with(&a.program, &a.scc_order, true);
    proof {
        let n = a.program.decls@.len();
        lemma_kept_groups(a.program, a.scc_order@, false, n);
        lemma_kept_groups(a.program, a.scc_order@, true, n);
        lemma_flattened_in(groups_with(a.program, a.scc_order@, false), n);
        lemma_flattened_in(groups_with(a.program, a.scc_order@, true), n);
    }
    early.append(&mut methods);
    early
}

/// Methods come last: no member of a group without a method is one.
pub proof fn law_methods_last(p: Program, groups: Seq<Vec<MemberId>>, j: int)
    requires
        0 <= j < flattened(groups_with(p, groups, false)).len(),
    ensures
        !(p.decls@[flattened(groups_with(p, groups, false))[j] as int] is Method),
    decreases groups.len(),
{
    if groups.len() > 0 {
        let front = groups.drop_last();
        let f = groups_with(p, front, false);
        let last = groups.last();
        if has_method(p, last@) {
            law_methods_last(p, front, j);
        } else {
            assert(f.push(last).drop_last() =~= f);
            let n = flattened(f).len();
            if j < n {
                law_methods_last(p, front, j);
            } else {
                assert(flattened(f.push(last))[j] == last@[j - n]);
            }
        }
    }
}

/// The result of one member: its name, and whether it was verified.
pub type VerifyResult = (String, Result<(), VerifyError>);

/// A member that verification has a result for. Functions are uninterpreted and have
/// none.
pub open spec fn is_unit(d: Declaration) -> bool {
    d is Resource || d is Method
}

/// What is verified, in turn.
pub open spec fn units(p: Program, ids: Seq<MemberId>) -> Seq<MemberId>
    decreases ids.len(),
{
    if ids.len() == 0 {
        Seq::empty()
    } else {
        let front = units(p, ids.drop_last());
        if is_unit(p.decls@[ids.last() as int]) {
            front.push(ids.last())
        } else {
            front
        }
    }
}

/// A member was verified with the certificates at hand, or verification stopped at
/// one of its instructions, for a cause. A resource with a body leaves its certificate.
pub open spec fn unit_step(
    env: Env,
    drop: Seq<String>,
    id: MemberId,
    row: VerifyResult,
    before: Map<MemberId, ResourceCertificate>,
    after: Map<MemberId, ResourceCertificate>,
) -> bool {
    &&& row.0@ == env.program.name_of(id as nat)
    &&& match env.program.decls@[id as int] {
        Declaration::Resource(r) => match r.body {
            Some(body) => match row.1 {
                Ok(_) => exists|cert: ResourceCertificate, s: CertSteps|
                    #![trigger certifies(env, drop, r.params@.len(), body, cert, s)]
                    certifies(env, drop, r.params@.len(), body, cert, s) && after
                        == before.insert(id, cert),
                Err(e) => after == before && resource_fails(env, drop, r.params@.len(), body, e),
            },
            None => row.1 is Ok && after == before,
        },
        Declaration::Method(m) => after == before && match row.1 {
            Ok(_) => exists|t: Trail| #[trigger] method_verified(env, drop, m, t),
            Err(e) => method_fails(env, drop, m, e),
        },
        _ => false,
    }
}

/// What a member is verified with.
pub open spec fn env_with(
    a: AnalyzedProgram,
    option: OptionOps,
    certs: HashMap<MemberId, ResourceCertificate>,
) -> Env<'static> {
    Env { program: &a.program, certs: &certs, quants: &a.quants, option }
}

/// The results of members: each with the certificates that those before it left.
pub open spec fn all_verified(
    a: AnalyzedProgram,
    option: OptionOps,
    drop: Seq<String>,
    ids: Seq<MemberId>,
    rows: Seq<VerifyResult>,
    certs: Seq<HashMap<MemberId, ResourceCertificate>>,
) -> bool {
    &&& rows.len() == ids.len()
    &&& certs.len() == ids.len() + 1
    &&& certs[0]@ == Map::<MemberId, ResourceCertificate>::empty()
    &&& forall|k: int|
        0 <= k < ids.len() ==> unit_step(
            env_with(a, option, certs[k]),
            drop,
            ids[k],
            #[trigger] rows[k],
            certs[k]@,
            certs[k + 1]@,
        )
}

/// Verifies one member.
#[verifier::rlimit(60)]
#[verifier::spinoff_prover]
pub fn verify_unit(
    a: &AnalyzedProgram,
    option: OptionOps,
    drop: &Vec<String>,
    id: MemberId,
    certs: &mut HashMap<MemberId, ResourceCertificate>,
) -> (r: Option<VerifyResult>)
    requires
        a.wf(),
        id < a.program.decls@.len(),
        env_with(*a, option, *old(certs)).wf(),
    ensures
        r is Some == is_unit(a.program.decls@[id as int]),
        r is None ==> final(certs)@ == old(certs)@,
        r matches Some(row) ==> unit_step(
            env_with(*a, option, *old(certs)),
            drop@,
            id,
            row,
            old(certs)@,
            final(certs)@,
        ),
        forall|k: MemberId| #[trigger]
            final(certs)@.dom().contains(k) ==> final(certs)@[k].wf(),
{
    let ghost env0 = env_with(*a, option, *old(certs));
    proof {
        assert(decl_ok(a.program.decls@[id as int]));
        assert forall|k: MemberId| #[trigger] certs@.dom().contains(k) implies certs@[k].wf() by {
            assert(env0.certs@.dom().contains(k));
        }
    }
    match &a.program.decls[id] {
        Declaration::Resource(res) => {
            let name = a.program.name(id);
            let env = Env { program: &a.program, certs: &*certs, quants: &a.quants, option };
            let done = verify_resource(&env, drop, res);
            match done {
                Ok(Some(cert)) => {
                    certs.insert(id, cert);
                    Some((name, Ok(())))
                },
                Ok(None) => Some((name, Ok(()))),
                Err(e) => {
                    proof {
                        assert(env == env0);
                    }
                    Some((name, Err(e)))
                },
            }
        },
        Declaration::Method(m) => {
            let name = a.program.name(id);
            let env = Env { program: &a.program, certs: &*certs, quants: &a.quants, option };
            let done = verify_method(&env, drop, m);
            proof {
                assert(env == env0);
            }
            Some((name, done))
        },
        _ => None,
    }
}

/// The functions of the option type of a program: their ids follow those of its
/// declarations and of the option type itself.
pub open spec fn option_of(p: Program) -> OptionOps {
    let n = p.decls@.len() + 1;
    OptionOps {
        some: FuncId((n + 1) as usize),
        none: FuncId((n + 3) as usize),
        value: FuncId((n + 2) as usize),
    }
}

/// How far the verification of a program has come.
pub struct Progress {
    pub option: OptionOps,
    /// The members, in turn.
    pub order: Vec<MemberId>,
    /// The members that have had their turn.
    pub next: usize,
    pub certs: HashMap<MemberId, ResourceCertificate>,
    /// The results so far.
    pub rows: Vec<VerifyResult>,
}

impl Progress {
    /// The members that have had their turn.
    pub open spec fn done(self) -> nat {
        self.next as nat
    }

    /// The members before the next one have had their turn, and their results are there.
    pub open spec fn of(self, a: AnalyzedProgram, drop: Seq<String>) -> bool {
        &&& self.option == option_of(a.program)
        &&& self.order@ == order_of(a.program, a.scc_order@)
        &&& forall|j: int|
            0 <= j < self.order@.len() ==> #[trigger] self.order@[j] < a.program.decls@.len()
        &&& self.next <= self.order@.len()
        &&& forall|k: MemberId| #[trigger]
            self.certs@.dom().contains(k) ==> self.certs@[k].wf()
        &&& exists|certs: Seq<HashMap<MemberId, ResourceCertificate>>| #[trigger]
            all_verified(
                a,
                self.option,
                drop,
                units(a.program, self.order@.take(self.next as int)),
                self.rows@,
                certs,
            ) && certs.last() == self.certs
    }

    /// Nothing was verified so far. Rules named in `drop` will be left out.
    pub fn start(a: &AnalyzedProgram, drop: &Vec<String>) -> (r: Progress)
        requires
            a.wf(),
        ensures
            r.of(*a, drop@),
            r.done() == 0,
            r.rows@.len() == 0,
    {
        let mut alloc = Allocator::new(&a.program);
        let some = alloc.option_some();
        let none = alloc.option_none();
        let value = alloc.option_value();
        let option = OptionOps { some, none, value };
        let order = verification_order(a);
        let certs: HashMap<MemberId, ResourceCertificate> = HashMap::new();
        let r = Progress { option, order, next: 0, certs, rows: Vec::new() };
        proof {
            assert(option == option_of(a.program));
            let seen = seq![r.certs];
            assert(order@.take(0) =~= Seq::empty());
            assert(all_verified(
                *a,
                option,
                drop@,
                units(a.program, order@.take(0)),
                r.rows@,
                seen,
            ));
            assert(seen.last() == r.certs);
        }
        r
    }

    /// Verifies the next member. Nothing is left to do where there is none.
    pub fn step(&mut self, a: &AnalyzedProgram, drop: &Vec<String>) -> (r: bool)
        requires
            a.wf(),
            old(self).of(*a, drop@),
        ensures
            final(self).of(*a, drop@),
            r == (old(self).done() < order_of(a.program, a.scc_order@).len()),
            final(self).done() == old(self).done() + if r {
                1nat
            } else {
                0nat
            },
            final(self).rows@.len() >= old(self).rows@.len(),
            final(self).rows@.take(old(self).rows@.len() as int) == old(self).rows@,
    {
        proof {
            assert(self.rows@.take(self.rows@.len() as int) =~= self.rows@);
        }
        if self.next >= self.order.len() {
            return false;
        }
        let ghost option = self.option;
        let ghost before = self.certs;
        let ghost order = self.order@;
        let ghost i = self.next as int;
        let ghost ids = units(a.program, order.take(i));
        let ghost had = self.rows@;
        let ghost seen = choose|certs: Seq<HashMap<MemberId, ResourceCertificate>>| #[trigger]
            all_verified(*a, option, drop@, ids, had, certs) && certs.last() == before;
        proof {
            assert(order.take(i + 1).drop_last() =~= order.take(i));
            assert(env_with(*a, option, before).wf());
        }
        let id = self.order[self.next];
        let row = verify_unit(a, self.option, drop, id, &mut self.certs);
        self.next = self.next + 1;
        match row {
            Some(row) => {
                self.rows.push(row);
                proof {
                    let now = seen.push(self.certs);
                    assert forall|k: int| 0 <= k < ids.len() + 1 implies unit_step(
                        env_with(*a, option, now[k]),
                        drop@,
                        ids.push(id)[k],
                        #[trigger] self.rows@[k],
                        now[k]@,
                        now[k + 1]@,
                    ) by {
                        if k < ids.len() {
                            assert(self.rows@[k] == had[k]);
                            assert(now[k] == seen[k] && now[k + 1] == seen[k + 1]);
                        } else {
                            assert(now[k] == before);
                        }
                    }
                    assert(all_verified(
                        *a,
                        option,
                        drop@,
                        units(a.program, order.take(i + 1)),
                        self.rows@,
                        now,
                    ));
                    assert(now.last() == self.certs);
                    assert(self.rows@.take(had.len() as int) =~= had);
                    assert(self.next as int == i + 1 && self.order@ == order && self.option == option);
                    assert(exists|certs: Seq<HashMap<MemberId, ResourceCertificate>>| #[trigger]
                        all_verified(
                            *a,
                            self.option,
                            drop@,
                            units(a.program, self.order@.take(self.next as int)),
                            self.rows@,
                            certs,
                        ) && certs.last() == self.certs);
                    assert(self.of(*a, drop@));
                }
            },
            None => {
                proof {
                    let now = seen.update(seen.len() - 1, self.certs);
                    lemma_last_certs(*a, option, drop@, ids, self.rows@, seen, self.certs);
                    assert(all_verified(
                        *a,
                        option,
                        drop@,
                        units(a.program, order.take(i + 1)),
                        self.rows@,
                        now,
                    ));
                    assert(now.last() == self.certs);
                    assert(self.rows@.take(had.len() as int) =~= had);
                    assert(self.next as int == i + 1 && self.order@ == order && self.option == option);
                    assert(exists|certs: Seq<HashMap<MemberId, ResourceCertificate>>| #[trigger]
                        all_verified(
                            *a,
                            self.option,
                            drop@,
                            units(a.program, self.order@.take(self.next as int)),
                            self.rows@,
                            certs,
                        ) && certs.last() == self.certs);
                    assert(self.of(*a, drop@));
                }
            },
        }
        true
    }

    /// The results, where every member has had its turn.
    pub proof fn law_done(self, a: AnalyzedProgram, drop: Seq<String>)
        requires
            self.of(a, drop),
            self.done() == order_of(a.program, a.scc_order@).len(),
        ensures
            exists|certs: Seq<HashMap<MemberId, ResourceCertificate>>| #[trigger]
                all_verified(
                    a,
                    option_of(a.program),
                    drop,
                    units(a.program, order_of(a.program, a.scc_order@)),
                    self.rows@,
                    certs,
                ),
    {
        assert(self.order@.take(self.order@.len() as int) =~= self.order@);
    }

    /// No more members have had their turn than there are.
    pub proof fn law_bound(self, a: AnalyzedProgram, drop: Seq<String>)
        requires
            self.of(a, drop),
        ensures
            self.done() <= order_of(a.program, a.scc_order@).len(),
    {
    }
}

/// Verifies a program: its resources by themselves, then its methods, each with the
/// certificates of the resources. Rules named in `drop` are left out.
pub fn verify(a: &AnalyzedProgram, drop: &Vec<String>) -> (rows: Vec<VerifyResult>)
    requires
        a.wf(),
    ensures
        exists|certs: Seq<HashMap<MemberId, ResourceCertificate>>| #[trigger]
            all_verified(
                *a,
                option_of(a.program),
                drop@,
                units(a.program, order_of(a.program, a.scc_order@)),
                rows@,
                certs,
            ),
{
    let mut p = Progress::start(a, drop);
    let mut more: bool = true;
    while more
        invariant
            a.wf(),
            p.of(*a, drop@),
            !more ==> p.done() == order_of(a.program, a.scc_order@).len(),
        decreases order_of(a.program, a.scc_order@).len() - p.done() + if more {
            1int
        } else {
            0int
        },
    {
        more = p.step(a, drop);
        proof {
            p.law_bound(*a, drop@);
        }
    }
    proof {
        p.law_done(*a, drop@);
    }
    p.rows
}

/// A row is an error exactly where its member failed: a method whose row is good was
/// verified, and one whose row is an error stopped at an instruction, for a cause.
pub proof fn law_rows(
    a: AnalyzedProgram,
    option: OptionOps,
    drop: Seq<String>,
    ids: Seq<MemberId>,
    rows: Seq<VerifyResult>,
    certs: Seq<HashMap<MemberId, ResourceCertificate>>,
    k: int,
    m: Method,
)
    requires
        all_verified(a, option, drop, ids, rows, certs),
        0 <= k < ids.len(),
        a.program.decls@[ids[k] as int] == Declaration::Method(m),
    ensures
        rows[k].1 is Ok ==> exists|t: Trail| #[trigger]
            method_verified(env_with(a, option, certs[k]), drop, m, t),
        rows[k].1 matches Err(e) ==> method_fails(env_with(a, option, certs[k]), drop, m, e),
{
    assert(unit_step(
        env_with(a, option, certs[k]),
        drop,
        ids[k],
        rows[k],
        certs[k]@,
        certs[k + 1]@,
    ));
}

/// Where the last certificates are replaced by equal ones, nothing changes.
proof fn lemma_last_certs(
    a: AnalyzedProgram,
    option: OptionOps,
    drop: Seq<String>,
    ids: Seq<MemberId>,
    rows: Seq<VerifyResult>,
    certs: Seq<HashMap<MemberId, ResourceCertificate>>,
    last: HashMap<MemberId, ResourceCertificate>,
)
    requires
        all_verified(a, option, drop, ids, rows, certs),
        last@ == certs.last()@,
    ensures
        all_verified(a, option, drop, ids, rows, certs.update(certs.len() - 1, last)),
{
    let now = certs.update(certs.len() - 1, last);
    assert forall|k: int| 0 <= k < ids.len() implies unit_step(
        env_with(a, option, now[k]),
        drop,
        ids[k],
        #[trigger] rows[k],
        now[k]@,
        now[k + 1]@,
    ) by {
        assert(now[k] == certs[k]);
    }
}

} // verus!
