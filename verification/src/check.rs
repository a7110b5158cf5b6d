//! Whether a program can be verified: every operand names a slot that was filled.

use crate::method::eval::{heap_ok, pure_ok};
use crate::method::heapinst::heap_inst_ok;
use crate::method::run::{heap_insts, inst_ok, insts_ok, pures};
use crate::method::unit::resource_ok;
use crate::program::{
    Declaration, HeapInst, HeapVal, Inst, InstKind, Program, PureInst, Resource, Target,
};
use crate::rewrite::recipe::{guards_ok, val_ok, vals_ok};
use crate::verify::{decl_ok, program_ok};
use crate::vmir::{MemberId, Polarity, Val};
use vstd::prelude::*;

verus! {

fn val_fits(v: &Val, n: u128) -> (r: bool)
    ensures
        r == val_ok(*v, n as nat),
{
    match v {
        Val::Temp(k) => (*k as u128) < n,
        Val::Literal(_) => true,
    }
}

fn heap_fits(h: &HeapVal, n: u128) -> (r: bool)
    ensures
        r == heap_ok(*h, n as nat),
{
    match h {
        HeapVal::Temp(k) => (*k as u128) < n,
        HeapVal::Empty => true,
    }
}

fn vals_fit(vs: &Vec<Val>, n: u128) -> (r: bool)
    ensures
        r == vals_ok(vs@, n as nat),
{
    let mut i: usize = 0;
    while i < vs.len()
        invariant
            i <= vs@.len(),
            forall|k: int| 0 <= k < i ==> val_ok(#[trigger] vs@[k], n as nat),
        decreases vs.len() - i,
    {
        if !val_fits(&vs[i], n) {
            assert(!val_ok(vs@[i as int], n as nat));
            return false;
        }
        i += 1;
    }
    true
}

fn guards_fit(gs: &Vec<(Val, Polarity)>, n: u128) -> (r: bool)
    ensures
        r == guards_ok(gs@, n as nat),
{
    let mut i: usize = 0;
    while i < gs.len()
        invariant
            i <= gs@.len(),
            forall|k: int| 0 <= k < i ==> val_ok((#[trigger] gs@[k]).0, n as nat),
        decreases gs.len() - i,
    {
        if !val_fits(&gs[i].0, n) {
            assert(!val_ok(gs@[i as int].0, n as nat));
            return false;
        }
        i += 1;
    }
    true
}

fn pure_fits(pi: &PureInst, nv: u128, nh: u128) -> (r: bool)
    ensures
        r == pure_ok(*pi, nv as nat, nh as nat),
{
    match pi {
        PureInst::Fresh => true,
        PureInst::Binary(_, l, r) => val_fits(l, nv) && val_fits(r, nv),
        PureInst::Ternary(c, t, e) => val_fits(c, nv) && val_fits(t, nv) && val_fits(e, nv),
        PureInst::RealCast(v) => val_fits(v, nv),
        PureInst::Deref(h, loc) => heap_fits(h, nh) && val_fits(loc, nv),
        PureInst::FunctionCall(call) => vals_fit(&call.args, nv),
        PureInst::Perm(h, loc) => heap_fits(h, nh) && val_fits(loc, nv),
        PureInst::Forall(_) => true,
    }
}

fn heap_inst_fits(hi: &HeapInst, nv: u128, nh: u128) -> (r: bool)
    ensures
        r == heap_inst_ok(*hi, nv as nat, nh as nat),
{
    match hi {
        HeapInst::Combine { base, target, perm, .. } => heap_fits(base, nh) && val_fits(perm, nv)
            && match target {
            Target::Loc(loc) => val_fits(loc, nv),
            Target::Resource(call) => vals_fit(&call.args, nv),
        },
        HeapInst::Fold { base, call, perm } => heap_fits(base, nh) && val_fits(perm, nv)
            && vals_fit(&call.args, nv),
        HeapInst::Unfold { base, call, perm } => heap_fits(base, nh) && val_fits(perm, nv)
            && vals_fit(&call.args, nv),
        HeapInst::Assign(h, a) => heap_fits(h, nh) && val_fits(&a.loc, nv) && val_fits(
            &a.val,
            nv,
        ),
    }
}

fn inst_fits(inst: &Inst, nv: u128, nh: u128) -> (r: bool)
    ensures
        r == inst_ok(*inst, nv as nat, nh as nat),
{
    guards_fit(&inst.pc.conds, nv) && match &inst.kind {
        InstKind::Pure(_, pi) => pure_fits(pi, nv, nh),
        InstKind::Heap(hi) => heap_inst_fits(hi, nv, nh),
        InstKind::Assume(v) => val_fits(v, nv),
        InstKind::Assert(v) => val_fits(v, nv),
    }
}

/// The numbers of value and heap slots after instructions, where each refers to slots
/// that were filled before it.
fn filled(insts: &Vec<Inst>, nv: usize, nh: usize) -> (r: Option<(u128, u128)>)
    ensures
        r is Some == insts_ok(insts@, nv as nat, nh as nat),
        r matches Some(n) ==> n.0 == nv + pures(insts@) && n.1 == nh + heap_insts(insts@),
{
    let mut v: u128 = nv as u128;
    let mut h: u128 = nh as u128;
    let mut i: usize = 0;
    proof {
        assert(insts@.take(0) =~= Seq::empty());
    }
    while i < insts.len()
        invariant
            i <= insts@.len(),
            v == nv + pures(insts@.take(i as int)),
            h == nh + heap_insts(insts@.take(i as int)),
            v <= nv + i,
            h <= nh + i,
            forall|k: int|
                0 <= k < i ==> inst_ok(
                    #[trigger] insts@[k],
                    nv as nat + pures(insts@.take(k)),
                    nh as nat + heap_insts(insts@.take(k)),
                ),
        decreases insts.len() - i,
    {
        if !inst_fits(&insts[i], v, h) {
            assert(!inst_ok(
                insts@[i as int],
                nv as nat + pures(insts@.take(i as int)),
                nh as nat + heap_insts(insts@.take(i as int)),
            ));
            return None;
        }
        proof {
            assert(insts@.take(i + 1).drop_last() =~= insts@.take(i as int));
        }
        match &insts[i].kind {
            InstKind::Pure(_, _) => {
                v = v + 1;
            },
            InstKind::Heap(_) => {
                h = h + 1;
            },
            _ => {},
        }
        i += 1;
    }
    proof {
        assert(insts@.take(insts@.len() as int) =~= insts@);
    }
    Some((v, h))
}

fn resource_fits(r: &Resource) -> (ok: bool)
    ensures
        ok == resource_ok(*r),
{
    match &r.body {
        Some(b) => match filled(&b.insts, r.params.len(), 1) {
            Some(n) => heap_fits(&b.res.0, n.1) && val_fits(&b.res.1, n.0),
            None => false,
        },
        None => true,
    }
}

fn decl_fits(d: &Declaration) -> (r: bool)
    ensures
        r == decl_ok(*d),
{
    match d {
        Declaration::Resource(r) => resource_fits(r),
        Declaration::Method(m) => filled(&m.insts, 0, 0).is_some(),
        _ => true,
    }
}

fn group_fits(group: &Vec<MemberId>, n: usize) -> (r: bool)
    ensures
        r == (forall|k: int| 0 <= k < group@.len() ==> #[trigger] group@[k] < n),
{
    let mut i: usize = 0;
    while i < group.len()
        invariant
            i <= group@.len(),
            forall|k: int| 0 <= k < i ==> #[trigger] group@[k] < n,
        decreases group.len() - i,
    {
        if group[i] >= n {
            assert(!(group@[i as int] < n));
            return false;
        }
        i += 1;
    }
    true
}

/// Whether a program with its members in groups can be verified.
pub fn can_verify(p: &Program, groups: &Vec<Vec<MemberId>>) -> (r: bool)
    ensures
        r == program_ok(*p, groups@),
{
    if p.decls.len() > usize::MAX - 5 {
        return false;
    }
    let mut i: usize = 0;
    while i < p.decls.len()
        invariant
            i <= p.decls@.len(),
            forall|k: int| 0 <= k < i ==> decl_ok(#[trigger] p.decls@[k]),
        decreases p.decls.len() - i,
    {
        if !decl_fits(&p.decls[i]) {
            assert(!decl_ok(p.decls@[i as int]));
            return false;
        }
        i += 1;
    }
    let mut j: usize = 0;
    while j < groups.len()
        invariant
            j <= groups@.len(),
            forall|g: int, k: int|
                0 <= g < j && 0 <= k < groups@[g]@.len() ==> #[trigger] groups@[g]@[k]
                    < p.decls@.len(),
        decreases groups.len() - j,
    {
        if !group_fits(&groups[j], p.decls.len()) {
            proof {
                let k = choose|k: int|
                    0 <= k < groups@[j as int]@.len() && !(#[trigger] groups@[j as int]@[k]
                        < p.decls@.len());
                assert(!(groups@[j as int]@[k] < p.decls@.len()));
            }
            return false;
        }
        j += 1;
    }
    true
}

} // verus!
