//! How an instruction reads in an error.

use crate::nums::{int_text, rat_text};
use crate::program::{HeapInst, HeapVal, InstKind, PureInst, ResourceCall, Sign, Target};
use crate::text::{concat, copy_text, decimal, number};
use crate::vmir::{BinOp, Literal, Val};
use vstd::prelude::*;

verus! {

fn put(s: String, t: &str) -> (r: String)
    ensures
        r@ == s@ + t@,
{
    concat(s.as_str(), t)
}

pub open spec fn literal_text(l: Literal) -> Seq<char> {
    match l {
        Literal::Null => "null"@,
        Literal::Bool(true) => "true"@,
        Literal::Bool(false) => "false"@,
        Literal::Int(n) => int_text(n@),
        Literal::Real(q) => rat_text(q@),
    }
}

fn show_literal(l: &Literal) -> (r: String)
    ensures
        r@ == literal_text(*l),
{
    match l {
        Literal::Null => copy_text("null"),
        Literal::Bool(b) => if *b {
            copy_text("true")
        } else {
            copy_text("false")
        },
        Literal::Int(n) => n.text(),
        Literal::Real(q) => q.text(),
    }
}

pub open spec fn val_text(v: Val) -> Seq<char> {
    match v {
        Val::Temp(n) => "t"@ + decimal(n as nat),
        Val::Literal(l) => literal_text(l),
    }
}

fn show_val(v: &Val) -> (r: String)
    ensures
        r@ == val_text(*v),
{
    match v {
        Val::Temp(n) => concat("t", number(*n).as_str()),
        Val::Literal(l) => show_literal(l),
    }
}

pub open spec fn heap_text(h: HeapVal) -> Seq<char> {
    match h {
        HeapVal::Empty => "empty"@,
        HeapVal::Temp(n) => "h"@ + decimal(n as nat),
    }
}

fn show_heap(h: &HeapVal) -> (r: String)
    ensures
        r@ == heap_text(*h),
{
    match h {
        HeapVal::Empty => copy_text("empty"),
        HeapVal::Temp(n) => concat("h", number(*n).as_str()),
    }
}

/// Operands, between commas.
pub open spec fn args_text(vs: Seq<Val>) -> Seq<char>
    decreases vs.len(),
{
    if vs.len() == 0 {
        Seq::empty()
    } else if vs.len() == 1 {
        val_text(vs[0])
    } else {
        args_text(vs.drop_last()) + ", "@ + val_text(vs.last())
    }
}

fn show_args(vs: &Vec<Val>) -> (r: String)
    ensures
        r@ == args_text(vs@),
{
    let mut out = copy_text("");
    let mut i: usize = 0;
    proof {
        reveal_strlit("");
        assert(out@ =~= Seq::<char>::empty());
        assert(vs@.take(0) =~= Seq::empty());
    }
    while i < vs.len()
        invariant
            i <= vs@.len(),
            out@ == args_text(vs@.take(i as int)),
        decreases vs.len() - i,
    {
        proof {
            let next = vs@.take(i + 1);
            assert(next.drop_last() =~= vs@.take(i as int));
            assert(next.last() == vs@[i as int]);
        }
        if i == 0 {
            out = show_val(&vs[i]);
        } else {
            out = put(out, ", ");
            out = put(out, show_val(&vs[i]).as_str());
        }
        i += 1;
    }
    proof {
        assert(vs@.take(vs@.len() as int) =~= vs@);
    }
    out
}

pub open spec fn op_text(op: BinOp) -> Seq<char> {
    match op {
        BinOp::AddI => " + "@,
        BinOp::AddR => " +. "@,
        BinOp::SubI => " - "@,
        BinOp::SubR => " -. "@,
        BinOp::MulI => " * "@,
        BinOp::MulR => " *. "@,
        BinOp::DivI => " / "@,
        BinOp::DivR => " /. "@,
        BinOp::Mod => " % "@,
        BinOp::LtI => " < "@,
        BinOp::LtR => " <. "@,
        BinOp::Eq => " == "@,
    }
}

fn show_op(op: BinOp) -> (r: &'static str)
    ensures
        r@ == op_text(op),
{
    match op {
        BinOp::AddI => " + ",
        BinOp::AddR => " +. ",
        BinOp::SubI => " - ",
        BinOp::SubR => " -. ",
        BinOp::MulI => " * ",
        BinOp::MulR => " *. ",
        BinOp::DivI => " / ",
        BinOp::DivR => " /. ",
        BinOp::Mod => " % ",
        BinOp::LtI => " < ",
        BinOp::LtR => " <. ",
        BinOp::Eq => " == ",
    }
}

/// A location of a heap.
pub open spec fn place_text(h: HeapVal, loc: Val) -> Seq<char> {
    heap_text(h) + "["@ + val_text(loc) + "]"@
}

fn show_place(h: &HeapVal, loc: &Val) -> (r: String)
    ensures
        r@ == place_text(*h, *loc),
{
    let s = put(show_heap(h), "[");
    put(put(s, show_val(loc).as_str()), "]")
}

pub open spec fn pure_text(pi: PureInst) -> Seq<char> {
    match pi {
        PureInst::Fresh => "fresh"@,
        PureInst::Binary(op, l, r) => val_text(l) + op_text(op) + val_text(r),
        PureInst::Ternary(c, t, e) => val_text(c) + " ? "@ + val_text(t) + " : "@ + val_text(e),
        PureInst::RealCast(v) => "real "@ + val_text(v),
        PureInst::Deref(h, loc) => place_text(h, loc),
        PureInst::FunctionCall(fc) => "f"@ + decimal(fc.function as nat) + "("@ + args_text(
            fc.args@,
        ) + ")"@,
        PureInst::Perm(h, loc) => "perm "@ + place_text(h, loc),
        PureInst::Forall(q) => "forall #"@ + decimal(q.label as nat),
    }
}

fn show_pure(pi: &PureInst) -> (r: String)
    ensures
        r@ == pure_text(*pi),
{
    match pi {
        PureInst::Fresh => copy_text("fresh"),
        PureInst::Binary(op, l, r) => {
            let s = put(show_val(l), show_op(*op));
            put(s, show_val(r).as_str())
        },
        PureInst::Ternary(c, t, e) => {
            let s = put(show_val(c), " ? ");
            let s = put(put(s, show_val(t).as_str()), " : ");
            put(s, show_val(e).as_str())
        },
        PureInst::RealCast(v) => concat("real ", show_val(v).as_str()),
        PureInst::Deref(h, loc) => show_place(h, loc),
        PureInst::FunctionCall(fc) => {
            let s = concat("f", number(fc.function).as_str());
            let s = put(put(s, "("), show_args(&fc.args).as_str());
            put(s, ")")
        },
        PureInst::Perm(h, loc) => concat("perm ", show_place(h, loc).as_str()),
        PureInst::Forall(q) => concat("forall #", number(q.label).as_str()),
    }
}

pub open spec fn call_text(call: ResourceCall) -> Seq<char> {
    "r"@ + decimal(call.resource as nat) + "("@ + args_text(call.args@) + ")"@
}

fn show_call(call: &ResourceCall) -> (r: String)
    ensures
        r@ == call_text(*call),
{
    let s = concat("r", number(call.resource).as_str());
    let s = put(put(s, "("), show_args(&call.args).as_str());
    put(s, ")")
}

pub open spec fn target_text(target: Target) -> Seq<char> {
    match target {
        Target::Loc(loc) => val_text(loc),
        Target::Resource(call) => call_text(call),
    }
}

fn show_target(target: &Target) -> (r: String)
    ensures
        r@ == target_text(*target),
{
    match target {
        Target::Loc(loc) => show_val(loc),
        Target::Resource(call) => show_call(call),
    }
}

pub open spec fn heap_inst_text(hi: HeapInst) -> Seq<char> {
    match hi {
        HeapInst::Combine { base, sign, target, perm } => heap_text(base) + (if sign == Sign::Add {
            " + acc("@
        } else {
            " - acc("@
        }) + target_text(target) + ", "@ + val_text(perm) + ")"@,
        HeapInst::Fold { base, call, perm } => "fold "@ + call_text(call) + " "@ + val_text(perm)
            + " in "@ + heap_text(base),
        HeapInst::Unfold { base, call, perm } => "unfold "@ + call_text(call) + " "@ + val_text(
            perm,
        ) + " in "@ + heap_text(base),
        HeapInst::Assign(base, a) => place_text(base, a.loc) + " := "@ + val_text(a.val),
    }
}

fn show_heap_inst(hi: &HeapInst) -> (r: String)
    ensures
        r@ == heap_inst_text(*hi),
{
    match hi {
        HeapInst::Combine { base, sign, target, perm } => {
            let s = match sign {
                Sign::Add => put(show_heap(base), " + acc("),
                Sign::Sub => put(show_heap(base), " - acc("),
            };
            let s = put(put(s, show_target(target).as_str()), ", ");
            put(put(s, show_val(perm).as_str()), ")")
        },
        HeapInst::Fold { base, call, perm } => {
            let s = concat("fold ", show_call(call).as_str());
            let s = put(put(s, " "), show_val(perm).as_str());
            put(put(s, " in "), show_heap(base).as_str())
        },
        HeapInst::Unfold { base, call, perm } => {
            let s = concat("unfold ", show_call(call).as_str());
            let s = put(put(s, " "), show_val(perm).as_str());
            put(put(s, " in "), show_heap(base).as_str())
        },
        HeapInst::Assign(base, a) => {
            let s = put(show_place(base, &a.loc), " := ");
            put(s, show_val(&a.val).as_str())
        },
    }
}

/// How an instruction reads in an error: the slot that it fills, where it fills one, and
/// what it does with its operands.
pub open spec fn inst_text(kind: InstKind, nv: nat, nh: nat) -> Seq<char> {
    match kind {
        InstKind::Pure(_, pi) => "t"@ + decimal(nv) + " = "@ + pure_text(pi),
        InstKind::Heap(hi) => "h"@ + decimal(nh) + " = "@ + heap_inst_text(hi),
        InstKind::Assume(v) => "assume "@ + val_text(v),
        InstKind::Assert(v) => "assert "@ + val_text(v),
    }
}

/// How an instruction reads in an error.
pub fn format_inst(kind: &InstKind, nv: usize, nh: usize) -> (r: String)
    ensures
        r@ == inst_text(*kind, nv as nat, nh as nat),
{
    match kind {
        InstKind::Pure(_, pi) => {
            let s = concat("t", number(nv).as_str());
            put(put(s, " = "), show_pure(pi).as_str())
        },
        InstKind::Heap(hi) => {
            let s = concat("h", number(nh).as_str());
            put(put(s, " = "), show_heap_inst(hi).as_str())
        },
        InstKind::Assume(v) => concat("assume ", show_val(v).as_str()),
        InstKind::Assert(v) => concat("assert ", show_val(v).as_str()),
    }
}

} // verus!
