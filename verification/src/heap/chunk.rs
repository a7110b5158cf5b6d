//! Chunks, and the kinds of locations that they are at.

use crate::context::{builds, cube_in, lemma_cube_grows, Context};
use crate::graph::Graph;
use crate::heap::cube::{cube_entails, cube_meet, entails, meet};
use crate::heap::gate::{cube_on, gate_perm_by_guard};
use crate::heap::perm::{lemma_perm_grows, perm_amt, perm_in, wild_in, ChunkPerm};
use crate::lang::Id;
use crate::model::Model;
use crate::vmir::{Bound, GroupId, Polarity, Type, TypeV, Val, Value};
use std::rc::Rc;
use vstd::prelude::*;

verus! {

broadcast use crate::context::lemma_builds_trans;

/// The kind of a heap location: its group, the type of what it holds and the most
/// permission that it can carry.
#[derive(Debug)]
pub struct LocationKind {
    pub group: GroupId,
    pub value: Type,
    pub bound: Bound,
}

/// What a kind of location says.
#[verifier::ext_equal]
pub ghost struct KindV {
    pub group: GroupId,
    pub value: TypeV,
    pub bound: Option<real>,
}

impl View for LocationKind {
    type V = KindV;

    open spec fn view(&self) -> KindV {
        KindV { group: self.group, value: self.value@, bound: self.bound@ }
    }
}

impl LocationKind {
    /// The kind of location that an address type names; other types name none.
    pub fn from_addr_type(ty: &Type) -> (r: Option<LocationKind>)
        ensures
            match *ty {
                Type::Addr { group, value, bound } => r matches Some(k) && k@ == (KindV {
                    group,
                    value: value@,
                    bound: bound@,
                }),
                _ => r is None,
            },
    {
        match ty {
            Type::Addr { group, value, bound } => {
                let v: Type = (&**value).clone();
                Some(LocationKind { group: *group, value: v, bound: bound.clone() })
            },
            _ => None,
        }
    }

    pub fn same(&self, other: &LocationKind) -> (r: bool)
        ensures
            r == (self@ == other@),
    {
        self.group == other.group && self.value.same(&other.value) && self.bound.same(&other.bound)
    }
}

/// The kinds of locations, by number.
#[derive(Debug)]
pub struct Kinds {
    pub list: Vec<LocationKind>,
}

impl Kinds {
    pub fn new() -> (r: Kinds)
        ensures
            r.list@.len() == 0,
    {
        Kinds { list: Vec::new() }
    }

    /// The number of a kind, which it gets where it has none.
    pub fn intern(&mut self, kind: LocationKind) -> (r: usize)
        ensures
            r < final(self).list@.len(),
            final(self).list@[r as int]@ == kind@,
            final(self).list@ == old(self).list@ || (final(self).list@ == old(self).list@.push(kind)
                && r == old(self).list@.len()),
            (exists|i: int| 0 <= i < old(self).list@.len() && (#[trigger] old(self).list@[i])@
                == kind@) ==> final(self).list@ == old(self).list@,
    {
        let mut i: usize = 0;
        while i < self.list.len()
            invariant
                i <= self.list@.len(),
                self.list@ == old(self).list@,
                forall|k: int| 0 <= k < i ==> (#[trigger] self.list@[k])@ != kind@,
            decreases self.list.len() - i,
        {
            if self.list[i].same(&kind) {
                return i;
            }
            i += 1;
        }
        self.list.push(kind);
        i
    }

    /// The group of a kind.
    pub fn group(&self, kind: usize) -> (r: GroupId)
        requires
            kind < self.list@.len(),
        ensures
            r == self.list@[kind as int].group,
    {
        self.list[kind].group
    }

    /// The bound of a kind.
    pub fn bound(&self, kind: usize) -> (r: Bound)
        requires
            kind < self.list@.len(),
        ensures
            r@ == self.list@[kind as int].bound@,
    {
        self.list[kind].bound.clone()
    }
}

/// Permission to an address, and the value there. The chunk is there where its guard
/// is met: elsewhere its amount says nothing.
#[derive(Debug)]
pub struct Chunk {
    pub addr: Id,
    pub perm: ChunkPerm,
    pub value: Id,
    pub guard: Rc<Vec<(Id, Polarity)>>,
    /// Where the value comes from, where that is known.
    pub recipe: Option<Rc<Val>>,
}

/// Every class of a chunk is in the graph.
pub open spec fn chunk_in(g: Graph, c: Chunk) -> bool {
    &&& g.has(c.addr)
    &&& g.has(c.value)
    &&& perm_in(g, c.perm)
    &&& cube_in(g, c.guard@)
}

/// What a chunk holds: its amount where its guard is met, and nothing elsewhere.
pub open spec fn chunk_amt(m: Model, c: Chunk) -> real {
    if cube_on(m, c.guard@) {
        perm_amt(m, c.perm)
    } else {
        0 as real
    }
}

/// What a chunk gives to a location.
pub open spec fn chunk_share(m: Model, c: Chunk, loc: Value) -> real {
    if m.at(c.addr) == loc {
        chunk_amt(m, c)
    } else {
        0 as real
    }
}

pub proof fn lemma_chunk_grows(g: Graph, h: Graph, c: Chunk)
    requires
        g.grows_to(h),
        chunk_in(g, c),
    ensures
        chunk_in(h, c),
{
    lemma_perm_grows(g, h, c.perm);
    lemma_cube_grows(g, h, c.guard@);
}

impl Chunk {
    /// A chunk that is always there.
    pub fn new(addr: Id, perm: Id, value: Id) -> (r: Chunk)
        ensures
            r.addr == addr,
            r.perm == (ChunkPerm::Leaf { id: perm, wild: false }),
            r.value == value,
            r.guard@.len() == 0,
            r.recipe is None,
    {
        Chunk::new_perm(addr, ChunkPerm::leaf(perm), value)
    }

    /// A chunk that is always there.
    pub fn new_perm(addr: Id, perm: ChunkPerm, value: Id) -> (r: Chunk)
        ensures
            r.addr == addr,
            r.perm == perm,
            r.value == value,
            r.guard@.len() == 0,
            r.recipe is None,
    {
        Chunk { addr, perm, value, guard: Rc::new(Vec::new()), recipe: None }
    }

    pub fn copy(&self) -> (r: Chunk)
        ensures
            r == *self,
    {
        Chunk {
            addr: self.addr,
            perm: self.perm.copy(),
            value: self.value,
            guard: self.guard.clone(),
            recipe: self.shared_recipe(),
        }
    }

    /// Where the value comes from.
    pub fn shared_recipe(&self) -> (r: Option<Rc<Val>>)
        ensures
            r == self.recipe,
    {
        match &self.recipe {
            Some(v) => Some(v.clone()),
            None => None,
        }
    }

    pub fn with_recipe(self, recipe: Option<Rc<Val>>) -> (r: Chunk)
        ensures
            r == (Chunk { recipe, ..self }),
    {
        Chunk { addr: self.addr, perm: self.perm, value: self.value, guard: self.guard, recipe }
    }

    pub fn with_guard(self, guard: Rc<Vec<(Id, Polarity)>>) -> (r: Chunk)
        ensures
            r == (Chunk { guard, ..self }),
    {
        Chunk { addr: self.addr, perm: self.perm, value: self.value, guard, recipe: self.recipe }
    }

    pub fn with_perm(self, perm: ChunkPerm) -> (r: Chunk)
        ensures
            r == (Chunk { perm, ..self }),
    {
        Chunk { addr: self.addr, perm, value: self.value, guard: self.guard, recipe: self.recipe }
    }

    /// The permission that the chunk holds: its amount where its guard is met, and
    /// zero elsewhere.
    pub fn gated_perm(&self, ctx: &mut Context) -> (r: ChunkPerm)
        requires
            old(ctx).wf(),
            chunk_in(old(ctx).graph, *self),
        ensures
            old(ctx).leads_to(*final(ctx)),
            builds(*old(ctx), *final(ctx)),
            perm_in(final(ctx).graph, r),
            final(ctx).graph.full() || forall|m: Model| #[trigger]
                final(ctx).graph.models(m) ==> perm_amt(m, r) == chunk_amt(m, *self),
            self.guard@.len() == 0 ==> r == self.perm && *final(ctx) == *old(ctx),
            wild_in(r) ==> wild_in(self.perm),
    {
        gate_perm_by_guard(ctx, &self.perm, &self.guard)
    }

    /// The cube under which the chunk is there on a path; `None` where it never is.
    pub fn presence_cube(&self, g: &Graph, pc: &Vec<(Id, Polarity)>) -> (r: Option<
        Vec<(Id, Polarity)>,
    >)
        requires
            g.wf(),
            cube_in(*g, pc@),
            cube_in(*g, self.guard@),
        ensures
            r is Some == meet(*g, pc@, self.guard@) is Some,
            r matches Some(c) ==> meet(*g, pc@, self.guard@) == Some(c@),
    {
        cube_meet(g, pc, &self.guard)
    }

    /// Whether the path is inside the guard.
    pub fn pc_entails_guard(&self, g: &Graph, pc: &Vec<(Id, Polarity)>) -> (r: bool)
        requires
            g.wf(),
            cube_in(*g, pc@),
            cube_in(*g, self.guard@),
        ensures
            r == entails(*g, pc@, self.guard@),
    {
        cube_entails(g, pc, &self.guard)
    }

    /// A class that stands for the amount in displays.
    pub fn perm_repr_id(&self) -> (r: Id)
        ensures
            r == (match self.perm {
                ChunkPerm::Leaf { id, .. } => id,
                ChunkPerm::Select { cond, .. } => cond,
            }),
    {
        self.perm.repr_id()
    }
}

} // verus!
