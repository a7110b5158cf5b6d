//! The state of symbolic execution.

use crate::symex::store::Store;
use crate::symex::term::{Term, TermV};
use vstd::prelude::*;

verus! {

/// Permission to a location, with the snapshot of what it holds.
#[derive(Debug)]
pub struct Chunk {
    pub location: Term,
    pub perm: Term,
    pub snap: Term,
}

pub ghost struct ChunkV {
    pub location: TermV,
    pub perm: TermV,
    pub snap: TermV,
}

impl View for Chunk {
    type V = ChunkV;

    open spec fn view(&self) -> ChunkV {
        ChunkV { location: self.location@, perm: self.perm@, snap: self.snap@ }
    }
}

impl Chunk {
    pub fn new(location: Term, perm: Term, snap: Term) -> (r: Chunk)
        ensures
            r@ == (ChunkV { location: location@, perm: perm@, snap: snap@ }),
    {
        Chunk { location, perm, snap }
    }
}

/// The chunks that are held, in the order in which they came.
#[derive(Debug)]
pub struct ChunkHeap {
    chunks: Vec<Chunk>,
}

impl View for ChunkHeap {
    type V = Seq<Chunk>;

    closed spec fn view(&self) -> Seq<Chunk> {
        self.chunks@
    }
}

/// The index of the first chunk at a location.
pub open spec fn first_at(cs: Seq<Chunk>, location: TermV) -> Option<int>
    decreases cs.len(),
{
    if cs.len() == 0 {
        None
    } else {
        match first_at(cs.drop_last(), location) {
            Some(i) => Some(i),
            None => if cs.last().location@ == location {
                Some(cs.len() - 1)
            } else {
                None
            },
        }
    }
}

proof fn lemma_first_at(cs: Seq<Chunk>, location: TermV, i: int)
    requires
        0 <= i < cs.len(),
        cs[i].location@ == location,
        forall|k: int| 0 <= k < i ==> (#[trigger] cs[k]).location@ != location,
    ensures
        first_at(cs, location) == Some(i),
    decreases cs.len(),
{
    if i < cs.len() - 1 {
        lemma_first_at(cs.drop_last(), location, i);
    } else {
        lemma_none_at(cs.drop_last(), location);
    }
}

proof fn lemma_none_at(cs: Seq<Chunk>, location: TermV)
    requires
        forall|k: int| 0 <= k < cs.len() ==> (#[trigger] cs[k]).location@ != location,
    ensures
        first_at(cs, location) is None,
    decreases cs.len(),
{
    if cs.len() > 0 {
        lemma_none_at(cs.drop_last(), location);
    }
}

impl ChunkHeap {
    pub fn new() -> (r: ChunkHeap)
        ensures
            r@.len() == 0,
    {
        ChunkHeap { chunks: Vec::new() }
    }

    pub fn chunks(&self) -> (r: &Vec<Chunk>)
        ensures
            r@ == self@,
    {
        &self.chunks
    }

    /// Adds a chunk.
    pub fn add_chunk(&mut self, chunk: Chunk)
        ensures
            final(self)@ == old(self)@.push(chunk),
    {
        self.chunks.push(chunk);
    }

    /// Takes out the first chunk at a location.
    pub fn consume_chunk(&mut self, location: &Term) -> (r: Option<Chunk>)
        ensures
            match first_at(old(self)@, location@) {
                Some(i) => r == Some(old(self)@[i]) && final(self)@ == old(self)@.remove(i),
                None => r is None && final(self)@ == old(self)@,
            },
    {
        let mut i: usize = 0;
        while i < self.chunks.len()
            invariant
                i <= self.chunks@.len(),
                self.chunks@ == old(self).chunks@,
                forall|k: int| 0 <= k < i ==> (#[trigger] self.chunks@[k]).location@ != location@,
            decreases self.chunks.len() - i,
        {
            if self.chunks[i].location.same(location) {
                proof {
                    lemma_first_at(self.chunks@, location@, i as int);
                }
                return Some(self.chunks.remove(i));
            }
            i += 1;
        }
        proof {
            lemma_none_at(self.chunks@, location@);
        }
        None
    }
}

/// The variables, the chunks and the conditions of an execution.
#[derive(Debug)]
pub struct State {
    pub store: Store,
    pub heap: ChunkHeap,
    pub path_conditions: Vec<Term>,
}

impl State {
    /// A state without bindings, chunks or conditions.
    pub fn new() -> (r: State)
        ensures
            r.store@ == Map::<Seq<char>, TermV>::empty(),
            r.heap@.len() == 0,
            r.path_conditions@.len() == 0,
    {
        State { store: Store::new(), heap: ChunkHeap::new(), path_conditions: Vec::new() }
    }

    /// Adds a path condition.
    pub fn assume_condition(&mut self, condition: Term)
        ensures
            final(self).path_conditions@ == old(self).path_conditions@.push(condition),
            final(self).store == old(self).store,
            final(self).heap == old(self).heap,
    {
        self.path_conditions.push(condition);
    }

    pub fn path_conditions(&self) -> (r: &Vec<Term>)
        ensures
            *r == self.path_conditions,
    {
        &self.path_conditions
    }
}

} // verus!
