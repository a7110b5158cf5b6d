//! Heaps as a chunk per address.

use crate::graph::Graph;
use crate::lang::Id;
use vstd::prelude::*;

verus! {

/// What is held at an address: a permission and a value.
#[derive(Debug, Clone, Copy, PartialEq, Eq, Structural)]
pub struct Chunk {
    pub perm: Id,
    pub value: Id,
}

impl Chunk {
    pub fn new(perm: Id, value: Id) -> (r: Chunk)
        ensures
            r == (Chunk { perm, value }),
    {
        Chunk { perm, value }
    }
}

/// The chunks of a list of entries. A later entry of an address wins.
pub open spec fn chunk_map(es: Seq<(Id, Chunk)>) -> Map<Id, Chunk>
    decreases es.len(),
{
    if es.len() == 0 {
        Map::empty()
    } else {
        chunk_map(es.drop_last()).insert(es.last().0, es.last().1)
    }
}

/// No address has two entries.
pub open spec fn addrs_differ(es: Seq<(Id, Chunk)>) -> bool {
    forall|i: int, j: int| 0 <= i < j < es.len() ==> (#[trigger] es[i]).0 != (#[trigger] es[j]).0
}

/// Every id of a list of entries names a class.
pub open spec fn entries_in(g: Graph, es: Seq<(Id, Chunk)>) -> bool {
    forall|i: int|
        0 <= i < es.len() ==> g.has((#[trigger] es[i]).0) && g.has(es[i].1.perm) && g.has(
            es[i].1.value,
        )
}

pub proof fn lemma_entries_grow(g: Graph, h: Graph, es: Seq<(Id, Chunk)>)
    requires
        g.grows_to(h),
        entries_in(g, es),
    ensures
        entries_in(h, es),
{
    assert forall|i: int| 0 <= i < es.len() implies h.has((#[trigger] es[i]).0) && h.has(
        es[i].1.perm,
    ) && h.has(es[i].1.value) by {
        assert(g.has(es[i].0));
    }
}

pub proof fn lemma_chunk_map(es: Seq<(Id, Chunk)>)
    requires
        addrs_differ(es),
    ensures
        forall|i: int|
            0 <= i < es.len() ==> chunk_map(es).dom().contains((#[trigger] es[i]).0)
                && chunk_map(es)[es[i].0] == es[i].1,
        forall|a: Id|
            #[trigger] chunk_map(es).dom().contains(a) ==> exists|i: int|
                0 <= i < es.len() && (#[trigger] es[i]).0 == a,
    decreases es.len(),
{
    if es.len() > 0 {
        let front = es.drop_last();
        assert(addrs_differ(front)) by {
            assert forall|i: int, j: int| 0 <= i < j < front.len() implies (#[trigger] front[i]).0
                != (#[trigger] front[j]).0 by {
                assert(es[i].0 != es[j].0);
            }
        }
        lemma_chunk_map(front);
        assert forall|i: int| 0 <= i < es.len() implies chunk_map(es).dom().contains(
            (#[trigger] es[i]).0,
        ) && chunk_map(es)[es[i].0] == es[i].1 by {
            if i < es.len() - 1 {
                assert(front[i] == es[i]);
                assert(es[i].0 != es[es.len() - 1].0);
            }
        }
        assert forall|a: Id| #[trigger] chunk_map(es).dom().contains(a) implies exists|i: int|
            0 <= i < es.len() && (#[trigger] es[i]).0 == a by {
            if a == es.last().0 {
                assert(es[es.len() - 1].0 == a);
            } else {
                assert(chunk_map(front).dom().contains(a));
                let i = choose|i: int| 0 <= i < front.len() && (#[trigger] front[i]).0 == a;
                assert(es[i].0 == a);
            }
        }
    }
}

/// A copy of a list of entries.
pub fn copy_entries(es: &Vec<(Id, Chunk)>) -> (r: Vec<(Id, Chunk)>)
    ensures
        r@ == es@,
{
    let mut out: Vec<(Id, Chunk)> = Vec::new();
    let mut i: usize = 0;
    while i < es.len()
        invariant
            i <= es@.len(),
            out@ == es@.take(i as int),
        decreases es.len() - i,
    {
        out.push(es[i]);
        i += 1;
        proof {
            assert(es@.take(i as int) =~= es@.take(i - 1).push(es@[i - 1]));
        }
    }
    proof {
        assert(es@.take(es@.len() as int) =~= es@);
    }
    out
}

/// A heap with at most one chunk per address.
#[derive(Debug)]
pub struct Heap {
    chunks: Vec<(Id, Chunk)>,
}

impl View for Heap {
    type V = Map<Id, Chunk>;

    open spec fn view(&self) -> Map<Id, Chunk> {
        chunk_map(self.list())
    }
}

impl Heap {
    /// The entries in the order in which their addresses came.
    pub closed spec fn list(self) -> Seq<(Id, Chunk)> {
        self.chunks@
    }

    #[verifier::type_invariant]
    spec fn inv(self) -> bool {
        addrs_differ(self.chunks@)
    }

    pub fn empty() -> (r: Heap)
        ensures
            r.list().len() == 0,
            r@ == Map::<Id, Chunk>::empty(),
    {
        Heap { chunks: Vec::new() }
    }

    /// The entries in the order in which their addresses came.
    pub fn entries(&self) -> (r: &Vec<(Id, Chunk)>)
        ensures
            r@ == self.list(),
            addrs_differ(r@),
    {
        proof {
            use_type_invariant(self);
        }
        &self.chunks
    }

    fn position(&self, addr: Id) -> (r: Option<usize>)
        ensures
            r matches Some(i) ==> i < self.list().len() && self.list()[i as int].0 == addr,
            r is None ==> forall|i: int|
                0 <= i < self.list().len() ==> (#[trigger] self.list()[i]).0 != addr,
    {
        let mut i: usize = 0;
        while i < self.chunks.len()
            invariant
                i <= self.chunks@.len(),
                forall|k: int| 0 <= k < i ==> (#[trigger] self.chunks@[k]).0 != addr,
            decreases self.chunks.len() - i,
        {
            if self.chunks[i].0 == addr {
                return Some(i);
            }
            i += 1;
        }
        None
    }

    /// The chunk at an address.
    pub fn chunk(&self, addr: Id) -> (r: Option<Chunk>)
        ensures
            r is Some == self@.dom().contains(addr),
            r matches Some(c) ==> self@[addr] == c,
            addrs_differ(self.list()),
    {
        proof {
            use_type_invariant(self);
            lemma_chunk_map(self.chunks@);
        }
        match self.position(addr) {
            Some(i) => Some(self.chunks[i].1),
            None => None,
        }
    }

    /// The permission at an address.
    pub fn perm_at(&self, addr: Id) -> (r: Option<Id>)
        ensures
            r is Some == self@.dom().contains(addr),
            r matches Some(p) ==> p == self@[addr].perm,
    {
        match self.chunk(addr) {
            Some(c) => Some(c.perm),
            None => None,
        }
    }

    /// The value at an address.
    pub fn value_at(&self, addr: Id) -> (r: Option<Id>)
        ensures
            r is Some == self@.dom().contains(addr),
            r matches Some(v) ==> v == self@[addr].value,
    {
        match self.chunk(addr) {
            Some(c) => Some(c.value),
            None => None,
        }
    }

    /// The heap with the chunk of an address set.
    pub fn with_chunk(&self, addr: Id, chunk: Chunk) -> (r: Heap)
        ensures
            r@ == self@.insert(addr, chunk),
            self@.dom().contains(addr) ==> exists|i: int|
                0 <= i < self.list().len() && (#[trigger] self.list()[i]) == (addr, self@[addr])
                    && r.list() == self.list().update(i, (addr, chunk)),
            !self@.dom().contains(addr) ==> r.list() == self.list().push((addr, chunk)),
            forall|g: Graph| #[trigger]
                entries_in(g, self.list()) && g.has(addr) && g.has(chunk.perm) && g.has(chunk.value)
                    ==> entries_in(g, r.list()),
    {
        proof {
            use_type_invariant(self);
            lemma_chunk_map(self.chunks@);
        }
        let mut out = copy_entries(&self.chunks);
        let at = self.position(addr);
        match at {
            Some(i) => {
                out.set(i, (addr, chunk));
                proof {
                    assert(self.list()[i as int].0 == addr);
                    lemma_replaced(self.chunks@, out@, i as int);
                }
            },
            None => {
                out.push((addr, chunk));
                proof {
                    assert(out@.drop_last() =~= self.chunks@);
                    assert forall|i: int, j: int| 0 <= i < j < out@.len() implies (
                    #[trigger] out@[i]).0 != (#[trigger] out@[j]).0 by {
                        assert(out@[i] == self.chunks@[i]);
                        if j < self.chunks@.len() {
                            assert(out@[j] == self.chunks@[j]);
                        } else {
                            assert(self.list()[i].0 != addr);
                        }
                    }
                }
            },
        }
        proof {
            assert forall|g: Graph| #[trigger]
                entries_in(g, self.list()) && g.has(addr) && g.has(chunk.perm) && g.has(
                    chunk.value,
                ) implies entries_in(g, out@) by {
                assert forall|k: int| 0 <= k < out@.len() implies g.has((#[trigger] out@[k]).0)
                    && g.has(out@[k].1.perm) && g.has(out@[k].1.value) by {
                    if k < self.chunks@.len() && out@[k] != (addr, chunk) {
                        assert(out@[k] == self.chunks@[k]);
                        assert(g.has(self.list()[k].0));
                    }
                }
            }
        }
        Heap { chunks: out }
    }

    /// The heap without the chunk of an address.
    pub fn without_chunk(&self, addr: Id) -> (r: Heap)
        ensures
            r@ == self@.remove(addr),
            self@.dom().contains(addr) ==> exists|i: int|
                0 <= i < self.list().len() && (#[trigger] self.list()[i]).0 == addr && r.list()
                    == self.list().remove(i),
            !self@.dom().contains(addr) ==> r.list() == self.list(),
            forall|g: Graph| #[trigger] entries_in(g, self.list()) ==> entries_in(g, r.list()),
    {
        proof {
            use_type_invariant(self);
            lemma_chunk_map(self.chunks@);
        }
        let mut out = copy_entries(&self.chunks);
        if let Some(i) = self.position(addr) {
            let _ = out.remove(i);
            proof {
                assert(self.list()[i as int].0 == addr);
                lemma_removed(self.chunks@, i as int);
            }
        }
        proof {
            assert forall|g: Graph| #[trigger] entries_in(g, self.list()) implies entries_in(
                g,
                out@,
            ) by {
                assert forall|k: int| 0 <= k < out@.len() implies g.has((#[trigger] out@[k]).0)
                    && g.has(out@[k].1.perm) && g.has(out@[k].1.value) by {
                    if out@.len() == self.chunks@.len() {
                        assert(g.has(self.list()[k].0));
                    } else {
                        assert(g.has(self.list()[k].0));
                        assert(g.has(self.list()[k + 1].0));
                    }
                }
            }
            if !self@.dom().contains(addr) {
                assert(self@.remove(addr) =~= self@);
            }
        }
        Heap { chunks: out }
    }

    /// A copy of the heap.
    pub fn copy(&self) -> (r: Heap)
        ensures
            r.list() == self.list(),
            addrs_differ(self.list()),
    {
        proof {
            use_type_invariant(self);
        }
        let chunks = copy_entries(&self.chunks);
        proof {
            assert(chunks@ =~= self.chunks@);
        }
        Heap { chunks }
    }
}

proof fn lemma_replaced(es: Seq<(Id, Chunk)>, fs: Seq<(Id, Chunk)>, k: int)
    requires
        addrs_differ(es),
        0 <= k < es.len(),
        fs == es.update(k, fs[k]),
        fs[k].0 == es[k].0,
    ensures
        addrs_differ(fs),
        chunk_map(fs) == chunk_map(es).insert(es[k].0, fs[k].1),
{
    assert forall|i: int, j: int| 0 <= i < j < fs.len() implies (#[trigger] fs[i]).0 != (
    #[trigger] fs[j]).0 by {
        assert(es[i].0 != es[j].0);
    }
    lemma_chunk_map(es);
    lemma_chunk_map(fs);
    let a = chunk_map(fs);
    let b = chunk_map(es).insert(es[k].0, fs[k].1);
    assert forall|x: Id| #[trigger] a.dom().contains(x) == b.dom().contains(x) by {
        if a.dom().contains(x) {
            let i = choose|i: int| 0 <= i < fs.len() && (#[trigger] fs[i]).0 == x;
            assert(chunk_map(es).dom().contains(es[i].0));
        }
        if chunk_map(es).dom().contains(x) {
            let i = choose|i: int| 0 <= i < es.len() && (#[trigger] es[i]).0 == x;
            assert(a.dom().contains(fs[i].0));
        } else if x == es[k].0 {
            assert(a.dom().contains(fs[k].0));
        }
    }
    assert forall|x: Id| #[trigger] a.dom().contains(x) implies a[x] == b[x] by {
        let i = choose|i: int| 0 <= i < fs.len() && (#[trigger] fs[i]).0 == x;
        assert(a[x] == fs[i].1);
        if i != k {
            assert(chunk_map(es)[es[i].0] == es[i].1);
            if i < k {
                assert(es[i].0 != es[k].0);
            } else {
                assert(es[k].0 != es[i].0);
            }
        }
    }
    assert(a =~= b);
}

proof fn lemma_removed(es: Seq<(Id, Chunk)>, k: int)
    requires
        addrs_differ(es),
        0 <= k < es.len(),
    ensures
        addrs_differ(es.remove(k)),
        chunk_map(es.remove(k)) == chunk_map(es).remove(es[k].0),
{
    let fs = es.remove(k);
    assert forall|i: int, j: int| 0 <= i < j < fs.len() implies (#[trigger] fs[i]).0 != (
    #[trigger] fs[j]).0 by {
        let p = if i < k { i } else { i + 1 };
        let q = if j < k { j } else { j + 1 };
        assert(es[p].0 != es[q].0);
    }
    lemma_chunk_map(es);
    lemma_chunk_map(fs);
    let a = chunk_map(fs);
    let b = chunk_map(es).remove(es[k].0);
    assert forall|x: Id| #[trigger] a.dom().contains(x) == b.dom().contains(x) by {
        if a.dom().contains(x) {
            let i = choose|i: int| 0 <= i < fs.len() && (#[trigger] fs[i]).0 == x;
            let p = if i < k { i } else { i + 1 };
            assert(es[p] == fs[i]);
            assert(chunk_map(es).dom().contains(es[p].0));
            if p < k {
                assert(es[p].0 != es[k].0);
            } else {
                assert(es[k].0 != es[p].0);
            }
        }
        if b.dom().contains(x) {
            let i = choose|i: int| 0 <= i < es.len() && (#[trigger] es[i]).0 == x;
            assert(i != k);
            let p = if i < k { i } else { i - 1 };
            assert(fs[p] == es[i]);
            assert(a.dom().contains(fs[p].0));
        }
    }
    assert forall|x: Id| #[trigger] a.dom().contains(x) implies a[x] == b[x] by {
        let i = choose|i: int| 0 <= i < fs.len() && (#[trigger] fs[i]).0 == x;
        let p = if i < k { i } else { i + 1 };
        assert(es[p] == fs[i]);
        assert(chunk_map(es)[es[p].0] == es[p].1);
        if p < k {
            assert(es[p].0 != es[k].0);
        } else {
            assert(es[k].0 != es[p].0);
        }
    }
    assert(a =~= b);
}

} // verus!
