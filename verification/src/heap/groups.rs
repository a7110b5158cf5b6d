//! The symbolic heap: chunks grouped by the kind of their location.

use crate::graph::Graph;
use crate::heap::chunk::{chunk_in, chunk_share, lemma_chunk_grows, Chunk};
use crate::heap::perm::{perm_amt, perm_sorted};
use crate::lang::Id;
use crate::model::Model;
use crate::vmir::Value;
use std::rc::Rc;
use vstd::prelude::*;

verus! {

/// The persistent hash map of the crate `im`.
#[verifier::external_type_specification]
#[verifier::external_body]
#[verifier::reject_recursive_types(K)]
#[verifier::reject_recursive_types(V)]
#[verifier::reject_recursive_types(S)]
pub struct ExImHashMap<K, V, S>(im::HashMap<K, V, S>);

/// The chunks that a map holds under each key.
pub uninterp spec fn groups_of(m: im::HashMap<usize, Rc<Vec<Chunk>>>) -> Map<usize, Seq<Chunk>>;

/// `im::HashMap::new`: the map holds nothing.
#[verifier::external_body]
fn groups_new() -> (r: im::HashMap<usize, Rc<Vec<Chunk>>>)
    ensures
        forall|k: usize| !(#[trigger] groups_of(r).dom().contains(k)),
{
    im::HashMap::new()
}

/// `im::HashMap::clone`: the copy holds what the map holds.
#[verifier::external_body]
fn groups_clone(m: &im::HashMap<usize, Rc<Vec<Chunk>>>) -> (r: im::HashMap<usize, Rc<Vec<Chunk>>>)
    ensures
        groups_of(r) == groups_of(*m),
{
    m.clone()
}

/// `im::HashMap::get`: what the map holds under a key, if anything.
#[verifier::external_body]
fn groups_get(m: &im::HashMap<usize, Rc<Vec<Chunk>>>, kind: usize) -> (r: Option<Rc<Vec<Chunk>>>)
    ensures
        r is Some == groups_of(*m).dom().contains(kind),
        r matches Some(cs) ==> cs@ == groups_of(*m)[kind],
{
    m.get(&kind).cloned()
}

/// `im::HashMap::update`: a map that holds what this one holds, and the given chunks
/// under a key.
#[verifier::external_body]
fn groups_update(m: &im::HashMap<usize, Rc<Vec<Chunk>>>, kind: usize, cs: Rc<Vec<Chunk>>) -> (r:
    im::HashMap<usize, Rc<Vec<Chunk>>>)
    ensures
        groups_of(r) == groups_of(*m).insert(kind, cs@),
{
    m.update(kind, cs)
}

/// `im::HashMap::without`: a map that holds what this one holds, but nothing under a
/// key.
#[verifier::external_body]
fn groups_without(m: &im::HashMap<usize, Rc<Vec<Chunk>>>, kind: usize) -> (r: im::HashMap<
    usize,
    Rc<Vec<Chunk>>,
>)
    ensures
        groups_of(r) == groups_of(*m).remove(kind),
{
    m.without(&kind)
}

/// `im::HashMap::keys`: every key of the map, once, in some order.
#[verifier::external_body]
fn groups_keys(m: &im::HashMap<usize, Rc<Vec<Chunk>>>) -> (r: Vec<usize>)
    ensures
        r@.no_duplicates(),
        forall|k: usize| r@.contains(k) == #[trigger] groups_of(*m).dom().contains(k),
{
    m.keys().cloned().collect()
}

/// No address has two chunks.
pub open spec fn apart(cs: Seq<Chunk>) -> bool {
    forall|i: int, j: int|
        0 <= i < j < cs.len() ==> (#[trigger] cs[i]).addr != (#[trigger] cs[j]).addr
}

/// Every class of a list of chunks is in the graph.
pub open spec fn chunks_in(g: Graph, cs: Seq<Chunk>) -> bool {
    forall|i: int| 0 <= i < cs.len() ==> chunk_in(g, #[trigger] cs[i])
}

/// What a list of chunks gives to a location.
pub open spec fn total(m: Model, cs: Seq<Chunk>, loc: Value) -> real
    decreases cs.len(),
{
    if cs.len() == 0 {
        0 as real
    } else {
        total(m, cs.drop_last(), loc) + chunk_share(m, cs.last(), loc)
    }
}

/// The conditions of every amount are booleans.
pub open spec fn perms_sorted(m: Model, cs: Seq<Chunk>) -> bool {
    forall|i: int| 0 <= i < cs.len() ==> perm_sorted(m, (#[trigger] cs[i]).perm)
}

/// No chunk holds less than nothing.
pub open spec fn none_below(m: Model, cs: Seq<Chunk>) -> bool {
    forall|i: int| 0 <= i < cs.len() ==> perm_amt(m, (#[trigger] cs[i]).perm) >= 0 as real
}

pub proof fn lemma_total_update(m: Model, cs: Seq<Chunk>, i: int, c: Chunk, loc: Value)
    requires
        0 <= i < cs.len(),
    ensures
        total(m, cs.update(i, c), loc) == total(m, cs, loc) - chunk_share(m, cs[i], loc)
            + chunk_share(m, c, loc),
    decreases cs.len(),
{
    let all = cs.update(i, c);
    if i == cs.len() - 1 {
        assert(all.drop_last() =~= cs.drop_last());
    } else {
        lemma_total_update(m, cs.drop_last(), i, c, loc);
        assert(all.drop_last() =~= cs.drop_last().update(i, c));
    }
}

pub proof fn lemma_total_remove(m: Model, cs: Seq<Chunk>, i: int, loc: Value)
    requires
        0 <= i < cs.len(),
    ensures
        total(m, cs.remove(i), loc) == total(m, cs, loc) - chunk_share(m, cs[i], loc),
    decreases cs.len(),
{
    let all = cs.remove(i);
    if i == cs.len() - 1 {
        assert(all =~= cs.drop_last());
    } else {
        lemma_total_remove(m, cs.drop_last(), i, loc);
        assert(all.drop_last() =~= cs.drop_last().remove(i));
    }
}

pub proof fn lemma_total_push(m: Model, cs: Seq<Chunk>, c: Chunk, loc: Value)
    ensures
        total(m, cs.push(c), loc) == total(m, cs, loc) + chunk_share(m, c, loc),
{
    assert(cs.push(c).drop_last() =~= cs);
}

/// The place of the first chunk at an address; the length where there is none.
pub open spec fn place(cs: Seq<Chunk>, addr: Id) -> int
    decreases cs.len(),
{
    if cs.len() == 0 {
        0
    } else if cs[0].addr == addr {
        0
    } else {
        1 + place(cs.drop_first(), addr)
    }
}

pub proof fn lemma_place(cs: Seq<Chunk>, addr: Id)
    ensures
        0 <= place(cs, addr) <= cs.len(),
        place(cs, addr) < cs.len() ==> cs[place(cs, addr)].addr == addr,
        forall|i: int| 0 <= i < place(cs, addr) ==> (#[trigger] cs[i]).addr != addr,
    decreases cs.len(),
{
    if cs.len() > 0 && cs[0].addr != addr {
        let rest = cs.drop_first();
        lemma_place(rest, addr);
        assert forall|i: int| 0 <= i < place(cs, addr) implies (#[trigger] cs[i]).addr != addr by {
            if i > 0 {
                assert(rest[i - 1].addr != addr);
            }
        }
    }
}

pub proof fn lemma_place_is(cs: Seq<Chunk>, addr: Id, n: int)
    requires
        0 <= n <= cs.len(),
        n < cs.len() ==> cs[n].addr == addr,
        forall|i: int| 0 <= i < n ==> (#[trigger] cs[i]).addr != addr,
    ensures
        place(cs, addr) == n,
{
    lemma_place(cs, addr);
    let p = place(cs, addr);
    if p < n {
        assert(cs[p].addr != addr);
    }
    if n < p {
        assert(cs[n].addr != addr);
    }
}

/// The list with the chunk of an address set.
pub open spec fn with(cs: Seq<Chunk>, c: Chunk) -> Seq<Chunk> {
    let i = place(cs, c.addr);
    if i < cs.len() {
        cs.update(i, c)
    } else {
        cs.push(c)
    }
}

/// The list without the chunk of an address.
pub open spec fn without(cs: Seq<Chunk>, addr: Id) -> Seq<Chunk> {
    let i = place(cs, addr);
    if i < cs.len() {
        cs.remove(i)
    } else {
        cs
    }
}

pub proof fn lemma_with_apart(cs: Seq<Chunk>, c: Chunk)
    requires
        apart(cs),
    ensures
        apart(with(cs, c)),
{
    lemma_place(cs, c.addr);
    let p = place(cs, c.addr);
    let all = with(cs, c);
    assert forall|i: int, j: int| 0 <= i < j < all.len() implies (#[trigger] all[i]).addr != (
    #[trigger] all[j]).addr by {
        if p < cs.len() {
            assert(cs[i].addr != cs[j].addr);
        } else if j < cs.len() {
            assert(cs[i].addr != cs[j].addr);
        } else {
            assert(cs[i].addr != c.addr);
        }
    }
}

pub proof fn lemma_without_apart(cs: Seq<Chunk>, addr: Id)
    requires
        apart(cs),
    ensures
        apart(without(cs, addr)),
        forall|i: int| 0 <= i < without(cs, addr).len() ==> (#[trigger] without(cs, addr)[i]).addr
            != addr,
{
    lemma_place(cs, addr);
    let p = place(cs, addr);
    let all = without(cs, addr);
    if p < cs.len() {
        assert forall|i: int, j: int| 0 <= i < j < all.len() implies (#[trigger] all[i]).addr != (
        #[trigger] all[j]).addr by {
            let x = if i < p {
                i
            } else {
                i + 1
            };
            let y = if j < p {
                j
            } else {
                j + 1
            };
            assert(all[i] == cs[x] && all[j] == cs[y]);
            assert(cs[x].addr != cs[y].addr);
        }
        assert forall|i: int| 0 <= i < all.len() implies (#[trigger] all[i]).addr != addr by {
            if i < p {
                assert(all[i] == cs[i]);
            } else {
                assert(all[i] == cs[i + 1]);
                assert(cs[p].addr != cs[i + 1].addr);
            }
        }
    } else {
        assert forall|i: int| 0 <= i < all.len() implies (#[trigger] all[i]).addr != addr by {
            assert(cs[i].addr != addr);
        }
    }
}

/// A copy of a list of chunks.
pub fn copy_chunks(cs: &Vec<Chunk>) -> (r: Vec<Chunk>)
    ensures
        r@ == cs@,
{
    let mut out: Vec<Chunk> = Vec::new();
    let mut i: usize = 0;
    while i < cs.len()
        invariant
            i <= cs@.len(),
            out@ == cs@.take(i as int),
        decreases cs.len() - i,
    {
        out.push(cs[i].copy());
        i += 1;
        proof {
            assert(cs@.take(i as int) =~= cs@.take(i - 1).push(cs@[i - 1]));
        }
    }
    proof {
        assert(cs@.take(cs@.len() as int) =~= cs@);
    }
    out
}

fn find_place(cs: &Vec<Chunk>, addr: Id) -> (r: usize)
    ensures
        r == place(cs@, addr),
        r <= cs@.len(),
{
    let mut i: usize = 0;
    while i < cs.len()
        invariant
            i <= cs@.len(),
            forall|k: int| 0 <= k < i ==> (#[trigger] cs@[k]).addr != addr,
        decreases cs.len() - i,
    {
        if cs[i].addr == addr {
            proof {
                lemma_place_is(cs@, addr, i as int);
            }
            return i;
        }
        i += 1;
    }
    proof {
        lemma_place_is(cs@, addr, i as int);
    }
    i
}

/// A symbolic heap: chunks grouped by the number of their kind. In a group an address
/// has one chunk at most. A copy shares the groups.
pub struct Heap {
    groups: im::HashMap<usize, Rc<Vec<Chunk>>>,
}

impl View for Heap {
    type V = Map<usize, Seq<Chunk>>;

    closed spec fn view(&self) -> Map<usize, Seq<Chunk>> {
        groups_of(self.groups)
    }
}

impl Heap {
    /// The chunks of a kind.
    pub open spec fn group(self, kind: usize) -> Seq<Chunk> {
        if self@.dom().contains(kind) {
            self@[kind]
        } else {
            Seq::empty()
        }
    }

    #[verifier::type_invariant]
    spec fn inv(self) -> bool {
        forall|k: usize| #[trigger]
            self@.dom().contains(k) ==> apart(self@[k]) && self@[k].len() > 0
    }
}

/// Every class of a heap is in the graph.
pub open spec fn heap_in(g: Graph, h: Heap) -> bool {
    forall|k: usize| chunks_in(g, #[trigger] h.group(k))
}

pub proof fn lemma_chunks_grow(g: Graph, h: Graph, cs: Seq<Chunk>)
    requires
        g.grows_to(h),
        chunks_in(g, cs),
    ensures
        chunks_in(h, cs),
{
    assert forall|i: int| 0 <= i < cs.len() implies chunk_in(h, #[trigger] cs[i]) by {
        lemma_chunk_grows(g, h, cs[i]);
    }
}

pub proof fn lemma_heap_grows(g: Graph, k: Graph, h: Heap)
    requires
        g.grows_to(k),
        heap_in(g, h),
    ensures
        heap_in(k, h),
{
    assert forall|kind: usize| chunks_in(k, #[trigger] h.group(kind)) by {
        lemma_chunks_grow(g, k, h.group(kind));
    }
}

impl Heap {
    pub fn empty() -> (r: Heap)
        ensures
            r@ == Map::<usize, Seq<Chunk>>::empty(),
            forall|k: usize| (#[trigger] r.group(k)).len() == 0,
    {
        Heap { groups: groups_new() }
    }

    pub fn copy(&self) -> (r: Heap)
        ensures
            r@ == self@,
            forall|k: usize| #[trigger] r.group(k) == self.group(k),
    {
        proof {
            use_type_invariant(self);
        }
        let groups = groups_clone(&self.groups);
        proof {
            assert forall|k: usize| #[trigger] groups_of(groups).dom().contains(k) implies apart(
                groups_of(groups)[k],
            ) && groups_of(groups)[k].len() > 0 by {
                assert(self@.dom().contains(k));
            }
        }
        Heap { groups }
    }

    /// The chunks of a kind.
    pub fn chunks_of(&self, kind: usize) -> (r: Rc<Vec<Chunk>>)
        ensures
            r@ == self.group(kind),
            apart(r@),
    {
        proof {
            use_type_invariant(self);
            if self@.dom().contains(kind) {
                assert(apart(self@[kind]));
            }
        }
        match groups_get(&self.groups, kind) {
            Some(cs) => cs,
            None => Rc::new(Vec::new()),
        }
    }

    /// The chunk at an address.
    pub fn chunk(&self, kind: usize, addr: Id) -> (r: Option<Chunk>)
        ensures
            match r {
                Some(c) => place(self.group(kind), addr) < self.group(kind).len() && c
                    == self.group(kind)[place(self.group(kind), addr)] && c.addr == addr,
                None => place(self.group(kind), addr) == self.group(kind).len(),
            },
    {
        let cs = self.chunks_of(kind);
        let i = find_place(&cs, addr);
        proof {
            lemma_place(cs@, addr);
        }
        if i < cs.len() {
            Some(cs[i].copy())
        } else {
            None
        }
    }

    /// The heap with the chunk of an address set.
    pub fn with_chunk(&self, kind: usize, chunk: Chunk) -> (r: Heap)
        ensures
            r@ == self@.insert(kind, with(self.group(kind), chunk)),
            r.group(kind) == with(self.group(kind), chunk),
            forall|k: usize| k != kind ==> #[trigger] r.group(k) == self.group(k),
    {
        proof {
            use_type_invariant(self);
        }
        let cs = self.chunks_of(kind);
        let ghost had = cs@;
        let mut list = copy_chunks(&cs);
        let i = find_place(&list, chunk.addr);
        proof {
            lemma_place(had, chunk.addr);
            lemma_with_apart(had, chunk);
        }
        let ghost put = chunk;
        if i < list.len() {
            list.set(i, chunk);
        } else {
            list.push(chunk);
        }
        proof {
            assert(list@ =~= with(had, put));
        }
        let groups = groups_update(&self.groups, kind, Rc::new(list));
        proof {
            assert forall|k: usize| #[trigger] groups_of(groups).dom().contains(k) implies apart(
                groups_of(groups)[k],
            ) && groups_of(groups)[k].len() > 0 by {
                if k != kind {
                    assert(self@.dom().contains(k));
                }
            }
        }
        Heap { groups }
    }

    /// The heap without the chunk of an address.
    pub fn without_chunk(&self, kind: usize, addr: Id) -> (r: Heap)
        ensures
            r.group(kind) == without(self.group(kind), addr),
            forall|k: usize| k != kind ==> #[trigger] r.group(k) == self.group(k),
            r@.dom().subset_of(self@.dom()),
    {
        proof {
            use_type_invariant(self);
        }
        let cs = match groups_get(&self.groups, kind) {
            Some(cs) => cs,
            None => {
                return self.copy();
            },
        };
        let ghost had = cs@;
        let mut list = copy_chunks(&cs);
        let i = find_place(&list, addr);
        proof {
            lemma_place(had, addr);
            assert(self@.dom().contains(kind));
            lemma_without_apart(had, addr);
        }
        if i < list.len() {
            let _ = list.remove(i);
        }
        proof {
            assert(list@ =~= without(had, addr));
        }
        let groups = if list.len() == 0 {
            groups_without(&self.groups, kind)
        } else {
            groups_update(&self.groups, kind, Rc::new(list))
        };
        proof {
            assert forall|k: usize| #[trigger] groups_of(groups).dom().contains(k) implies apart(
                groups_of(groups)[k],
            ) && groups_of(groups)[k].len() > 0 by {
                if k != kind {
                    assert(self@.dom().contains(k));
                }
            }
        }
        let r = Heap { groups };
        proof {
            assert(r.group(kind) =~= without(self.group(kind), addr));
        }
        r
    }

    /// The numbers of the kinds that the heap has chunks of.
    pub fn kinds(&self) -> (r: Vec<usize>)
        ensures
            r@.no_duplicates(),
            forall|k: usize| r@.contains(k) == #[trigger] self@.dom().contains(k),
            forall|k: usize| r@.contains(k) == ((#[trigger] self.group(k)).len() > 0),
            forall|k: usize| apart(#[trigger] self.group(k)),
    {
        proof {
            use_type_invariant(self);
            assert forall|k: usize| apart(#[trigger] self.group(k)) by {
                if self@.dom().contains(k) {
                    assert(apart(self@[k]));
                }
            }
        }
        groups_keys(&self.groups)
    }

    /// The first chunk at an address of the same class.
    pub fn chunk_canon(&self, g: &Graph, kind: usize, addr: Id) -> (r: Option<Chunk>)
        requires
            g.wf(),
            g.has(addr),
            heap_in(*g, *self),
        ensures
            match r {
                Some(c) => exists|i: int| #[trigger]
                    first_canon(*g, self.group(kind), addr, i) && c == self.group(kind)[i],
                None => forall|i: int|
                    0 <= i < self.group(kind).len() ==> g.canon((#[trigger] self.group(kind)[i]).addr)
                        != g.canon(addr),
            },
    {
        let cs = self.chunks_of(kind);
        match find_canon(g, &cs, addr) {
            Some(i) => Some(cs[i].copy()),
            None => None,
        }
    }
}

/// The first chunk at an address of a class.
pub open spec fn first_canon(g: Graph, cs: Seq<Chunk>, addr: Id, i: int) -> bool {
    &&& 0 <= i < cs.len()
    &&& g.canon(cs[i].addr) == g.canon(addr)
    &&& forall|k: int| 0 <= k < i ==> g.canon((#[trigger] cs[k]).addr) != g.canon(addr)
}

/// The place of the first chunk at an address of a class.
pub fn find_canon(g: &Graph, cs: &Vec<Chunk>, addr: Id) -> (r: Option<usize>)
    requires
        g.wf(),
        g.has(addr),
        chunks_in(*g, cs@),
    ensures
        match r {
            Some(i) => first_canon(*g, cs@, addr, i as int),
            None => forall|i: int|
                0 <= i < cs@.len() ==> g.canon((#[trigger] cs@[i]).addr) != g.canon(addr),
        },
{
    let c = g.find(addr);
    let mut i: usize = 0;
    while i < cs.len()
        invariant
            i <= cs@.len(),
            g.wf(),
            c == g.canon(addr),
            chunks_in(*g, cs@),
            forall|k: int| 0 <= k < i ==> g.canon((#[trigger] cs@[k]).addr) != c,
        decreases cs.len() - i,
    {
        proof {
            assert(chunk_in(*g, cs@[i as int]));
        }
        if g.find(cs[i].addr) == c {
            return Some(i);
        }
        i += 1;
    }
    None
}

/// Setting the chunk of an address changes what a location gets by the difference of
/// the two chunks.
pub proof fn law_with(m: Model, cs: Seq<Chunk>, c: Chunk, loc: Value)
    ensures
        total(m, with(cs, c), loc) == total(m, cs, loc) + chunk_share(m, c, loc) - (if place(
            cs,
            c.addr,
        ) < cs.len() {
            chunk_share(m, cs[place(cs, c.addr)], loc)
        } else {
            0 as real
        }),
{
    lemma_place(cs, c.addr);
    let p = place(cs, c.addr);
    if p < cs.len() {
        lemma_total_update(m, cs, p, c, loc);
    } else {
        lemma_total_push(m, cs, c, loc);
    }
}

/// Taking out the chunk of an address takes what it gives.
pub proof fn law_without(m: Model, cs: Seq<Chunk>, addr: Id, loc: Value)
    ensures
        total(m, without(cs, addr), loc) == total(m, cs, loc) - (if place(cs, addr) < cs.len() {
            chunk_share(m, cs[place(cs, addr)], loc)
        } else {
            0 as real
        }),
{
    lemma_place(cs, addr);
    let p = place(cs, addr);
    if p < cs.len() {
        lemma_total_remove(m, cs, p, loc);
    }
}

} // verus!
