//! Applier memos and the scratch scopes that they respect.
//!
//! A rule that mints terms must not mint them again at every iteration, so it keeps a
//! memo of the instances it has built. The memo belongs to a verification unit, since
//! another graph makes remembered ids meaningless, and it carries one overlay per
//! active scratch scope, so that a throwaway copy of the graph can record instances
//! without the live run seeing them.

use vstd::prelude::*;

verus! {

/// What a memo remembers.
pub trait MemoKey: Sized {
    /// What makes two keys the same.
    type Ident;

    spec fn ident(&self) -> Self::Ident;

    fn same(&self, other: &Self) -> (r: bool)
        ensures
            r == (self.ident() == other.ident()),
    ;
}

/// The verification unit and the active scratch scopes, innermost last. A scope is
/// detached where its graph was copied earlier than it is used: what the live run has
/// recorded since then is not in it.
pub struct Scopes {
    pub unit: u64,
    pub stack: Vec<(u64, bool)>,
    pub next: u64,
}

impl Scopes {
    pub fn new() -> (r: Scopes)
        ensures
            r.unit == 0,
            r.next == 0,
            r.stack@.len() == 0,
    {
        Scopes { unit: 0, stack: Vec::new(), next: 0 }
    }

    /// Whether what the live run has recorded holds in the current graph.
    pub open spec fn reads_base(self) -> bool {
        forall|i: int| 0 <= i < self.stack@.len() ==> !(#[trigger] self.stack@[i]).1
    }

    /// The ids of the active scopes, innermost last.
    pub open spec fn ids(self) -> Seq<u64> {
        self.stack@.map_values(|e: (u64, bool)| e.0)
    }
}

/// Mints a scope id, to be resumed later.
pub fn new_scope_id(s: &mut Scopes) -> (r: u64)
    requires
        old(s).next < u64::MAX,
    ensures
        r == old(s).next + 1,
        final(s).next == r,
        final(s).unit == old(s).unit,
        final(s).stack == old(s).stack,
{
    s.next = s.next + 1;
    s.next
}

/// Starts a new memo unit, for a graph built afresh.
pub fn new_memo_unit(s: &mut Scopes)
    requires
        old(s).unit < u64::MAX,
    ensures
        final(s).unit == old(s).unit + 1,
        final(s).stack == old(s).stack,
        final(s).next == old(s).next,
{
    s.unit = s.unit + 1;
}

/// The marker of an active scratch scope.
pub struct ScratchScope;

impl ScratchScope {
    /// Enters a one-shot scope, for a copy of the graph as it is now.
    pub fn enter(s: &mut Scopes) -> (r: ScratchScope)
        requires
            old(s).next < u64::MAX,
        ensures
            final(s).next == old(s).next + 1,
            final(s).unit == old(s).unit,
            final(s).stack@ == old(s).stack@.push((final(s).next, false)),
    {
        let id = new_scope_id(s);
        s.stack.push((id, false));
        ScratchScope
    }

    /// Enters the scope `id` again, for a graph that was copied when the scope was
    /// made and has been kept since.
    pub fn resume(s: &mut Scopes, id: u64) -> (r: ScratchScope)
        ensures
            final(s).next == old(s).next,
            final(s).unit == old(s).unit,
            final(s).stack@ == old(s).stack@.push((id, true)),
    {
        s.stack.push((id, true));
        ScratchScope
    }

    /// Leaves the innermost scope.
    pub fn leave(self, s: &mut Scopes)
        requires
            old(s).stack@.len() > 0,
        ensures
            final(s).next == old(s).next,
            final(s).unit == old(s).unit,
            final(s).stack@ == old(s).stack@.drop_last(),
    {
        s.stack.pop();
    }
}

pub struct Memo<K> {
    unit: u64,
    base: Vec<K>,
    overlays: Vec<(u64, Vec<K>)>,
}

/// Whether a key is among those remembered.
pub open spec fn has_key<K: MemoKey>(keys: Seq<K>, v: K::Ident) -> bool {
    exists|i: int| 0 <= i < keys.len() && (#[trigger] keys[i]).ident() == v
}

/// How far two lists agree.
pub open spec fn prefix_len(a: Seq<u64>, b: Seq<u64>) -> nat
    decreases a.len(),
{
    if a.len() == 0 || b.len() == 0 || a[0] != b[0] {
        0
    } else {
        1 + prefix_len(a.drop_first(), b.drop_first())
    }
}

proof fn lemma_prefix_len(a: Seq<u64>, b: Seq<u64>)
    ensures
        prefix_len(a, b) <= a.len(),
        prefix_len(a, b) <= b.len(),
        forall|i: int| 0 <= i < prefix_len(a, b) ==> a[i] == b[i],
        prefix_len(a, b) < a.len() && prefix_len(a, b) < b.len() ==> a[prefix_len(a, b) as int]
            != b[prefix_len(a, b) as int],
    decreases a.len(),
{
    if a.len() == 0 || b.len() == 0 || a[0] != b[0] {
    } else {
        let (x, y) = (a.drop_first(), b.drop_first());
        lemma_prefix_len(x, y);
        assert forall|i: int| 0 <= i < prefix_len(a, b) implies a[i] == b[i] by {
            if i > 0 {
                assert(x[i - 1] == y[i - 1]);
            }
        }
    }
}

proof fn lemma_prefix_len_is(a: Seq<u64>, b: Seq<u64>, n: nat)
    requires
        n <= a.len(),
        n <= b.len(),
        forall|i: int| 0 <= i < n ==> a[i] == b[i],
        n < a.len() && n < b.len() ==> a[n as int] != b[n as int],
    ensures
        prefix_len(a, b) == n,
{
    lemma_prefix_len(a, b);
    let p = prefix_len(a, b);
    if p < n {
        assert(a[p as int] == b[p as int]);
    }
    if n < p {
        assert(a[n as int] == b[n as int]);
    }
}

/// Scopes that differ from others in the innermost one.
pub open spec fn beside_scope(s: Scopes, t: Scopes) -> bool {
    &&& t.unit == s.unit
    &&& s.stack@.len() > 0
    &&& t.stack@.len() == s.stack@.len()
    &&& t.stack@.drop_last() == s.stack@.drop_last()
    &&& t.ids().last() != s.ids().last()
}

impl<K: MemoKey> Memo<K> {
    pub closed spec fn unit_of(self) -> u64 {
        self.unit
    }

    spec fn overlay_ids(self) -> Seq<u64> {
        self.overlays@.map_values(|e: (u64, Vec<K>)| e.0)
    }

    /// Whether a scope has a record.
    pub closed spec fn has_scope(self, id: u64) -> bool {
        exists|i: int| 0 <= i < self.overlays@.len() && (#[trigger] self.overlays@[i]).0 == id
    }

    /// Whether a key counts as seen in the current unit and scopes: an active scope
    /// recorded it, or the live run did and its record holds here.
    pub closed spec fn seen(self, s: Scopes, v: K::Ident) -> bool {
        self.unit == s.unit && ((s.reads_base() && has_key(self.base@, v)) || exists|j: int|
            0 <= j < prefix_len(self.overlay_ids(), s.ids()) && has_key(
                (#[trigger] self.overlays@[j]).1@,
                v,
            ))
    }

    pub fn new() -> (r: Memo<K>)
        ensures
            forall|s: Scopes, v: K::Ident| !r.seen(s, v),
            forall|id: u64| !(#[trigger] r.has_scope(id)),
    {
        Memo { unit: u64::MAX, base: Vec::new(), overlays: Vec::new() }
    }

    fn contains(keys: &Vec<K>, key: &K) -> (r: bool)
        ensures
            r == has_key(keys@, key.ident()),
    {
        let mut i: usize = 0;
        while i < keys.len()
            invariant
                i <= keys@.len(),
                forall|k: int| 0 <= k < i ==> (#[trigger] keys@[k]).ident() != key.ident(),
            decreases keys.len() - i,
        {
            if keys[i].same(key) {
                return true;
            }
            i += 1;
        }
        false
    }

    /// Whether a key is new here; it is seen from now on. The live run records it for
    /// the whole unit, a scratch run for the innermost scope alone.
    pub fn insert(&mut self, s: &Scopes, key: K) -> (r: bool)
        ensures
            r == !old(self).seen(*s, key.ident()),
            forall|v: K::Ident|
                #![trigger final(self).seen(*s, v)]
                final(self).seen(*s, v) == (old(self).seen(*s, v) || v == key.ident()),
            final(self).unit_of() == s.unit,
            old(self).unit_of() == s.unit && s.stack@.len() > 0 ==> forall|t: Scopes, v: K::Ident|
                #![trigger final(self).seen(t, v)]
                t.unit == s.unit && t.stack@ == s.stack@.drop_last() ==> final(self).seen(t, v)
                    == old(self).seen(t, v),
            old(self).unit_of() == s.unit && s.stack@.len() > 0 ==> forall|t: Scopes, v: K::Ident|
                #![trigger final(self).seen(t, v)]
                t.unit == s.unit && t.stack@.len() == 0 ==> final(self).seen(t, v) == old(
                    self,
                ).seen(t, v),
            old(self).unit_of() == s.unit ==> forall|t: Scopes, v: K::Ident|
                #![trigger final(self).seen(t, v)]
                beside_scope(*s, t) && !old(self).has_scope(t.ids().last()) ==> final(self).seen(
                    t,
                    v,
                ) == old(self).seen(t, v),
            r && s.stack@.len() == 0 ==> forall|t: Scopes, v: K::Ident|
                #![trigger final(self).seen(t, v)]
                !t.reads_base() ==> !final(self).seen(t, v),
            forall|id: u64| #[trigger]
                final(self).has_scope(id) ==> if r {
                    s.ids().contains(id)
                } else {
                    old(self).has_scope(id)
                },
            r ==> forall|id: u64| s.ids().contains(id) ==> #[trigger] final(self).has_scope(id),
    {
        let ghost m0 = *self;
        if self.unit != s.unit {
            self.unit = s.unit;
            self.base = Vec::new();
            self.overlays = Vec::new();
        }
        let ghost m1 = *self;
        proof {
            lemma_prefix_len(m1.overlay_ids(), s.ids());
            assert forall|v: K::Ident| m1.seen(*s, v) == m0.seen(*s, v) by {}
        }
        let mut live: bool = true;
        let mut i: usize = 0;
        while i < s.stack.len()
            invariant
                i <= s.stack@.len(),
                live == forall|k: int| 0 <= k < i ==> !(#[trigger] s.stack@[k]).1,
            decreases s.stack.len() - i,
        {
            if s.stack[i].1 {
                live = false;
            }
            i += 1;
        }
        if live && Self::contains(&self.base, &key) {
            proof {
                assert(m0.unit == s.unit ==> m1 == m0);
            }
            return false;
        }
        if s.stack.len() == 0 {
            self.overlays = Vec::new();
            self.base.push(key);
            proof {
                lemma_base_push(m1, *self, *s, key);
                assert forall|t: Scopes| prefix_len(#[trigger] self.overlay_ids(), t.ids()) == 0 by {
                    lemma_prefix_len(self.overlay_ids(), t.ids());
                }
            }
            return true;
        }
        let mut keep: usize = 0;
        while keep < self.overlays.len() && keep < s.stack.len() && self.overlays[keep].0
            == s.stack[keep].0
            invariant
                *self == m1,
                keep <= self.overlays@.len(),
                keep <= s.stack@.len(),
                forall|k: int| 0 <= k < keep ==> m1.overlay_ids()[k] == s.ids()[k],
            decreases self.overlays.len() - keep,
        {
            keep += 1;
        }
        proof {
            lemma_prefix_len_is(m1.overlay_ids(), s.ids(), keep as nat);
        }
        let mut j: usize = 0;
        let mut hit: bool = false;
        while j < keep
            invariant
                *self == m1,
                keep <= self.overlays@.len(),
                j <= keep,
                hit == exists|k: int|
                    0 <= k < j && has_key((#[trigger] m1.overlays@[k]).1@, key.ident()),
            decreases keep - j,
        {
            if Self::contains(&self.overlays[j].1, &key) {
                hit = true;
                proof {
                    assert(has_key(m1.overlays@[j as int].1@, key.ident()));
                }
            }
            j += 1;
        }
        self.overlays.truncate(keep);
        proof {
            assert forall|k: int| 0 <= k < self.overlays@.len() implies (
            #[trigger] self.overlays@[k]).0 == s.stack@[k].0 by {
                assert(m1.overlay_ids()[k] == s.ids()[k]);
                assert(m1.overlays@[k] == self.overlays@[k]);
            }
        }
        if hit {
            proof {
                lemma_truncated(m1, *self, *s, keep as nat);
                lemma_outer_scope(m1, *self, *s, keep as nat);
                lemma_beside(m1, *self, *s, keep as nat);
            }
            return false;
        }
        while self.overlays.len() < s.stack.len()
            invariant
                self.unit == m1.unit,
                self.base == m1.base,
                keep <= self.overlays@.len() <= s.stack@.len(),
                forall|k: int| 0 <= k < self.overlays@.len() ==> (#[trigger] self.overlays@[k]).0
                    == s.stack@[k].0,
                forall|k: int| 0 <= k < keep ==> self.overlays@[k] == m1.overlays@[k],
                forall|k: int| keep <= k < self.overlays@.len() ==> (#[trigger] self.overlays@[k]).1@.len() == 0,
            decreases s.stack.len() - self.overlays.len(),
        {
            let depth: usize = self.overlays.len();
            self.overlays.push((s.stack[depth].0, Vec::new()));
        }
        let ghost m2 = *self;
        let last: usize = self.overlays.len() - 1;
        let (id, mut keys) = self.overlays.pop().unwrap();
        keys.push(key);
        self.overlays.push((id, keys));
        proof {
            lemma_recorded(m1, m2, *self, *s, keep as nat, key);
            lemma_outer_scope(m1, *self, *s, keep as nat);
            lemma_beside(m1, *self, *s, keep as nat);
            assert forall|id: u64| #[trigger] self.has_scope(id) implies s.ids().contains(id) by {
                let k = choose|k: int|
                    0 <= k < self.overlays@.len() && (#[trigger] self.overlays@[k]).0 == id;
                assert(m2.overlays@[k].0 == s.stack@[k].0);
                assert(s.ids()[k] == id);
            }
            assert forall|id: u64| s.ids().contains(id) implies #[trigger] self.has_scope(id) by {
                let k = s.ids().index_of(id);
                assert(m2.overlays@[k].0 == s.stack@[k].0);
                assert(self.overlays@[k].0 == id);
            }
        }
        true
    }
}

proof fn lemma_base_push<K: MemoKey>(m: Memo<K>, n: Memo<K>, s: Scopes, key: K)
    requires
        m.unit == s.unit,
        n.unit == s.unit,
        s.stack@.len() == 0,
        n.base@ == m.base@.push(key),
        n.overlays@.len() == 0,
    ensures
        forall|v: K::Ident|
            #![trigger n.seen(s, v)]
            n.seen(s, v) == (m.seen(s, v) || v == key.ident()),
{
    lemma_prefix_len(m.overlay_ids(), s.ids());
    lemma_prefix_len(n.overlay_ids(), s.ids());
    assert forall|v: K::Ident|
        #![trigger n.seen(s, v)]
        n.seen(s, v) == (m.seen(s, v) || v == key.ident()) by {
        if has_key(m.base@, v) {
            let i = choose|i: int| 0 <= i < m.base@.len() && (#[trigger] m.base@[i]).ident() == v;
            assert(n.base@[i].ident() == v);
        }
        if v == key.ident() {
            assert(n.base@[m.base@.len() as int].ident() == v);
        }
        if has_key(n.base@, v) {
            let i = choose|i: int| 0 <= i < n.base@.len() && (#[trigger] n.base@[i]).ident() == v;
            if i < m.base@.len() {
                assert(m.base@[i].ident() == v);
            }
        }
    }
}

proof fn lemma_truncated<K: MemoKey>(m: Memo<K>, n: Memo<K>, s: Scopes, keep: nat)
    requires
        n.unit == m.unit,
        n.base == m.base,
        keep == prefix_len(m.overlay_ids(), s.ids()),
        n.overlays@ == m.overlays@.take(keep as int),
    ensures
        forall|v: K::Ident| #[trigger] n.seen(s, v) == m.seen(s, v),
{
    lemma_prefix_len(m.overlay_ids(), s.ids());
    lemma_prefix_len_is(n.overlay_ids(), s.ids(), keep);
    assert forall|v: K::Ident| #[trigger] n.seen(s, v) == m.seen(s, v) by {
        assert forall|j: int| 0 <= j < keep implies n.overlays@[j] == #[trigger] m.overlays@[j] by {}
    }
}

proof fn lemma_recorded<K: MemoKey>(
    m: Memo<K>,
    mid: Memo<K>,
    n: Memo<K>,
    s: Scopes,
    keep: nat,
    key: K,
)
    requires
        m.unit == s.unit,
        n.unit == m.unit,
        n.base == m.base,
        s.stack@.len() > 0,
        keep == prefix_len(m.overlay_ids(), s.ids()),
        mid.overlays@.len() == s.stack@.len(),
        forall|k: int|
            0 <= k < s.stack@.len() ==> (#[trigger] mid.overlays@[k]).0 == s.stack@[k].0,
        forall|k: int| 0 <= k < keep ==> mid.overlays@[k] == m.overlays@[k],
        forall|k: int|
            keep <= k < mid.overlays@.len() ==> (#[trigger] mid.overlays@[k]).1@.len() == 0,
        n.overlays@.len() == mid.overlays@.len(),
        forall|k: int|
            0 <= k < mid.overlays@.len() - 1 ==> n.overlays@[k] == #[trigger] mid.overlays@[k],
        n.overlays@.last().0 == mid.overlays@.last().0,
        n.overlays@.last().1@ == mid.overlays@.last().1@.push(key),
    ensures
        forall|v: K::Ident|
            #![trigger n.seen(s, v)]
            n.seen(s, v) == (m.seen(s, v) || v == key.ident()),
{
    lemma_prefix_len(m.overlay_ids(), s.ids());
    let top = s.stack@.len() - 1;
    assert forall|k: int| 0 <= k < s.stack@.len() implies n.overlay_ids()[k] == s.ids()[k] by {
        assert(mid.overlays@[k].0 == s.stack@[k].0);
    }
    lemma_prefix_len_is(n.overlay_ids(), s.ids(), s.stack@.len());
    assert forall|v: K::Ident|
        #![trigger n.seen(s, v)]
        n.seen(s, v) == (m.seen(s, v) || v == key.ident()) by {
        let old_top = mid.overlays@[top].1@;
        let new_top = n.overlays@[top].1@;
        if v == key.ident() {
            assert(new_top[old_top.len() as int].ident() == v);
            assert(has_key(new_top, v));
        }
        if exists|j: int| 0 <= j < keep && has_key((#[trigger] m.overlays@[j]).1@, v) {
            let j = choose|j: int| 0 <= j < keep && has_key((#[trigger] m.overlays@[j]).1@, v);
            assert(mid.overlays@[j] == m.overlays@[j]);
            let i = choose|i: int|
                0 <= i < m.overlays@[j].1@.len() && (#[trigger] m.overlays@[j].1@[i]).ident() == v;
            assert(n.overlays@[j].1@[i].ident() == v);
            assert(has_key(n.overlays@[j].1@, v));
        }
        if exists|j: int| 0 <= j < s.stack@.len() && has_key((#[trigger] n.overlays@[j]).1@, v) {
            let j = choose|j: int|
                0 <= j < s.stack@.len() && has_key((#[trigger] n.overlays@[j]).1@, v);
            let i = choose|i: int|
                0 <= i < n.overlays@[j].1@.len() && (#[trigger] n.overlays@[j].1@[i]).ident() == v;
            if j < top {
                assert(n.overlays@[j] == mid.overlays@[j]);
                assert(j < keep);
                assert(has_key(m.overlays@[j].1@, v));
            } else if i < old_top.len() {
                assert(old_top[i].ident() == v);
                assert(j < keep);
                assert(has_key(m.overlays@[j].1@, v));
            }
        }
    }
}

proof fn lemma_outer_scope<K: MemoKey>(m: Memo<K>, n: Memo<K>, s: Scopes, keep: nat)
    requires
        m.unit == s.unit,
        n.unit == m.unit,
        n.base == m.base,
        s.stack@.len() > 0,
        keep == prefix_len(m.overlay_ids(), s.ids()),
        keep <= n.overlays@.len() <= s.stack@.len(),
        forall|k: int|
            0 <= k < n.overlays@.len() ==> (#[trigger] n.overlays@[k]).0 == s.stack@[k].0,
        forall|k: int|
            0 <= k < keep && k < s.stack@.len() - 1 ==> n.overlays@[k] == m.overlays@[k],
        forall|k: int|
            keep <= k < n.overlays@.len() && k < s.stack@.len() - 1 ==> (
            #[trigger] n.overlays@[k]).1@.len() == 0,
    ensures
        forall|t: Scopes, v: K::Ident|
            #![trigger n.seen(t, v)]
            t.unit == s.unit && t.stack@ == s.stack@.drop_last() ==> n.seen(t, v) == m.seen(t, v),
{
    lemma_prefix_len(m.overlay_ids(), s.ids());
    assert forall|t: Scopes, v: K::Ident|
        #![trigger n.seen(t, v)]
        t.unit == s.unit && t.stack@ == s.stack@.drop_last() implies n.seen(t, v) == m.seen(t, v) by {
        let outer = t.stack@.len();
        assert forall|k: int| 0 <= k < outer implies t.ids()[k] == s.ids()[k] by {}
        let old_keep = if keep < outer {
            keep
        } else {
            outer
        };
        let new_keep = if n.overlays@.len() < outer {
            n.overlays@.len()
        } else {
            outer
        };
        lemma_prefix_len_is(m.overlay_ids(), t.ids(), old_keep);
        assert forall|k: int| 0 <= k < new_keep implies n.overlay_ids()[k] == t.ids()[k] by {
            assert(n.overlays@[k].0 == s.stack@[k].0);
        }
        lemma_prefix_len_is(n.overlay_ids(), t.ids(), new_keep);
        assert forall|k: int| 0 <= k < old_keep implies n.overlays@[k] == #[trigger] m.overlays@[k] by {}
        assert forall|k: int| old_keep <= k < new_keep implies !has_key(
            (#[trigger] n.overlays@[k]).1@,
            v,
        ) by {}
    }
}

proof fn lemma_beside<K: MemoKey>(m: Memo<K>, n: Memo<K>, s: Scopes, keep: nat)
    requires
        m.unit == s.unit,
        n.unit == m.unit,
        n.base == m.base,
        s.stack@.len() > 0,
        keep == prefix_len(m.overlay_ids(), s.ids()),
        keep <= n.overlays@.len() <= s.stack@.len(),
        forall|k: int|
            0 <= k < n.overlays@.len() ==> (#[trigger] n.overlays@[k]).0 == s.stack@[k].0,
        forall|k: int|
            0 <= k < keep && k < s.stack@.len() - 1 ==> n.overlays@[k] == m.overlays@[k],
        forall|k: int|
            keep <= k < n.overlays@.len() && k < s.stack@.len() - 1 ==> (
            #[trigger] n.overlays@[k]).1@.len() == 0,
    ensures
        forall|t: Scopes, v: K::Ident|
            #![trigger n.seen(t, v)]
            beside_scope(s, t) && !m.has_scope(t.ids().last()) ==> n.seen(t, v) == m.seen(t, v),
{
    lemma_prefix_len(m.overlay_ids(), s.ids());
    assert forall|t: Scopes, v: K::Ident|
        #![trigger n.seen(t, v)]
        beside_scope(s, t) && !m.has_scope(t.ids().last()) implies n.seen(t, v) == m.seen(t, v) by {
        let outer = (t.stack@.len() - 1) as nat;
        assert forall|k: int| 0 <= k < outer implies t.ids()[k] == s.ids()[k] by {
            assert(t.stack@.drop_last()[k] == s.stack@.drop_last()[k]);
        }
        let old_keep = if keep < outer {
            keep
        } else {
            outer
        };
        let new_keep = if n.overlays@.len() < outer {
            n.overlays@.len()
        } else {
            outer
        };
        if outer < m.overlays@.len() {
            assert(m.overlays@[outer as int].0 != t.ids().last());
        }
        lemma_prefix_len_is(m.overlay_ids(), t.ids(), old_keep);
        assert forall|k: int| 0 <= k < new_keep implies n.overlay_ids()[k] == t.ids()[k] by {
            assert(n.overlays@[k].0 == s.stack@[k].0);
        }
        if outer < n.overlays@.len() {
            assert(n.overlays@[outer as int].0 == s.stack@[outer as int].0);
        }
        lemma_prefix_len_is(n.overlay_ids(), t.ids(), new_keep);
        assert forall|k: int| 0 <= k < old_keep implies n.overlays@[k] == #[trigger] m.overlays@[k] by {}
        assert forall|k: int| old_keep <= k < new_keep implies !has_key(
            (#[trigger] n.overlays@[k]).1@,
            v,
        ) by {}
    }
}

/// A scope without a record sees what the live run has recorded, if it reads that, and
/// nothing else.
pub proof fn law_unrecorded<K: MemoKey>(m: Memo<K>, s: Scopes, live: Scopes, v: K::Ident)
    requires
        s.stack@.len() > 0,
        live.unit == s.unit,
        live.stack@.len() == 0,
        !m.has_scope(s.ids()[0]),
    ensures
        m.seen(s, v) == (s.reads_base() && m.seen(live, v)),
{
    lemma_prefix_len(m.overlay_ids(), s.ids());
    lemma_prefix_len(m.overlay_ids(), live.ids());
    if prefix_len(m.overlay_ids(), s.ids()) > 0 {
        assert(m.overlay_ids()[0] == s.ids()[0]);
        assert(m.overlays@[0].0 == s.ids()[0]);
    }
}

/// A new unit forgets: what was recorded in another is not seen.
pub proof fn law_new_unit<K: MemoKey>(m: Memo<K>, s: Scopes, v: K::Ident)
    requires
        m.unit_of() != s.unit,
    ensures
        !m.seen(s, v),
{
}

/// A scope reads what the scopes around it have recorded. It reads the live record too,
/// unless a resumed scope lies between.
pub proof fn law_nested<K: MemoKey>(m: Memo<K>, s: Scopes, t: Scopes, v: K::Ident)
    requires
        s.unit == t.unit,
        s.stack@.is_prefix_of(t.stack@),
        s.reads_base() ==> t.reads_base(),
        m.seen(s, v),
    ensures
        m.seen(t, v),
{
    let ov = m.overlay_ids();
    lemma_prefix_len(ov, s.ids());
    lemma_prefix_len(ov, t.ids());
    let p = prefix_len(ov, s.ids());
    let q = prefix_len(ov, t.ids());
    assert(p <= q) by {
        if q < p {
            assert(ov[q as int] == s.ids()[q as int]);
            assert(t.stack@[q as int] == s.stack@[q as int]);
            assert(t.ids()[q as int] == s.ids()[q as int]);
        }
    }
}

/// A one-shot scope reads the live record: what the live run has recorded is seen in a
/// scope that was entered from it.
pub proof fn law_one_shot<K: MemoKey>(m: Memo<K>, s: Scopes, t: Scopes, id: u64, v: K::Ident)
    requires
        s.unit == t.unit,
        t.stack@ == s.stack@.push((id, false)),
        m.seen(s, v),
    ensures
        m.seen(t, v),
{
    assert(s.reads_base() ==> t.reads_base()) by {
        if s.reads_base() {
            assert forall|i: int| 0 <= i < t.stack@.len() implies !(#[trigger] t.stack@[i]).1 by {
                if i < s.stack@.len() {
                    assert(t.stack@[i] == s.stack@[i]);
                }
            }
        }
    }
    law_nested(m, s, t, v);
}

/// Nothing is seen in a resumed scope that has recorded nothing: the live record is not
/// read there.
pub proof fn law_resumed_fresh<K: MemoKey>(m: Memo<K>, s: Scopes, id: u64, v: K::Ident)
    requires
        s.stack@ == seq![(id, true)],
        !m.has_scope(id),
    ensures
        !m.seen(s, v),
{
    lemma_prefix_len(m.overlay_ids(), s.ids());
    assert(s.stack@[0].1);
    let p = prefix_len(m.overlay_ids(), s.ids());
    if p > 0 {
        assert(m.overlay_ids()[0] == s.ids()[0]);
        assert(s.ids()[0] == id);
        assert(m.overlays@[0].0 == id);
    }
}

/// A scope that is entered again reads what it read when it was left.
pub proof fn law_resumed<K: MemoKey>(m: Memo<K>, s: Scopes, t: Scopes, v: K::Ident)
    requires
        s.unit == t.unit,
        s.stack@ == t.stack@,
    ensures
        m.seen(s, v) == m.seen(t, v),
{
}

} // verus!
