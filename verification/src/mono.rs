//! Function ids for the operations of ADTs.
//!
//! The operations of an ADT get their ids on first use, all at once: the tag
//! function, and each constructor followed by the functions that read its fields.
//! One id serves every instantiation: type arguments belong to the operator.

use crate::lang::FuncId;
use crate::program::{Adt, AdtVariant, Declaration, Program};
use crate::rewrite::names::{proj_rule, tag_rule};
use crate::rewrite::proj::ProjApplier;
use crate::rewrite::rules::Rule;
use crate::text::{concat, copy_text, decimal, number, texts};
use crate::vmir::{MemberId, Type, TypeV};
use std::collections::HashMap;
use vstd::prelude::*;

verus! {

broadcast use vstd::std_specs::hash::group_hash_axioms;

/// An ADT as its operations are named: its label, and per variant the number of
/// fields and the name, where it has one.
#[derive(Debug)]
pub struct Head {
    pub label: String,
    pub counts: Vec<usize>,
    pub variants: Vec<Option<String>>,
}

/// The ids that the first `v` variants take.
pub open spec fn offset(counts: Seq<usize>, v: int) -> nat
    decreases v,
{
    if v <= 0 {
        0
    } else {
        offset(counts, v - 1) + 1 + counts[v - 1] as nat
    }
}

/// The ids that all operations take.
pub open spec fn size(counts: Seq<usize>) -> nat {
    1 + offset(counts, counts.len() as int)
}

/// The id of a constructor.
pub open spec fn cons_id(base: nat, counts: Seq<usize>, v: int) -> nat {
    base + 1 + offset(counts, v)
}

/// The id of the function that reads a field.
pub open spec fn proj_id(base: nat, counts: Seq<usize>, v: int, field: int) -> nat {
    (cons_id(base, counts, v) + 1 + field) as nat
}

pub proof fn lemma_offset_grows(counts: Seq<usize>, v: int, w: int)
    requires
        0 <= v < w,
    ensures
        offset(counts, v) + 1 + counts[v] as nat <= offset(counts, w),
    decreases w,
{
    if v + 1 < w {
        lemma_offset_grows(counts, v, w - 1);
    }
}

/// The text of a variant's constructor.
pub open spec fn cons_text(h: Head, v: int) -> Seq<char> {
    h.label@ + "::"@ + match h.variants@[v] {
        Some(name) => name@,
        None => "#"@ + decimal(v as nat),
    }
}

/// The texts of a constructor and of the functions that read its first `n` fields.
pub open spec fn variant_texts(h: Head, v: int, n: int) -> Seq<Seq<char>>
    decreases n,
{
    if n <= 0 {
        seq![cons_text(h, v)]
    } else {
        variant_texts(h, v, n - 1).push(cons_text(h, v) + "."@ + decimal((n - 1) as nat))
    }
}

/// The texts of the operations of the first `v` variants, the tag function first.
pub open spec fn op_texts(h: Head, v: int) -> Seq<Seq<char>>
    decreases v,
{
    if v <= 0 {
        seq![h.label@ + "@tag"@]
    } else {
        op_texts(h, v - 1) + variant_texts(h, v - 1, h.counts@[v - 1] as int)
    }
}

impl Head {
    pub open spec fn wf(self) -> bool {
        self.variants@.len() == self.counts@.len()
    }
}

proof fn lemma_variant_texts_len(h: Head, v: int, n: int)
    requires
        0 <= n,
    ensures
        variant_texts(h, v, n).len() == n + 1,
    decreases n,
{
    if n > 0 {
        lemma_variant_texts_len(h, v, n - 1);
    }
}

proof fn lemma_op_texts_len(h: Head, v: int)
    requires
        0 <= v <= h.counts@.len(),
    ensures
        op_texts(h, v).len() == 1 + offset(h.counts@, v),
    decreases v,
{
    if v > 0 {
        lemma_op_texts_len(h, v - 1);
        lemma_variant_texts_len(h, v - 1, h.counts@[v - 1] as int);
    }
}

/// Gives out function ids for the operations of ADTs.
#[derive(Debug)]
pub struct Allocator {
    /// The first id that was given out.
    first: usize,
    /// The next id to give out.
    next: usize,
    /// The texts of the ids given out, from the first on.
    names: Vec<String>,
    /// The ADTs that have operations.
    heads: HashMap<MemberId, Head>,
    /// For ADTs whose operations have ids, the id of the tag function.
    bases: HashMap<MemberId, usize>,
    /// The ADTs whose operations have ids, in the order in which they got them.
    minted: Vec<MemberId>,
    /// The builtin option type.
    option: Option<MemberId>,
}

/// Whether a declaration has operations that get ids, and how it names them.
pub open spec fn heads_adt(p: Program, adt: Adt, label: Seq<char>, h: Head) -> bool {
    &&& h.wf()
    &&& h.label@ == label
    &&& h.counts@.len() == adt.variants@.len()
    &&& forall|v: int|
        0 <= v < adt.variants@.len() ==> #[trigger] h.counts@[v]
            == adt.variants@[v].field_types@.len() && names_variant(
            p,
            adt.variants@[v],
            h.variants@[v],
        )
}

/// The name of a variant, by its key; a key without a name gives none.
pub open spec fn names_variant(p: Program, v: AdtVariant, name: Option<String>) -> bool {
    match v.name {
        Some(k) if k < p.interner@.len() => name matches Some(t) && t@ == p.interner@[k as int],
        _ => name is None,
    }
}

/// The ADT that a declaration heads: its own, or the snapshot of a predicate.
pub open spec fn headed(d: Declaration) -> Option<Adt> {
    match d {
        Declaration::Adt(adt) => Some(adt),
        Declaration::Resource(r) => r.snapshot,
        _ => None,
    }
}

/// The label of a declaration's ADT.
pub open spec fn head_label(p: Program, id: MemberId) -> Seq<char> {
    match p.decls@[id as int] {
        Declaration::Resource(_) => p.name_of(id as nat) + "@snap"@,
        _ => p.name_of(id as nat),
    }
}

/// The heads of the first `n` declarations.
pub open spec fn heads_of(p: Program, heads: Map<MemberId, Head>, n: int) -> bool {
    forall|id: MemberId| #[trigger]
        heads.dom().contains(id) && id != p.decls@.len() ==> id < n && headed(
            p.decls@[id as int],
        ) is Some && heads_adt(
            p,
            headed(p.decls@[id as int]).unwrap(),
            head_label(p, id),
            heads[id],
        )
}

/// The head of the builtin option type.
pub open spec fn option_head(h: Head) -> bool {
    &&& h.wf()
    &&& h.label@ == "Option"@
    &&& h.counts@ == seq![1usize, 0usize]
    &&& h.variants@[0] matches Some(t)
    &&& t@ == "Some"@
    &&& h.variants@[1] matches Some(u)
    &&& u@ == "None"@
}

impl Allocator {
    /// The next id to give out.
    pub closed spec fn next_id(self) -> nat {
        self.next as nat
    }

    /// The ADTs that have operations.
    pub closed spec fn heads(self) -> Map<MemberId, Head> {
        self.heads@
    }

    /// The ids of the tag functions given out.
    pub closed spec fn bases(self) -> Map<MemberId, usize> {
        self.bases@
    }

    /// The ADTs whose operations have ids, in the order in which they got them.
    pub closed spec fn minted(self) -> Seq<MemberId> {
        self.minted@
    }

    /// The text of an id that was given out.
    pub closed spec fn text_of(self, f: FuncId) -> Option<Seq<char>> {
        if self.first <= f.0 < self.next {
            Some(self.names@[f.0 - self.first]@)
        } else {
            None
        }
    }

    /// The builtin option type.
    pub closed spec fn option(self) -> Option<MemberId> {
        self.option
    }

    pub closed spec fn wf(self) -> bool {
        &&& self.next == self.first + self.names@.len()
        &&& forall|a: MemberId| #[trigger] self.heads@.dom().contains(a) ==> self.heads@[a].wf()
        &&& self.option matches Some(o) ==> self.heads@.dom().contains(o) && option_head(
            self.heads@[o],
        )
        &&& forall|a: MemberId| #[trigger]
            self.bases@.dom().contains(a) ==> self.heads@.dom().contains(a) && self.first
                <= self.bases@[a] && self.bases@[a] + size(self.heads@[a].counts@) <= self.next
        &&& forall|a: MemberId, b: MemberId|
            #![trigger self.bases@.dom().contains(a), self.bases@.dom().contains(b)]
            self.bases@.dom().contains(a) && self.bases@.dom().contains(b) && self.bases@[a]
                < self.bases@[b] ==> self.bases@[a] + size(self.heads@[a].counts@) <= self.bases@[b]
        &&& forall|a: MemberId, b: MemberId|
            #![trigger self.bases@.dom().contains(a), self.bases@.dom().contains(b)]
            self.bases@.dom().contains(a) && self.bases@.dom().contains(b) && self.bases@[a]
                == self.bases@[b] ==> a == b
        &&& forall|i: int|
            0 <= i < self.minted@.len() ==> self.bases@.dom().contains(#[trigger] self.minted@[i])
    }

    /// Whether ids are left for the operations of an ADT.
    pub open spec fn room(self, adt: MemberId) -> bool {
        self.bases().dom().contains(adt) || self.next_id() + size(self.heads()[adt].counts@)
            <= usize::MAX
    }

    /// The id of an ADT's tag function once it has one.
    pub open spec fn base(self, adt: MemberId) -> nat {
        if self.bases().dom().contains(adt) {
            self.bases()[adt] as nat
        } else {
            self.next_id()
        }
    }

    /// `other` has ids for the operations of `adt`, and otherwise what `self` has.
    pub open spec fn with_ids(self, adt: MemberId, other: Allocator) -> bool {
        &&& other.wf()
        &&& other.heads() == self.heads()
        &&& other.option() == self.option()
        &&& other.bases() == self.bases().insert(adt, self.base(adt) as usize)
        &&& other.minted() == (if self.bases().dom().contains(adt) {
            self.minted()
        } else {
            self.minted().push(adt)
        })
        &&& forall|f: FuncId| #[trigger]
            other.text_of(f) == (if !self.bases().dom().contains(adt) && self.next_id() <= f.0
                < self.next_id() + size(self.heads()[adt].counts@) {
                Some(
                    op_texts(self.heads()[adt], self.heads()[adt].counts@.len() as int)[f.0
                        - self.next_id()],
                )
            } else {
                self.text_of(f)
            })
    }
}

fn read_variant(p: &Program, v: &AdtVariant) -> (r: Option<String>)
    ensures
        names_variant(*p, *v, r),
{
    match v.name {
        Some(k) => p.interner.name(k),
        None => None,
    }
}

fn read_head(p: &Program, adt: &Adt, label: String) -> (r: Head)
    ensures
        heads_adt(*p, *adt, label@, r),
{
    let mut counts: Vec<usize> = Vec::new();
    let mut variants: Vec<Option<String>> = Vec::new();
    let mut i: usize = 0;
    while i < adt.variants.len()
        invariant
            i <= adt.variants@.len(),
            counts@.len() == i,
            variants@.len() == i,
            forall|v: int|
                0 <= v < i ==> #[trigger] counts@[v] == adt.variants@[v].field_types@.len()
                    && names_variant(*p, adt.variants@[v], variants@[v]),
        decreases adt.variants.len() - i,
    {
        counts.push(adt.variants[i].field_types.len());
        variants.push(read_variant(p, &adt.variants[i]));
        i += 1;
    }
    Head { label, counts, variants }
}

fn read_option() -> (r: Head)
    ensures
        option_head(r),
{
    let mut counts: Vec<usize> = Vec::new();
    counts.push(1);
    counts.push(0);
    let mut variants: Vec<Option<String>> = Vec::new();
    variants.push(Some(copy_text("Some")));
    variants.push(Some(copy_text("None")));
    proof {
        assert(counts@ =~= seq![1usize, 0usize]);
    }
    Head { label: copy_text("Option"), counts, variants }
}

impl Allocator {
    /// An allocator for the ADTs of a program: those that it declares, the snapshots
    /// of its predicates, and the option type, whose index is one past the last
    /// declaration. Nothing has an id yet.
    pub fn new(p: &Program) -> (r: Allocator)
        requires
            p.decls@.len() < usize::MAX,
        ensures
            r.wf(),
            r.next_id() == p.decls@.len() + 1,
            r.option() == Some(p.decls@.len() as usize),
            r.bases().dom() == Set::<MemberId>::empty(),
            r.minted().len() == 0,
            heads_of(*p, r.heads(), p.decls@.len() as int),
            r.heads().dom().contains(p.decls@.len() as usize),
            option_head(r.heads()[p.decls@.len() as usize]),
            forall|id: MemberId|
                id < p.decls@.len() && headed(#[trigger] p.decls@[id as int]) is Some
                    ==> r.heads().dom().contains(id),
            forall|f: FuncId| #[trigger] r.text_of(f) is None,
    {
        let n: usize = p.decls.len();
        let mut heads: HashMap<MemberId, Head> = HashMap::new();
        heads.insert(n, read_option());
        let mut i: usize = 0;
        while i < n
            invariant
                i <= n,
                n == p.decls@.len(),
                heads_of(*p, heads@, i as int),
                heads@.dom().contains(n),
                option_head(heads@[n]),
                forall|id: MemberId|
                    id < i && headed(#[trigger] p.decls@[id as int]) is Some
                        ==> heads@.dom().contains(id),
            decreases n - i,
        {
            match &p.decls[i] {
                Declaration::Adt(adt) => {
                    heads.insert(i, read_head(p, adt, p.name(i)));
                },
                Declaration::Resource(r) => {
                    if let Some(adt) = &r.snapshot {
                        let label = concat(p.name(i).as_str(), "@snap");
                        heads.insert(i, read_head(p, adt, label));
                    }
                },
                _ => {},
            }
            i += 1;
        }
        Allocator {
            first: n + 1,
            next: n + 1,
            names: Vec::new(),
            heads,
            bases: HashMap::new(),
            minted: Vec::new(),
            option: Some(n),
        }
    }

    /// An allocator without ADTs.
    pub fn empty() -> (r: Allocator)
        ensures
            r.wf(),
            r.next_id() == 0,
            r.option() is None,
            r.heads().dom() == Set::<MemberId>::empty(),
            r.bases().dom() == Set::<MemberId>::empty(),
            r.minted().len() == 0,
            forall|f: FuncId| #[trigger] r.text_of(f) is None,
    {
        Allocator {
            first: 0,
            next: 0,
            names: Vec::new(),
            heads: HashMap::new(),
            bases: HashMap::new(),
            minted: Vec::new(),
            option: None,
        }
    }
}

fn cons_label(h: &Head, v: usize) -> (r: String)
    requires
        h.wf(),
        v < h.counts@.len(),
    ensures
        r@ == cons_text(*h, v as int),
{
    let front = concat(h.label.as_str(), "::");
    match &h.variants[v] {
        Some(name) => concat(front.as_str(), name.as_str()),
        None => {
            let tail = concat("#", number(v).as_str());
            concat(front.as_str(), tail.as_str())
        },
    }
}

/// The texts of the operations of an ADT, in the order of their ids.
fn head_texts(h: &Head) -> (r: Vec<String>)
    requires
        h.wf(),
    ensures
        texts(r@) == op_texts(*h, h.counts@.len() as int),
{
    let mut out: Vec<String> = Vec::new();
    out.push(concat(h.label.as_str(), "@tag"));
    proof {
        assert(texts(out@) =~= op_texts(*h, 0));
    }
    let mut v: usize = 0;
    while v < h.counts.len()
        invariant
            h.wf(),
            v <= h.counts@.len(),
            texts(out@) == op_texts(*h, v as int),
        decreases h.counts.len() - v,
    {
        let label = cons_label(h, v);
        let ghost before = texts(out@);
        out.push(copy_text(label.as_str()));
        proof {
            assert(texts(out@) =~= before + variant_texts(*h, v as int, 0));
        }
        let mut f: usize = 0;
        while f < h.counts[v]
            invariant
                h.wf(),
                v < h.counts@.len(),
                f <= h.counts@[v as int],
                label@ == cons_text(*h, v as int),
                texts(out@) == before + variant_texts(*h, v as int, f as int),
            decreases h.counts@[v as int] - f,
        {
            let ghost mid = texts(out@);
            let front = concat(label.as_str(), ".");
            let text = concat(front.as_str(), number(f).as_str());
            let ghost t = text@;
            out.push(text);
            proof {
                assert(texts(out@) =~= mid.push(t));
                assert(texts(out@) =~= before + variant_texts(*h, v as int, f + 1));
            }
            f += 1;
        }
        v += 1;
    }
    out
}

fn append_texts(out: &mut Vec<String>, more: &Vec<String>)
    ensures
        final(out)@.len() == old(out)@.len() + more@.len(),
        forall|i: int| 0 <= i < old(out)@.len() ==> final(out)@[i] == old(out)@[i],
        forall|i: int|
            0 <= i < more@.len() ==> (#[trigger] final(out)@[old(out)@.len() + i])@ == more@[i]@,
{
    let ghost base = out@.len();
    let mut i: usize = 0;
    while i < more.len()
        invariant
            i <= more@.len(),
            base == old(out)@.len(),
            out@.len() == base + i,
            forall|k: int| 0 <= k < base ==> out@[k] == old(out)@[k],
            forall|k: int| 0 <= k < i ==> (#[trigger] out@[base + k])@ == more@[k]@,
        decreases more.len() - i,
    {
        out.push(copy_text(more[i].as_str()));
        i += 1;
    }
}

fn sum_offset(counts: &Vec<usize>, v: usize, Ghost(top): Ghost<nat>) -> (r: usize)
    requires
        v <= counts@.len(),
        top <= usize::MAX,
        offset(counts@, v as int) <= top,
    ensures
        r == offset(counts@, v as int),
{
    let mut r: usize = 0;
    let mut i: usize = 0;
    while i < v
        invariant
            i <= v <= counts@.len(),
            top <= usize::MAX,
            offset(counts@, v as int) <= top,
            r == offset(counts@, i as int),
        decreases v - i,
    {
        proof {
            lemma_offset_grows(counts@, i as int, v as int);
        }
        r = r + 1 + counts[i];
        i += 1;
    }
    r
}

impl Allocator {
    /// Gives ids to the operations of an ADT, unless they have them.
    fn ensure(&mut self, adt: MemberId)
        requires
            old(self).wf(),
            old(self).heads().dom().contains(adt),
            old(self).room(adt),
        ensures
            old(self).with_ids(adt, *final(self)),
    {
        if self.bases.contains_key(&adt) {
            proof {
                assert(self.bases@.insert(adt, self.bases@[adt]) =~= self.bases@);
            }
            return;
        }
        let ghost old_self = *self;
        let ghost n0 = self.next as nat;
        let ghost h = self.heads@[adt];
        let head = self.heads.get(&adt);
        let more = match head {
            Some(h) => head_texts(h),
            None => Vec::new(),
        };
        proof {
            lemma_op_texts_len(h, h.counts@.len() as int);
            assert(texts(more@).len() == more@.len());
        }
        let base: usize = self.next;
        append_texts(&mut self.names, &more);
        self.next = base + more.len();
        self.bases.insert(adt, base);
        self.minted.push(adt);
        proof {
            assert(more@.len() == size(h.counts@));
            assert forall|f: FuncId| #[trigger] self.text_of(f) == (if n0 <= f.0 < n0 + size(
                h.counts@,
            ) {
                Some(op_texts(h, h.counts@.len() as int)[f.0 - n0])
            } else {
                old_self.text_of(f)
            }) by {
                if n0 <= f.0 < n0 + size(h.counts@) {
                    let i = f.0 - n0;
                    assert(texts(more@)[i] == more@[i]@);
                    assert(self.names@[old_self.names@.len() + i]@ == more@[i]@);
                    assert(f.0 - self.first == old_self.names@.len() + i);
                } else if self.first <= f.0 < self.next {
                    assert(self.names@[f.0 - self.first] == old_self.names@[f.0 - self.first]);
                }
            }
            assert forall|i: int| 0 <= i < self.minted@.len() implies self.bases@.dom().contains(
                #[trigger] self.minted@[i],
            ) by {
                if i < old_self.minted@.len() {
                    assert(old_self.bases@.dom().contains(old_self.minted@[i]));
                }
            }
            assert(old_self.with_ids(adt, *self));
        }
    }

    /// The id of a tag function.
    pub fn tag(&mut self, adt: MemberId) -> (r: FuncId)
        requires
            old(self).wf(),
            old(self).heads().dom().contains(adt),
            old(self).room(adt),
        ensures
            old(self).with_ids(adt, *final(self)),
            r.0 == old(self).base(adt),
    {
        self.ensure(adt);
        match self.bases.get(&adt) {
            Some(b) => FuncId(*b),
            None => FuncId(0),
        }
    }

    /// The id of a constructor.
    pub fn cons(&mut self, adt: MemberId, variant: usize) -> (r: FuncId)
        requires
            old(self).wf(),
            old(self).heads().dom().contains(adt),
            old(self).room(adt),
            variant < old(self).heads()[adt].counts@.len(),
        ensures
            old(self).with_ids(adt, *final(self)),
            r.0 == cons_id(
                old(self).base(adt),
                old(self).heads()[adt].counts@,
                variant as int,
            ),
    {
        let ghost b = self.base(adt);
        let ghost counts = self.heads@[adt].counts@;
        let base = self.tag(adt).0;
        proof {
            lemma_offset_grows(counts, variant as int, counts.len() as int);
            assert(self.bases@.dom().contains(adt));
            assert(b + size(counts) <= self.next);
        }
        match self.heads.get(&adt) {
            Some(h) => FuncId(base + 1 + sum_offset(&h.counts, variant, Ghost(size(counts)))),
            None => FuncId(0),
        }
    }

    /// The id of the function that reads a field.
    pub fn proj(&mut self, adt: MemberId, variant: usize, field: usize) -> (r: FuncId)
        requires
            old(self).wf(),
            old(self).heads().dom().contains(adt),
            old(self).room(adt),
            variant < old(self).heads()[adt].counts@.len(),
            field < old(self).heads()[adt].counts@[variant as int],
        ensures
            old(self).with_ids(adt, *final(self)),
            r.0 == proj_id(
                old(self).base(adt),
                old(self).heads()[adt].counts@,
                variant as int,
                field as int,
            ),
    {
        let ghost b = self.base(adt);
        let ghost counts = self.heads@[adt].counts@;
        let c = self.cons(adt, variant);
        proof {
            lemma_offset_grows(counts, variant as int, counts.len() as int);
            assert(self.bases@.dom().contains(adt));
            assert(b + size(counts) <= self.next);
        }
        FuncId(c.0 + 1 + field)
    }

    /// The index of the builtin option type.
    pub fn option_adt(&self) -> (r: MemberId)
        requires
            self.option() is Some,
        ensures
            Some(r) == self.option(),
    {
        match self.option {
            Some(o) => o,
            None => 0,
        }
    }

    /// The option type of an element type.
    pub fn option_type(&self, elem: Type) -> (r: Type)
        ensures
            r@ == TypeV::Option(Box::new(elem@)),
    {
        Type::Option(Box::new(elem))
    }

    /// Whether ids are left for the operations of the option type.
    pub open spec fn option_room(self) -> bool {
        self.option() is Some && (self.bases().dom().contains(self.option().unwrap())
            || self.next_id() + 4 <= usize::MAX)
    }

    /// The id of the constructor `Some`.
    pub fn option_some(&mut self) -> (r: FuncId)
        requires
            old(self).wf(),
            old(self).option_room(),
        ensures
            old(self).with_ids(old(self).option().unwrap(), *final(self)),
            r.0 == old(self).base(old(self).option().unwrap()) + 1,
    {
        let opt = self.option_adt();
        proof {
            lemma_option_size(self.heads@[opt]);
            reveal_with_fuel(offset, 3);
        }
        self.cons(opt, 0)
    }

    /// The id of the constructor `None`.
    pub fn option_none(&mut self) -> (r: FuncId)
        requires
            old(self).wf(),
            old(self).option_room(),
        ensures
            old(self).with_ids(old(self).option().unwrap(), *final(self)),
            r.0 == old(self).base(old(self).option().unwrap()) + 3,
    {
        let opt = self.option_adt();
        proof {
            lemma_option_size(self.heads@[opt]);
            reveal_with_fuel(offset, 3);
        }
        self.cons(opt, 1)
    }

    /// The id of the function that reads what `Some` holds.
    pub fn option_value(&mut self) -> (r: FuncId)
        requires
            old(self).wf(),
            old(self).option_room(),
        ensures
            old(self).with_ids(old(self).option().unwrap(), *final(self)),
            r.0 == old(self).base(old(self).option().unwrap()) + 2,
    {
        let opt = self.option_adt();
        proof {
            lemma_option_size(self.heads@[opt]);
            reveal_with_fuel(offset, 3);
        }
        self.proj(opt, 0, 0)
    }

    /// The text of an id; `None` where it was not given out here.
    pub fn name(&self, f: FuncId) -> (r: Option<&str>)
        requires
            self.wf(),
        ensures
            r is Some == self.text_of(f) is Some,
            r matches Some(t) ==> self.text_of(f) == Some(t@),
    {
        if self.first <= f.0 && f.0 < self.next {
            Some(self.names[f.0 - self.first].as_str())
        } else {
            None
        }
    }
}

proof fn lemma_option_size(h: Head)
    requires
        option_head(h),
    ensures
        size(h.counts@) == 4,
        h.counts@.len() == 2,
        h.counts@[0] == 1,
{
    reveal_with_fuel(offset, 3);
}

/// The rules of the first `n` fields of a variant.
pub open spec fn field_rules(base: nat, counts: Seq<usize>, v: int, n: int) -> Seq<Rule>
    decreases n,
{
    if n <= 0 {
        Seq::empty()
    } else {
        field_rules(base, counts, v, n - 1).push(
            Rule::Proj(
                ProjApplier {
                    accessor: FuncId(proj_id(base, counts, v, n - 1) as usize),
                    ctor: FuncId(cons_id(base, counts, v) as usize),
                    index: (n - 1) as usize,
                },
            ),
        )
    }
}

/// The rules of the fields of the first `v` variants.
pub open spec fn variant_rules(base: nat, counts: Seq<usize>, v: int) -> Seq<Rule>
    decreases v,
{
    if v <= 0 {
        Seq::empty()
    } else {
        variant_rules(base, counts, v - 1) + field_rules(
            base,
            counts,
            v - 1,
            counts[v - 1] as int,
        )
    }
}

/// Each constructor with its tag.
pub open spec fn tagged(base: nat, counts: Seq<usize>) -> Seq<(FuncId, usize)> {
    Seq::new(counts.len(), |v: int| (FuncId(cons_id(base, counts, v) as usize), v as usize))
}

/// The rules of the operations of an ADT: one per field, then the tag rule.
pub open spec fn op_rules(base: nat, counts: Seq<usize>, rs: Seq<Rule>) -> bool {
    &&& rs.len() == variant_rules(base, counts, counts.len() as int).len() + 1
    &&& rs.drop_last() == variant_rules(base, counts, counts.len() as int)
    &&& rs.last() matches Rule::Tag(t)
    &&& t.tag_fn == FuncId(base as usize)
    &&& t.ctor_tags@ == tagged(base, counts)
}

/// The rules of the operations of an ADT.
fn head_rules(base: usize, counts: &Vec<usize>) -> (rs: Vec<Rule>)
    requires
        base + size(counts@) <= usize::MAX,
    ensures
        op_rules(base as nat, counts@, rs@),
{
    let ghost b = base as nat;
    let ghost top = size(counts@);
    let mut rs: Vec<Rule> = Vec::new();
    let mut tags: Vec<(FuncId, usize)> = Vec::new();
    let mut next: usize = base + 1;
    let mut v: usize = 0;
    proof {
        assert(rs@ =~= variant_rules(b, counts@, 0));
    }
    while v < counts.len()
        invariant
            v <= counts@.len(),
            b == base,
            top == size(counts@),
            b + top <= usize::MAX,
            next == cons_id(b, counts@, v as int),
            rs@ == variant_rules(b, counts@, v as int),
            tags@.len() == v,
            forall|u: int| 0 <= u < v ==> #[trigger] tags@[u] == tagged(b, counts@)[u],
        decreases counts.len() - v,
    {
        let n: usize = counts[v];
        let ctor = FuncId(next);
        let ghost before = rs@;
        proof {
            lemma_offset_grows(counts@, v as int, counts@.len() as int);
            assert(before + field_rules(b, counts@, v as int, 0) =~= before);
        }
        tags.push((ctor, v));
        let mut f: usize = 0;
        while f < n
            invariant
                f <= n,
                v < counts@.len(),
                n == counts@[v as int],
                next == cons_id(b, counts@, v as int),
                next + 1 + n <= usize::MAX,
                ctor == FuncId(next),
                rs@ == before + field_rules(b, counts@, v as int, f as int),
            decreases n - f,
        {
            let ghost mid = rs@;
            rs.push(proj_rule(FuncId(next + 1 + f), ctor, f));
            proof {
                assert(rs@ =~= before + field_rules(b, counts@, v as int, f + 1));
            }
            f += 1;
        }
        next = next + 1 + n;
        v += 1;
    }
    proof {
        assert(tags@ =~= tagged(b, counts@));
    }
    let ghost fields = rs@;
    rs.push(tag_rule(FuncId(base), tags));
    proof {
        assert(rs@.drop_last() =~= fields);
    }
    rs
}

/// Lists one after the other.
pub open spec fn in_turn(parts: Seq<Seq<Rule>>) -> Seq<Rule>
    decreases parts.len(),
{
    if parts.len() == 0 {
        Seq::empty()
    } else {
        in_turn(parts.drop_last()) + parts.last()
    }
}

/// A list of rules for each ADT whose operations have ids, in the order in which
/// they got them.
pub open spec fn rule_parts(a: Allocator, parts: Seq<Seq<Rule>>) -> bool {
    &&& parts.len() == a.minted().len()
    &&& forall|i: int|
        0 <= i < parts.len() ==> op_rules(
            a.bases()[a.minted()[i]] as nat,
            a.heads()[a.minted()[i]].counts@,
            #[trigger] parts[i],
        )
}

fn append_rules(out: &mut Vec<Rule>, more: Vec<Rule>)
    ensures
        final(out)@ == old(out)@ + more@,
{
    let mut more = more;
    out.append(&mut more);
}

impl Allocator {
    /// The rules of the operations that have ids.
    pub fn rules(&self) -> (rs: Vec<Rule>)
        requires
            self.wf(),
        ensures
            exists|parts: Seq<Seq<Rule>>| #[trigger]
                rule_parts(*self, parts) && rs@ == in_turn(parts),
    {
        let mut out: Vec<Rule> = Vec::new();
        let ghost mut parts: Seq<Seq<Rule>> = Seq::empty();
        let mut i: usize = 0;
        while i < self.minted.len()
            invariant
                self.wf(),
                i <= self.minted@.len(),
                parts.len() == i,
                out@ == in_turn(parts),
                forall|k: int|
                    0 <= k < i ==> op_rules(
                        self.bases@[self.minted@[k]] as nat,
                        self.heads@[self.minted@[k]].counts@,
                        #[trigger] parts[k],
                    ),
            decreases self.minted.len() - i,
        {
            let adt = self.minted[i];
            proof {
                assert(self.bases@.dom().contains(self.minted@[i as int]));
            }
            let base: usize = match self.bases.get(&adt) {
                Some(b) => *b,
                None => 0,
            };
            let more = match self.heads.get(&adt) {
                Some(h) => head_rules(base, &h.counts),
                None => Vec::new(),
            };
            proof {
                let had = parts;
                parts = had.push(more@);
                assert(parts.drop_last() =~= had);
            }
            append_rules(&mut out, more);
            i += 1;
        }
        proof {
            assert(rule_parts(*self, parts));
        }
        out
    }
}

/// The operations of one ADT have ids of their own: constructors and the functions
/// that read their fields follow each other.
pub proof fn law_ops_distinct(base: nat, counts: Seq<usize>, v: int, w: int, f: int)
    requires
        0 <= v < w < counts.len(),
        0 <= f < counts[v],
    ensures
        base < cons_id(base, counts, v) < proj_id(base, counts, v, f) < cons_id(base, counts, w)
            < base + size(counts),
{
    lemma_offset_grows(counts, v, w);
    lemma_offset_grows(counts, w, counts.len() as int);
}

/// The operations of two ADTs have different ids.
pub proof fn law_heads_distinct(a: Allocator, x: MemberId, y: MemberId, i: nat, j: nat)
    requires
        a.wf(),
        x != y,
        a.bases().dom().contains(x),
        a.bases().dom().contains(y),
        i < size(a.heads()[x].counts@),
        j < size(a.heads()[y].counts@),
    ensures
        a.bases()[x] + i != a.bases()[y] + j,
{
    assert(a.bases@.dom().contains(x) && a.bases@.dom().contains(y));
}

/// Ids that were given out stay.
pub proof fn law_ids_stay(a: Allocator, b: Allocator, adt: MemberId, other: MemberId)
    requires
        a.wf(),
        a.with_ids(adt, b),
        a.bases().dom().contains(other),
    ensures
        b.bases().dom().contains(other),
        b.bases()[other] == a.bases()[other],
{
}

} // verus!
