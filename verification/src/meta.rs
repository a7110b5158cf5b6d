//! The functions of ADTs and snapshots, as the reductions need them.

use crate::program::{AdtCtor, Declaration, Program};
use crate::vmir::MemberId;
use std::collections::HashMap;
use vstd::prelude::*;

verus! {

broadcast use vstd::std_specs::hash::group_hash_axioms;

/// Which functions reduce, and to what.
#[derive(Debug)]
pub struct AdtMeta {
    /// For the tag function of an ADT, the tag of each constructor.
    pub tag_fns: HashMap<MemberId, HashMap<MemberId, usize>>,
    /// For a function that reads a field, the constructor and the field's index.
    pub dtors: HashMap<MemberId, (MemberId, usize)>,
}

/// The tags of constructors.
pub open spec fn ctor_tags(ctors: Seq<AdtCtor>) -> Map<MemberId, usize>
    decreases ctors.len(),
{
    if ctors.len() == 0 {
        Map::empty()
    } else {
        ctor_tags(ctors.drop_last()).insert(ctors.last().ctor_fn, ctors.last().tag)
    }
}

/// `known` with the fields that the functions `projs` read of a constructor.
pub open spec fn with_fields(
    known: Map<MemberId, (MemberId, usize)>,
    ctor: MemberId,
    projs: Seq<MemberId>,
) -> Map<MemberId, (MemberId, usize)>
    decreases projs.len(),
{
    if projs.len() == 0 {
        known
    } else {
        with_fields(known, ctor, projs.drop_last()).insert(
            projs.last(),
            (ctor, (projs.len() - 1) as usize),
        )
    }
}

/// `known` with the fields of constructors.
pub open spec fn with_ctors(
    known: Map<MemberId, (MemberId, usize)>,
    ctors: Seq<AdtCtor>,
) -> Map<MemberId, (MemberId, usize)>
    decreases ctors.len(),
{
    if ctors.len() == 0 {
        known
    } else {
        with_fields(
            with_ctors(known, ctors.drop_last()),
            ctors.last().ctor_fn,
            ctors.last().projections@,
        )
    }
}

/// The fields that the functions of declarations read. A later declaration wins.
pub open spec fn fields_of(decls: Seq<Declaration>) -> Map<MemberId, (MemberId, usize)>
    decreases decls.len(),
{
    if decls.len() == 0 {
        Map::empty()
    } else {
        let known = fields_of(decls.drop_last());
        match decls.last() {
            Declaration::Adt(adt) => match adt.ops {
                Some(ops) => with_ctors(known, ops.constructors@),
                None => known,
            },
            Declaration::Resource(r) => match r.pred {
                Some(p) => with_fields(known, p.snap_cons, p.snap_projs@),
                None => known,
            },
            _ => known,
        }
    }
}

/// The tag functions of declarations. A later declaration wins.
pub open spec fn tags_of(decls: Seq<Declaration>) -> Map<MemberId, Map<MemberId, usize>>
    decreases decls.len(),
{
    if decls.len() == 0 {
        Map::empty()
    } else {
        let known = tags_of(decls.drop_last());
        match decls.last() {
            Declaration::Adt(adt) => match adt.ops {
                Some(ops) => known.insert(ops.tag_fn, ctor_tags(ops.constructors@)),
                None => known,
            },
            _ => known,
        }
    }
}

/// The tag table with its inner tables as maps.
pub open spec fn tag_view(
    t: Map<MemberId, HashMap<MemberId, usize>>,
) -> Map<MemberId, Map<MemberId, usize>> {
    t.map_values(|h: HashMap<MemberId, usize>| h@)
}

impl AdtMeta {
    pub fn new() -> (r: AdtMeta)
        ensures
            r.tag_fns@ == Map::<MemberId, HashMap<MemberId, usize>>::empty(),
            r.dtors@ == Map::<MemberId, (MemberId, usize)>::empty(),
    {
        AdtMeta { tag_fns: HashMap::new(), dtors: HashMap::new() }
    }
}

fn add_fields(
    dtors: &mut HashMap<MemberId, (MemberId, usize)>,
    ctor: MemberId,
    projs: &Vec<MemberId>,
)
    ensures
        final(dtors)@ == with_fields(old(dtors)@, ctor, projs@),
{
    let ghost known = dtors@;
    let mut i: usize = 0;
    proof {
        assert(projs@.take(0) =~= Seq::empty());
    }
    while i < projs.len()
        invariant
            i <= projs@.len(),
            dtors@ == with_fields(known, ctor, projs@.take(i as int)),
        decreases projs.len() - i,
    {
        proof {
            assert(projs@.take(i + 1).drop_last() =~= projs@.take(i as int));
        }
        dtors.insert(projs[i], (ctor, i));
        i += 1;
    }
    proof {
        assert(projs@.take(projs@.len() as int) =~= projs@);
    }
}

fn add_ctors(
    dtors: &mut HashMap<MemberId, (MemberId, usize)>,
    ctors: &Vec<AdtCtor>,
) -> (tags: HashMap<MemberId, usize>)
    ensures
        final(dtors)@ == with_ctors(old(dtors)@, ctors@),
        tags@ == ctor_tags(ctors@),
{
    let ghost known = dtors@;
    let mut tags: HashMap<MemberId, usize> = HashMap::new();
    let mut i: usize = 0;
    proof {
        assert(ctors@.take(0) =~= Seq::empty());
    }
    while i < ctors.len()
        invariant
            i <= ctors@.len(),
            dtors@ == with_ctors(known, ctors@.take(i as int)),
            tags@ == ctor_tags(ctors@.take(i as int)),
        decreases ctors.len() - i,
    {
        proof {
            assert(ctors@.take(i + 1).drop_last() =~= ctors@.take(i as int));
        }
        tags.insert(ctors[i].ctor_fn, ctors[i].tag);
        add_fields(dtors, ctors[i].ctor_fn, &ctors[i].projections);
        i += 1;
    }
    proof {
        assert(ctors@.take(ctors@.len() as int) =~= ctors@);
    }
    tags
}

/// What the functions of a program's declarations read and tell apart.
pub fn derive_adt_meta(program: &Program) -> (meta: AdtMeta)
    ensures
        meta.dtors@ == fields_of(program.decls@),
        tag_view(meta.tag_fns@) == tags_of(program.decls@),
{
    let decls = &program.decls;
    let mut meta = AdtMeta::new();
    let mut i: usize = 0;
    proof {
        assert(decls@.take(0) =~= Seq::empty());
        assert(tag_view(meta.tag_fns@) =~= Map::empty());
    }
    while i < decls.len()
        invariant
            i <= decls@.len(),
            *decls == program.decls,
            meta.dtors@ == fields_of(decls@.take(i as int)),
            tag_view(meta.tag_fns@) == tags_of(decls@.take(i as int)),
        decreases decls.len() - i,
    {
        proof {
            assert(decls@.take(i + 1).drop_last() =~= decls@.take(i as int));
            assert(decls@.take(i + 1).last() == decls@[i as int]);
        }
        match &decls[i] {
            Declaration::Adt(adt) => {
                if let Some(ops) = &adt.ops {
                    let ghost before = meta.tag_fns@;
                    let tags = add_ctors(&mut meta.dtors, &ops.constructors);
                    let ghost t = tags;
                    meta.tag_fns.insert(ops.tag_fn, tags);
                    proof {
                        assert(tag_view(before.insert(ops.tag_fn, t)) =~= tag_view(before).insert(
                            ops.tag_fn,
                            t@,
                        ));
                    }
                }
            },
            Declaration::Resource(r) => {
                if let Some(p) = &r.pred {
                    add_fields(&mut meta.dtors, p.snap_cons, &p.snap_projs);
                }
            },
            _ => {},
        }
        i += 1;
    }
    proof {
        assert(decls@.take(decls@.len() as int) =~= decls@);
    }
    meta
}

/// A function that reads field `i` of a constructor, and that no later field reads,
/// reduces to that field.
pub proof fn law_field(
    known: Map<MemberId, (MemberId, usize)>,
    ctor: MemberId,
    projs: Seq<MemberId>,
    i: int,
)
    requires
        0 <= i < projs.len() <= usize::MAX,
        forall|j: int| i < j < projs.len() ==> projs[j] != projs[i],
    ensures
        with_fields(known, ctor, projs).dom().contains(projs[i]),
        with_fields(known, ctor, projs)[projs[i]] == (ctor, i as usize),
    decreases projs.len(),
{
    if i < projs.len() - 1 {
        assert(projs[projs.len() - 1] != projs[i]);
        law_field(known, ctor, projs.drop_last(), i);
    }
}

} // verus!
