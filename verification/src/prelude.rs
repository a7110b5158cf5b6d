//! Declarations that every program has.

use crate::interner::Interner;
use crate::program::{Adt, AdtVariant, Declaration, Program};
use crate::vmir::Type;
use vstd::prelude::*;

verus! {

/// The name of the builtin option type.
pub const OPTION: &'static str = "Option";

/// The declaration of the builtin option type: `Some` holds a value of the type
/// parameter, `None` holds nothing.
pub open spec fn is_option(d: Declaration) -> bool {
    &&& d matches Declaration::Adt(adt)
    &&& adt.ops is None
    &&& adt.variants@.len() == 2
    &&& adt.variants@[0].name is None
    &&& adt.variants@[0].field_types@ == seq![Type::Generic(0)]
    &&& adt.variants@[1].name is None
    &&& adt.variants@[1].field_types@.len() == 0
}

/// A program has the builtin declarations of another appended, unless that names the
/// option type.
pub open spec fn preluded(program: Program, r: Program) -> bool {
    &&& program.interner@.contains(OPTION@) ==> r == program
    &&& !program.interner@.contains(OPTION@) ==> r.interner@ == program.interner@.push(OPTION@)
        && r.decls@.len() == program.decls@.len() + 1 && r.decls@.drop_last() == program.decls@
        && is_option(r.decls@.last())
}

/// The program with the builtin declarations appended. What was declared keeps its
/// index. A program that names the option type has them already.
pub fn with_prelude(program: Program) -> (r: Program)
    requires
        !program.interner@.contains(OPTION@) ==> program.interner@.len() < u32::MAX,
    ensures
        preluded(program, r),
{
    if program.interner.get(OPTION).is_some() {
        return program;
    }
    let Program { interner, decls } = program;
    let (interner, _): (Interner, usize) = interner.with_name(OPTION);
    let mut decls = decls;
    let mut payload: Vec<Type> = Vec::new();
    payload.push(Type::Generic(0));
    let mut variants: Vec<AdtVariant> = Vec::new();
    variants.push(AdtVariant { name: None, field_types: payload });
    variants.push(AdtVariant { name: None, field_types: Vec::new() });
    proof {
        assert(payload@ =~= seq![Type::Generic(0)]);
    }
    decls.push(Declaration::Adt(Adt { variants, ops: None }));
    proof {
        assert(decls@.drop_last() =~= program.decls@);
    }
    Program { interner, decls }
}

/// Where every declaration has a name, so has the option type, under its index.
pub proof fn law_prelude_index(program: Program, r: Program)
    requires
        program.interner@.len() == program.decls@.len(),
        !program.interner@.contains(OPTION@),
        r.interner@ == program.interner@.push(OPTION@),
        r.decls@.len() == program.decls@.len() + 1,
    ensures
        r.interner@.len() == r.decls@.len(),
        r.name_of(program.decls@.len()) == OPTION@,
        forall|i: nat| i < program.decls@.len() ==> r.name_of(i) == #[trigger] program.name_of(i),
{
}

/// The builtin declarations are appended once: a program that has them, with or without
/// room for more names, stays as it is.
pub proof fn law_prelude_once(program: Program, once: Program, twice: Program)
    requires
        preluded(program, once),
        preluded(once, twice),
    ensures
        once.interner@.contains(OPTION@),
        twice == once,
{
    if !program.interner@.contains(OPTION@) {
        assert(once.interner@[program.interner@.len() as int] == OPTION@);
    }
}

} // verus!
