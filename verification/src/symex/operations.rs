//! The steps of symbolic execution.

use crate::symex::state::{first_at, Chunk, ChunkV, State};
use crate::symex::store::LocalVar;
use crate::symex::term::Term;
use vstd::prelude::*;

verus! {

/// Why permission could not be given up.
#[derive(Debug, Clone, Copy, PartialEq, Eq, Structural)]
pub enum ExhaleError {
    NoMatchingChunk,
    InsufficientPermission,
}

/// Gains permission to a location.
pub fn inhale(state: &mut State, location: Term, perm: Term, snap: Term)
    ensures
        final(state).heap@.len() == old(state).heap@.len() + 1,
        final(state).heap@.drop_last() == old(state).heap@,
        final(state).heap@.last()@ == (ChunkV {
            location: location@,
            perm: perm@,
            snap: snap@,
        }),
        final(state).store == old(state).store,
        final(state).path_conditions == old(state).path_conditions,
{
    let chunk = Chunk::new(location, perm, snap);
    state.heap.add_chunk(chunk);
    proof {
        assert(state.heap@.drop_last() =~= old(state).heap@);
    }
}

/// Gives up the first chunk at a location, whatever permission it holds.
pub fn exhale(state: &mut State, location: &Term, perm: &Term) -> (r: Result<(), ExhaleError>)
    ensures
        match first_at(old(state).heap@, location@) {
            Some(i) => r is Ok && final(state).heap@ == old(state).heap@.remove(i),
            None => r == Err::<(), ExhaleError>(ExhaleError::NoMatchingChunk) && final(state).heap@
                == old(state).heap@,
        },
        final(state).store == old(state).store,
        final(state).path_conditions == old(state).path_conditions,
{
    match state.heap.consume_chunk(location) {
        Some(_) => Ok(()),
        None => Err(ExhaleError::NoMatchingChunk),
    }
}

/// Binds a variable.
pub fn bind_var(state: &mut State, var: LocalVar, term: Term)
    ensures
        final(state).store@ == old(state).store@.insert(var.0@, term@),
        final(state).heap == old(state).heap,
        final(state).path_conditions == old(state).path_conditions,
{
    state.store.bind(var, term);
}

/// The term of a variable.
pub fn lookup_var<'a>(state: &'a State, var: &LocalVar) -> (r: Option<&'a Term>)
    ensures
        r is Some == state.store@.dom().contains(var.0@),
        r matches Some(t) ==> t@ == state.store@[var.0@],
{
    state.store.get(var)
}

/// Adds a path condition.
pub fn assume_condition(state: &mut State, condition: Term)
    ensures
        final(state).path_conditions@ == old(state).path_conditions@.push(condition),
        final(state).store == old(state).store,
        final(state).heap == old(state).heap,
{
    state.assume_condition(condition);
}

/// Giving up permission undoes gaining it, where the location was not held before.
pub proof fn law_exhale_undoes_inhale(before: Seq<Chunk>, after: Seq<Chunk>, chunk: Chunk)
    requires
        first_at(before, chunk.location@) is None,
        after.len() == before.len() + 1,
        after.drop_last() == before,
        after.last()@ == chunk@,
    ensures
        first_at(after, chunk.location@) == Some(before.len() as int),
        after.remove(before.len() as int) == before,
{
    assert(after.remove(before.len() as int) =~= before);
}

} // verus!
