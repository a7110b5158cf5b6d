//! The names of a program.

use crate::text::copy_text;
use lasso::Key;
use vstd::prelude::*;

verus! {

/// The string interner of the `lasso` crate.
#[verifier::external_type_specification]
#[verifier::external_body]
#[verifier::reject_recursive_types(K)]
#[verifier::reject_recursive_types(S)]
pub struct ExRodeo<K, S>(lasso::Rodeo<K, S>);

/// The key of an interned string.
#[verifier::external_type_specification]
#[verifier::external_body]
pub struct ExSpur(lasso::Spur);

/// The strings that an interner holds, each at the index of its key.
pub uninterp spec fn rodeo_names(r: lasso::Rodeo) -> Seq<Seq<char>>;

/// Whether an interner was made without a limit on its memory.
pub uninterp spec fn rodeo_unlimited(r: lasso::Rodeo) -> bool;

/// `lasso::Rodeo::new` makes an interner that holds nothing and has no limit on its
/// memory.
#[verifier::external_body]
fn rodeo_new() -> (r: lasso::Rodeo)
    ensures
        rodeo_names(r) == Seq::<Seq<char>>::empty(),
        rodeo_unlimited(r),
{
    lasso::Rodeo::new()
}

/// `lasso::Rodeo::get` gives the key of a string that the interner holds, and `None`
/// for any other.
#[verifier::external_body]
fn rodeo_get(r: &lasso::Rodeo, name: &str) -> (k: Option<usize>)
    ensures
        k matches Some(i) ==> i < rodeo_names(*r).len() && rodeo_names(*r)[i as int] == name@,
        k is None ==> !rodeo_names(*r).contains(name@),
{
    r.get(name).map(|k| k.into_usize())
}

/// `lasso::Rodeo::get_or_intern` gives the key of a string, and appends the string
/// where the interner does not hold it yet. Keys are 32 bits wide.
#[verifier::external_body]
fn rodeo_intern(r: &mut lasso::Rodeo, name: &str) -> (k: usize)
    requires
        rodeo_unlimited(*old(r)),
        rodeo_names(*old(r)).len() < u32::MAX,
    ensures
        rodeo_unlimited(*final(r)),
        k < rodeo_names(*final(r)).len(),
        rodeo_names(*final(r))[k as int] == name@,
        rodeo_names(*final(r)) == (if rodeo_names(*old(r)).contains(name@) {
            rodeo_names(*old(r))
        } else {
            rodeo_names(*old(r)).push(name@)
        }),
        !rodeo_names(*old(r)).contains(name@) ==> k == rodeo_names(*old(r)).len(),
{
    r.get_or_intern(name).into_usize()
}

/// `lasso::Rodeo::try_resolve` gives the string of a key, and `None` where no string
/// has it. `lasso::Key::try_from_usize` makes the key of every index that a string
/// can have.
#[verifier::external_body]
fn rodeo_resolve(r: &lasso::Rodeo, k: usize) -> (s: Option<&str>)
    ensures
        s matches Some(t) ==> k < rodeo_names(*r).len() && rodeo_names(*r)[k as int] == t@,
        s is None ==> k >= rodeo_names(*r).len(),
{
    lasso::Spur::try_from_usize(k).and_then(|k| r.try_resolve(&k))
}

/// The names of a program, each at the index of its key.
pub struct Interner {
    rodeo: lasso::Rodeo,
}

impl View for Interner {
    type V = Seq<Seq<char>>;

    closed spec fn view(&self) -> Seq<Seq<char>> {
        rodeo_names(self.rodeo)
    }
}

impl Interner {
    #[verifier::type_invariant]
    spec fn unlimited(self) -> bool {
        rodeo_unlimited(self.rodeo)
    }

    /// An interner without names.
    pub fn new() -> (r: Interner)
        ensures
            r@.len() == 0,
    {
        Interner { rodeo: rodeo_new() }
    }

    /// The key of a name.
    pub fn get(&self, name: &str) -> (r: Option<usize>)
        ensures
            r matches Some(i) ==> i < self@.len() && self@[i as int] == name@,
            r is None ==> !self@.contains(name@),
    {
        rodeo_get(&self.rodeo, name)
    }

    /// The interner with a name, and its key: the name is appended where it is new.
    pub fn with_name(self, name: &str) -> (r: (Interner, usize))
        requires
            self@.len() < u32::MAX,
        ensures
            r.1 < r.0@.len(),
            r.0@[r.1 as int] == name@,
            r.0@ == (if self@.contains(name@) {
                self@
            } else {
                self@.push(name@)
            }),
            !self@.contains(name@) ==> r.1 == self@.len(),
    {
        proof {
            use_type_invariant(&self);
        }
        let mut rodeo = self.rodeo;
        let k = rodeo_intern(&mut rodeo, name);
        (Interner { rodeo }, k)
    }

    /// The name of a key.
    pub fn name(&self, k: usize) -> (r: Option<String>)
        ensures
            r matches Some(t) ==> k < self@.len() && self@[k as int] == t@,
            r is None ==> k >= self@.len(),
    {
        match rodeo_resolve(&self.rodeo, k) {
            Some(t) => Some(copy_text(t)),
            None => None,
        }
    }
}

} // verus!
