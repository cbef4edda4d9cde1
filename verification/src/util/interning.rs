//! String interning on top of `lasso`'s `Rodeo`.
//!
//! A `Rodeo` holds distinct strings in the order they were first interned;
//! a handle is a string's position in that order.

use vstd::prelude::*;
use std::collections::hash_map::RandomState;
use lasso::{Key, Rodeo, Spur};

verus! {

#[verifier::external_type_specification]
#[verifier::external_body]
#[verifier::reject_recursive_types(K)]
#[verifier::reject_recursive_types(S)]
pub struct ExRodeo<K, S>(Rodeo<K, S>);

#[verifier::external_type_specification]
#[verifier::external_body]
pub struct ExSpur(Spur);

/// The strings a `Rodeo` holds, in the order they were first interned
/// (the position of a string is the index behind its key).
pub uninterp spec fn rodeo_strings(r: Rodeo<Spur, RandomState>) -> Seq<Seq<char>>;

/// A new, empty `Rodeo`.
///
/// Calls `lasso::Rodeo::new`, which starts with no strings.
#[verifier::external_body]
fn rodeo_new() -> (res: Rodeo<Spur, RandomState>)
    ensures
        rodeo_strings(res) == Seq::<Seq<char>>::empty(),
{
    Rodeo::new()
}

/// The position of `s` in the `Rodeo`, interning it first when it is new.
///
/// Calls `Rodeo::get_or_intern` and turns the key into its position with
/// `Key::into_usize`.  In lasso's source a string already held keeps its
/// key and the strings stay as they are; a new string is pushed at the end
/// and its key is built from the old number of strings.  `get_or_intern`
/// panics when that number is no longer below `u32::MAX` (the key space of
/// `Spur`), which the precondition rules out.
#[verifier::external_body]
fn rodeo_get_or_intern(r: &mut Rodeo<Spur, RandomState>, s: &str) -> (res: u32)
    requires
        rodeo_strings(*old(r)).contains(s@) || rodeo_strings(*old(r)).len() < u32::MAX,
    ensures
        rodeo_strings(*old(r)).contains(s@) ==> rodeo_strings(*final(r)) == rodeo_strings(*old(r))
            && res < rodeo_strings(*old(r)).len() && rodeo_strings(*old(r))[res as int] == s@,
        !rodeo_strings(*old(r)).contains(s@) ==> rodeo_strings(*final(r)) == rodeo_strings(
            *old(r),
        ).push(s@) && res == rodeo_strings(*old(r)).len(),
{
    r.get_or_intern(s).into_usize() as u32
}

/// The string at position `index` of the `Rodeo`.
///
/// Calls `Rodeo::resolve` with the key of that position
/// (`Spur::try_from_usize`); lasso's `resolve` returns the string stored at
/// the key's position and panics when the position is out of range, which
/// the precondition rules out.
#[verifier::external_body]
fn rodeo_resolve(r: &Rodeo<Spur, RandomState>, index: u32) -> (res: String)
    requires
        index < rodeo_strings(*r).len(),
    ensures
        res@ == rodeo_strings(*r)[index as int],
{
    r.resolve(&Spur::try_from_usize(index as usize).unwrap()).to_string()
}

/// The position of `s` in the `Rodeo`, if it is held.
///
/// Calls `Rodeo::get`, which looks the string up without interning it and
/// returns the key of the equal string held, if any.
#[verifier::external_body]
fn rodeo_get(r: &Rodeo<Spur, RandomState>, s: &str) -> (res: Option<u32>)
    ensures
        res is Some <==> rodeo_strings(*r).contains(s@),
        res matches Some(i) ==> i < rodeo_strings(*r).len() && rodeo_strings(*r)[i as int] == s@,
{
    match r.get(s) {
        Some(k) => Some(k.into_usize() as u32),
        None => None,
    }
}

/// The number of strings the `Rodeo` holds.
///
/// Calls `Rodeo::len`, which in lasso's source is the length of the list
/// of interned strings.
#[verifier::external_body]
fn rodeo_len(r: &Rodeo<Spur, RandomState>) -> (res: usize)
    ensures
        res == rodeo_strings(*r).len(),
{
    r.len()
}

/// A handle of an interned string.
#[derive(Debug, Clone, Copy, PartialEq, Eq, Structural, Hash, PartialOrd, Ord)]
pub struct InternedString(pub u32);

/// Interns strings: equal strings get the same handle.
#[derive(Debug)]
pub struct Interner {
    rodeo: Rodeo<Spur, RandomState>,
}

impl Interner {
    /// The interned strings; the handle of each is its position.
    pub closed spec fn strings(&self) -> Seq<Seq<char>> {
        rodeo_strings(self.rodeo)
    }

    /// Whether no string is held twice.
    pub closed spec fn wf(&self) -> bool {
        self.strings().no_duplicates()
    }

    /// An interner without strings.
    pub fn new() -> (res: Self)
        ensures
            res.wf(),
            res.strings() == Seq::<Seq<char>>::empty(),
    {
        Interner { rodeo: rodeo_new() }
    }

    /// The handle of `s`, interning it when it is new.
    pub fn intern(&mut self, s: &str) -> (res: InternedString)
        requires
            old(self).wf(),
            old(self).strings().contains(s@) || old(self).strings().len() < u32::MAX,
        ensures
            final(self).wf(),
            final(self).strings() == if old(self).strings().contains(s@) {
                old(self).strings()
            } else {
                old(self).strings().push(s@)
            },
            res.0 < final(self).strings().len(),
            final(self).strings()[res.0 as int] == s@,
    {
        let ghost before = self.strings();
        let i = rodeo_get_or_intern(&mut self.rodeo, s);
        proof {
            if !before.contains(s@) {
                crate::util::seqs::lemma_push_no_duplicates(before, s@);
            }
        }
        InternedString(i)
    }

    /// The string of a handle.
    pub fn resolve(&self, handle: InternedString) -> (res: String)
        requires
            handle.0 < self.strings().len(),
        ensures
            res@ == self.strings()[handle.0 as int],
    {
        rodeo_resolve(&self.rodeo, handle.0)
    }

    /// The number of strings interned.
    pub fn len(&self) -> (res: usize)
        ensures
            res == self.strings().len(),
    {
        rodeo_len(&self.rodeo)
    }

    /// The handle of `s`, if it was interned.
    pub fn get(&self, s: &str) -> (res: Option<InternedString>)
        ensures
            res is Some <==> self.strings().contains(s@),
            res matches Some(h) ==> h.0 < self.strings().len() && self.strings()[h.0 as int] == s@,
    {
        match rodeo_get(&self.rodeo, s) {
            Some(i) => Some(InternedString(i)),
            None => None,
        }
    }
}

impl Default for Interner {
    /// An interner without strings.
    fn default() -> (res: Self)
        ensures
            res.wf(),
            res.strings() == Seq::<Seq<char>>::empty(),
    {
        Self::new()
    }
}

/// A string has one handle: in an interner without repeated strings, two
/// handles of the same string are the same handle.
pub proof fn lemma_one_handle_per_string(interner: Interner, a: InternedString, b: InternedString)
    requires
        interner.wf(),
        a.0 < interner.strings().len(),
        b.0 < interner.strings().len(),
        interner.strings()[a.0 as int] == interner.strings()[b.0 as int],
    ensures
        a == b,
{
    if a.0 != b.0 {
        assert(interner.strings().no_duplicates());
    }
}

} // verus!
