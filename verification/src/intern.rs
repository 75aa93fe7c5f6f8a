//! Dense-handle string interning, backed by the `string_interner` crate.
//!
//! The interner maps distinct strings to dense integer handles, in order of
//! first appearance: handle `h` names the `h`-th distinct string interned.
//! Tokens carry these handles, and handle equality stands in for string
//! equality.

use vstd::prelude::*;
use string_interner::StringInterner;
use string_interner::Symbol;
use string_interner::backend::DefaultBackend;
use string_interner::symbol::SymbolU32;

verus! {

/// No more than this many distinct strings can be interned: the backing
/// symbol type is a 32-bit index.
pub const INTERNER_CAPACITY: usize = 0xFFFF_FFFE;

/// An append-only table of distinct strings with dense integer handles.
#[verifier::external_body]
pub struct Interner {
    inner: StringInterner<DefaultBackend>,
}

/// The strings interned so far, in handle order: handle `h` names
/// `interner_strings(i)[h]`.
pub uninterp spec fn interner_strings(i: Interner) -> Seq<Seq<char>>;

impl Interner {
    /// Relies on `StringInterner::new`: a fresh interner holds no strings.
    #[verifier::external_body]
    pub fn new() -> (r: Interner)
        ensures
            interner_strings(r) == Seq::<Seq<char>>::empty(),
    {
        Interner { inner: StringInterner::new() }
    }

    /// Relies on `StringInterner::len`: the number of strings interned so far.
    #[verifier::external_body]
    pub fn len(&self) -> (n: usize)
        ensures
            n == interner_strings(*self).len(),
    {
        self.inner.len()
    }

    /// Relies on `StringInterner::get_or_intern` over the default backend,
    /// whose symbols are dense indices in order of first interning and which
    /// returns the existing symbol for an already-interned string. Panics
    /// only when the symbol space is exhausted, which the precondition rules
    /// out.
    #[verifier::external_body]
    pub fn get_or_intern(&mut self, s: &str) -> (h: u32)
        requires
            interner_strings(*old(self)).len() < 0xFFFF_FFFE,
        ensures
            (h as int) < interner_strings(*final(self)).len(),
            interner_strings(*final(self))[h as int] == s@,
            forall|j: int| 0 <= j < h ==> interner_strings(*final(self))[j] != s@,
            (exists|i: int| 0 <= i < interner_strings(*old(self)).len() && interner_strings(*old(self))[i] == s@)
                ==> interner_strings(*final(self)) == interner_strings(*old(self)),
            !(exists|i: int| 0 <= i < interner_strings(*old(self)).len() && interner_strings(*old(self))[i] == s@)
                ==> interner_strings(*final(self)) == interner_strings(*old(self)).push(s@),
    {
        self.inner.get_or_intern(s).to_usize() as u32
    }

    /// Relies on `StringInterner::resolve` over the default backend: the
    /// string first interned under a live handle, `None` for a dead one.
    #[verifier::external_body]
    pub fn resolve(&self, h: u32) -> (r: Option<&str>)
        ensures
            match r {
                Some(t) => (h as int) < interner_strings(*self).len() && t@ == interner_strings(*self)[h as int],
                None => (h as int) >= interner_strings(*self).len(),
            },
    {
        match SymbolU32::try_from_usize(h as usize) {
            Some(sym) => self.inner.resolve(sym),
            None => None,
        }
    }
}

} // verus!
