//! What the table asks of the type of its symbols.

use vstd::laws_eq::obeys_concrete_eq;
use vstd::prelude::*;

verus! {

/// The table compares symbols with `==` and keeps clones of them. Its
/// contracts speak of the symbols themselves, so they hold for a type whose
/// `==` is true of equal values only and whose `clone` returns a value equal
/// to the one that was cloned.
pub open spec fn symbol_laws<T: Clone + Eq>() -> bool {
    &&& obeys_concrete_eq::<T>()
    &&& forall|a: T, b: T| #[trigger] call_ensures(T::clone, (&a,), b) ==> a == b
}

/// Bytes are symbols.
pub proof fn lemma_bytes_are_symbols()
    ensures
        symbol_laws::<u8>(),
{
    reveal(obeys_concrete_eq);
}

/// Whether two symbols are equal.
pub(crate) fn same<T: Clone + Eq>(a: &T, b: &T) -> (r: bool)
    requires
        symbol_laws::<T>(),
    ensures
        r == (*a == *b),
{
    proof {
        reveal(obeys_concrete_eq);
    }
    *a == *b
}

/// A copy of a symbol.
pub(crate) fn duplicate<T: Clone + Eq>(a: &T) -> (r: T)
    requires
        symbol_laws::<T>(),
    ensures
        r == *a,
{
    a.clone()
}

} // verus!
