//! Type identities, as handed out by `std::any::TypeId`.

use vstd::prelude::*;

verus! {

/// `std::any::TypeId` is opaque here: its values are only carried and compared.
#[verifier::external_type_specification]
#[verifier::external_body]
pub struct ExTypeId(std::any::TypeId);

/// Calls `std::any::TypeId::of::<T>()`.
///
/// Nothing is claimed of the value: it stands for `T` and is only compared. What the library
/// states of a type identity it states through `is_type_id_of`: a value this call returned.
#[verifier::external_body]
pub(crate) fn type_id_of<T: ?Sized + 'static>() -> std::any::TypeId {
    std::any::TypeId::of::<T>()
}

/// Whether `id` is the type identity of `T`: a value that `TypeId::of::<T>()` returns.
pub closed spec fn is_type_id_of<T: ?Sized + 'static>(id: std::any::TypeId) -> bool {
    call_ensures(type_id_of::<T>, (), id)
}

/// What `type_id_of::<T>()` returns is the type identity of `T`.
pub(crate) broadcast proof fn lemma_type_id_of<T: ?Sized + 'static>(id: std::any::TypeId)
    requires
        call_ensures(type_id_of::<T>, (), id),
    ensures
        #[trigger] is_type_id_of::<T>(id),
{
}

/// Compares two type identities with `TypeId`'s `==`.
///
/// Claimed: the comparison is true exactly when the two values are the same value, which is
/// what `TypeId` documents (equal identities denote the same type).
#[verifier::external_body]
pub(crate) fn type_id_eq(a: &std::any::TypeId, b: &std::any::TypeId) -> (r: bool)
    ensures
        r == (*a == *b),
{
    *a == *b
}

} // verus!
