use std::any::TypeId;
use vstd::prelude::*;

verus! {

/// `std::any::TypeId`, the runtime identity of a `'static` type, carried
/// through the library as an opaque value.
#[verifier::external_type_specification]
#[verifier::external_body]
pub struct ExTypeId(TypeId);

/// Relies on `<TypeId as PartialEq>::eq`: two identities compare equal
/// exactly when they are the same value.
#[verifier::external_body]
pub(crate) fn same_type(a: &TypeId, b: &TypeId) -> (r: bool)
    ensures
        r == (*a == *b),
{
    *a == *b
}

/// Relies on `TypeId::of`: the identity of `T`. Nothing about the value is
/// assumed.
pub assume_specification<T: ?Sized + 'static>[ TypeId::of::<T> ]() -> TypeId;

} // verus!
