//! Type identities used as keys throughout the framework.
use std::any::TypeId;
use vstd::prelude::*;

verus! {

/// `std::any::TypeId` is an opaque identity of a Rust type.
#[verifier::external_type_specification]
#[verifier::external_body]
pub struct ExTypeId(TypeId);

/// Compares two type identities with `TypeId`'s `==`.
///
/// Trusted: `TypeId` is a plain value whose equality holds exactly when both
/// identify the same type, so the result is stated as value equality.
#[verifier::external_body]
pub(crate) fn same_type(a: &TypeId, b: &TypeId) -> (r: bool)
    ensures
        r == (*a == *b),
{
    *a == *b
}

/// The `Debug` text of a type identity.
pub uninterp spec fn type_id_text(t: TypeId) -> Seq<char>;

/// `TypeId`'s `Debug` formatting (`format!("{:?}", t)`): the text is a
/// function of the identity; what it spells is named, not stated.
#[verifier::external_body]
pub(crate) fn type_id_debug(t: &TypeId) -> (r: String)
    ensures
        r@ == type_id_text(*t),
{
    format!("{:?}", t)
}

} // verus!
