//! Identity of concrete types, and recovering a concrete type from a shared
//! handle that has forgotten it.
use std::any::Any;
use std::any::TypeId;
use std::sync::Arc;
use vstd::prelude::*;

verus! {

/// `std::any::TypeId`, carried as an opaque value. Two values are equal exactly
/// when they identify the same type.
#[verifier::external_type_specification]
#[verifier::external_body]
pub struct ExTypeId(TypeId);

/// `TypeId::of`: nothing is claimed here beyond that it may be called; what it
/// returns is stated by [`type_id_of`].
pub assume_specification<T: ?Sized + 'static>[ TypeId::of::<T> ]() -> (id: TypeId);

/// The identity of the type `T`: the value that `TypeId::of::<T>` returns.
pub open spec fn type_id<T: ?Sized + 'static>() -> TypeId {
    choose|id: TypeId| call_ensures(TypeId::of::<T>, (), id)
}

/// Calls `TypeId::of`. The claim is that the result is what that function
/// returns, and that it returns the same value for the same type every time.
#[verifier::external_body]
pub(crate) fn type_id_of<T: ?Sized + 'static>() -> (id: TypeId)
    ensures
        call_ensures(TypeId::of::<T>, (), id),
        forall|other: TypeId| call_ensures(TypeId::of::<T>, (), other) ==> other == id,
{
    TypeId::of::<T>()
}

/// Calls `==` on two `TypeId`s. The claim is that it decides whether they are
/// the same value.
#[verifier::external_body]
pub(crate) fn same_type(a: &TypeId, b: &TypeId) -> (same: bool)
    ensures
        same == (*a == *b),
{
    a == b
}

/// A shared value whose concrete type is forgotten: `Arc<dyn Any + Send + Sync>`,
/// carried as an opaque value.
#[verifier::external_body]
pub struct AnyHandle {
    inner: Arc<dyn Any + Send + Sync>,
}

/// Coerces an `Arc<C>` to `Arc<dyn Any + Send + Sync>`, the unsized coercion of
/// `std::sync::Arc`. Nothing is claimed of the result by itself; [`downcast`]
/// gives the value back.
#[verifier::external_body]
fn upcast<C: Send + Sync + 'static>(item: Arc<C>) -> AnyHandle {
    AnyHandle { inner: item }
}

/// Calls `Arc::downcast`. The claim is that it gives back what was coerced:
/// `Some(item)` where the handle came from `item` of the type asked for, and
/// `Some` of nothing else.
#[verifier::external_body]
fn downcast<T: Send + Sync + 'static>(any: &AnyHandle) -> (found: Option<Arc<T>>)
    ensures
        forall|item: Arc<T>| #[trigger]
            call_ensures(upcast::<T>, (item,), *any) ==> found == Some(item),
        found matches Some(item) ==> call_ensures(upcast::<T>, (item,), *any),
{
    Arc::downcast::<T>(any.inner.clone()).ok()
}

/// Calls `Arc::clone`. The claim is that the result is another handle to the same
/// value, which nothing can tell from the first.
#[verifier::external_body]
pub(crate) fn share_any(any: &AnyHandle) -> (other: AnyHandle)
    ensures
        other == *any,
{
    AnyHandle { inner: any.inner.clone() }
}

/// The handle was made from `item`.
pub closed spec fn made_from<C: Send + Sync + 'static>(any: AnyHandle, item: Arc<C>) -> bool {
    call_ensures(upcast::<C>, (item,), any)
}

/// The handle was made from `item`, and from nothing else of that type.
pub open spec fn made_only_from<C: Send + Sync + 'static>(any: AnyHandle, item: Arc<C>) -> bool {
    made_from(any, item) && forall|other: Arc<C>| #[trigger] made_from(any, other) ==> other == item
}

/// Forgets the concrete type of `item`.
pub fn forget_type<C: Send + Sync + 'static>(item: Arc<C>) -> (any: AnyHandle)
    ensures
        made_from(any, item),
{
    upcast(item)
}

/// Gives back the value of type `T` that the handle was made from.
pub fn recall_type<T: Send + Sync + 'static>(any: &AnyHandle) -> (found: Option<Arc<T>>)
    ensures
        forall|item: Arc<T>| #[trigger] made_from(*any, item) ==> found == Some(item),
        found matches Some(item) ==> made_from(*any, item),
{
    downcast(any)
}

} // verus!
