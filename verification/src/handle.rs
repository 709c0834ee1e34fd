//! Instances and the handles by which they are shared.
use crate::assoc::Share;
use crate::error::{Error, ErrorView, InstanceTypeError, TypeMismatch};
use crate::names::{IdView, ServiceId};
use std::sync::Arc;
use vstd::prelude::*;

verus! {

/// A constructed service object, shared and of a type known only at run time.
///
/// Nothing is known of what is inside; callers downcast it.
#[verifier::external_body]
pub struct Instance(pub Arc<dyn downcast::AnySync>);

/// `Arc::clone` on the object: a second pointer to the same allocation, so the
/// copy is the instance it was made from.
#[verifier::external_body]
fn share_instance(instance: &Instance) -> (r: Instance)
    ensures
        r == *instance,
{
    Instance(instance.0.clone())
}

/// Whether the object is a `T`, by `downcast_ref` of the crate `downcast` on
/// the object behind the `Arc`; if it is not, the names of `T` and of the
/// object's type as the crate's `TypeMismatch` holds them. Nothing is claimed
/// of which comes back.
#[verifier::external_body]
fn downcast_mismatch<T: Send + Sync + 'static>(instance: &Instance) -> (r: Option<TypeMismatch>) {
    match instance.0.downcast_ref::<T>() {
        Ok(_) => None,
        Err(mismatch) => Some(
            TypeMismatch {
                expected: mismatch.expected.to_owned(),
                found: mismatch.found.to_owned(),
            },
        ),
    }
}

/// What the result of a resolution denotes.
pub open spec fn handle_view(result: Result<InstanceHandle, Error>) -> Result<
    HandleView,
    ErrorView,
> {
    match result {
        Ok(handle) => Ok(handle@),
        Err(error) => Err(error@),
    }
}

/// The result of a resolution where the service need not be bound: that no
/// layer claims what was asked for is no failure. (That a dependency was
/// not found is one: it is the failure of a construction.)
pub open spec fn optional(result: Result<HandleView, ErrorView>) -> Result<
    Option<HandleView>,
    ErrorView,
> {
    match result {
        Ok(handle) => Ok(Some(handle)),
        Err(error) => if error is ServiceNotFound {
            Ok(None)
        } else {
            Err(error)
        },
    }
}

/// What the result of a resolution that need not find anything denotes.
pub open spec fn optional_view(result: Result<Option<InstanceHandle>, Error>) -> Result<
    Option<HandleView>,
    ErrorView,
> {
    match result {
        Ok(Some(handle)) => Ok(Some(handle@)),
        Ok(None) => Ok(None),
        Err(error) => Err(error@),
    }
}

/// What a check of the instance of `handle`, asked for as `service`, makes
/// of it: the handle where the check found nothing, else the mismatch.
pub open spec fn checked(
    service: IdView,
    handle: HandleView,
    mismatch: Option<TypeMismatch>,
) -> Result<HandleView, ErrorView> {
    match mismatch {
        None => Ok(handle),
        Some(found) => Err(ErrorView::TypeMismatch(service, found.expected@, found.found@)),
    }
}

/// Whether `result` is what a check of the type of the instance may make of
/// `found`, the result of resolving `service`: a failure stays, an instance
/// comes through or is reported as not of the type.
pub open spec fn admits(
    service: IdView,
    found: Result<HandleView, ErrorView>,
    result: Result<HandleView, ErrorView>,
) -> bool {
    match found {
        Err(_) => result == found,
        Ok(_) => result == found || (result matches Err(ErrorView::TypeMismatch(id, _, _)) && id
            == service),
    }
}

/// The instance if it is of the type `expected`, else the mismatch, for a
/// resolution of `service`.
pub open spec fn typed(
    service: IdView,
    expected: Seq<char>,
    result: Result<HandleView, ErrorView>,
) -> Result<HandleView, ErrorView> {
    match result {
        Ok(handle) => if handle.type_tag == expected {
            Ok(handle)
        } else {
            Err(ErrorView::TypeMismatch(service, expected, handle.type_tag))
        },
        Err(error) => Err(error),
    }
}

/// What an [`InstanceHandle`] denotes.
pub struct HandleView {
    /// Which construction of its container produced the instance: handles
    /// of one container with equal serials are handles of one instance.
    pub serial: nat,
    /// The type that the binding was registered to produce.
    pub type_tag: Seq<char>,
    pub instance: Instance,
}

/// A reference to a constructed instance, with its identity and the tag of
/// its type.
pub struct InstanceHandle {
    pub(crate) serial: u64,
    pub(crate) type_tag: String,
    pub(crate) instance: Instance,
}

impl View for InstanceHandle {
    type V = HandleView;

    closed spec fn view(&self) -> HandleView {
        HandleView {
            serial: self.serial as nat,
            type_tag: self.type_tag@,
            instance: self.instance,
        }
    }
}

impl DeepView for InstanceHandle {
    type V = HandleView;

    open spec fn deep_view(&self) -> HandleView {
        self@
    }
}

impl Share for InstanceHandle {
    fn share(&self) -> (r: Self) {
        InstanceHandle {
            serial: self.serial,
            type_tag: self.type_tag.clone(),
            instance: share_instance(&self.instance),
        }
    }
}

impl InstanceHandle {
    /// The handle of the instance that construction number `serial` produced.
    pub(crate) fn new(serial: u64, type_tag: String, instance: Instance) -> (r: Self)
        ensures
            r@ == (HandleView { serial: serial as nat, type_tag: type_tag@, instance }),
    {
        InstanceHandle { serial, type_tag, instance }
    }

    /// Another handle of the same instance.
    pub fn share_handle(&self) -> (r: Self)
        ensures
            r@ == self@,
    {
        self.share()
    }

    /// The number of the construction that produced the instance.
    pub fn serial(&self) -> (r: u64)
        ensures
            r == self@.serial,
    {
        self.serial
    }

    /// The tag of the type that the instance was registered under.
    pub fn type_tag(&self) -> (r: &String)
        ensures
            r@ == self@.type_tag,
    {
        &self.type_tag
    }

    /// The instance itself, to be downcast by the caller.
    pub fn instance(&self) -> (r: &Instance)
        ensures
            *r == self@.instance,
    {
        &self.instance
    }

    /// Whether both handles refer to the same instance.
    pub fn same_instance(&self, other: &InstanceHandle) -> (r: bool)
        ensures
            r == (self@.serial == other@.serial),
    {
        self.serial == other.serial
    }

    /// The handle if the instance was registered under the type `expected`,
    /// else the mismatch.
    pub fn expect_type(self, service: &ServiceId, expected: &String) -> (r: Result<
        InstanceHandle,
        Error,
    >)
        ensures
            match r {
                Ok(handle) => typed(service@, expected@, Ok(self@)) == Ok::<
                    HandleView,
                    ErrorView,
                >(handle@),
                Err(error) => typed(service@, expected@, Ok(self@)) == Err::<
                    HandleView,
                    ErrorView,
                >(error@),
            },
    {
        if self.type_tag == *expected {
            Ok(self)
        } else {
            Err(
                Error::TypeMismatch(
                    InstanceTypeError::new(
                        service.share(),
                        TypeMismatch { expected: expected.clone(), found: self.type_tag },
                    ),
                ),
            )
        }
    }

    /// The handle, or the failure that `mismatch`, found by a check of its
    /// instance, amounts to.
    pub fn checked(self, service: &ServiceId, mismatch: Option<TypeMismatch>) -> (r: Result<
        InstanceHandle,
        Error,
    >)
        ensures
            handle_view(r) == checked(service@, self@, mismatch),
    {
        match mismatch {
            None => Ok(self),
            Some(found) => Err(
                Error::TypeMismatch(InstanceTypeError::new(service.share(), found)),
            ),
        }
    }

    /// The handle if its instance is a `T`, else the mismatch.
    pub fn downcast<T: Send + Sync + 'static>(self, service: &ServiceId) -> (r: Result<
        InstanceHandle,
        Error,
    >)
        ensures
            admits(service@, Ok(self@), handle_view(r)),
    {
        let mismatch = downcast_mismatch::<T>(&self.instance);
        self.checked(service, mismatch)
    }

    /// Whether the instance was registered under the type `expected`.
    pub fn is_type(&self, expected: &String) -> (r: bool)
        ensures
            r == (self@.type_tag == expected@),
    {
        self.type_tag == *expected
    }
}

} // verus!
