//! Why a resolution failed.
use crate::names::{IdView, ServiceId};
use vstd::prelude::*;

verus! {

/// No layer of the chain claims the service.
pub struct InstancerNotFoundError {
    pub service_name: ServiceId,
}

/// The factory bound to the service failed.
pub struct InstanceCreationError {
    pub service_name: ServiceId,
    pub creation_error: Cause,
}

/// The instance is not of the type that was asked for.
pub struct InstanceTypeError {
    pub service_name: ServiceId,
    pub type_mismatch: TypeMismatch,
}

/// The type that was expected of an instance and the one that was found.
pub struct TypeMismatch {
    pub expected: String,
    pub found: String,
}

/// Why a factory did not produce its instance.
pub enum Cause {
    /// The factory itself reported a failure.
    Factory(String),
    /// One of the dependencies could not be resolved.
    Dependency(Box<Error>),
    /// The container has given out all the serial numbers it has.
    Exhausted,
}

pub enum Error {
    ServiceNotFound(InstancerNotFoundError),
    CreationError(InstanceCreationError),
    TypeMismatch(InstanceTypeError),
}

pub enum CauseView {
    Factory(Seq<char>),
    Dependency(Box<ErrorView>),
    Exhausted,
}

pub enum ErrorView {
    ServiceNotFound(IdView),
    CreationError(IdView, CauseView),
    TypeMismatch(IdView, Seq<char>, Seq<char>),
}

pub open spec fn cause_view(cause: Cause) -> CauseView
    decreases cause,
{
    match cause {
        Cause::Factory(message) => CauseView::Factory(message@),
        Cause::Dependency(inner) => CauseView::Dependency(Box::new(error_view(*inner))),
        Cause::Exhausted => CauseView::Exhausted,
    }
}

pub open spec fn error_view(error: Error) -> ErrorView
    decreases error,
{
    match error {
        Error::ServiceNotFound(e) => ErrorView::ServiceNotFound(e.service_name@),
        Error::CreationError(e) => ErrorView::CreationError(
            e.service_name@,
            cause_view(e.creation_error),
        ),
        Error::TypeMismatch(e) => ErrorView::TypeMismatch(
            e.service_name@,
            e.type_mismatch.expected@,
            e.type_mismatch.found@,
        ),
    }
}

impl View for Cause {
    type V = CauseView;

    open spec fn view(&self) -> CauseView {
        cause_view(*self)
    }
}

impl View for Error {
    type V = ErrorView;

    open spec fn view(&self) -> ErrorView {
        error_view(*self)
    }
}

impl InstancerNotFoundError {
    pub fn new(service_name: ServiceId) -> (r: Self)
        ensures
            r.service_name == service_name,
    {
        InstancerNotFoundError { service_name }
    }
}

impl InstanceCreationError {
    pub fn new(service_name: ServiceId, creation_error: Cause) -> (r: Self)
        ensures
            r.service_name == service_name,
            r.creation_error == creation_error,
    {
        InstanceCreationError { service_name, creation_error }
    }
}

impl InstanceTypeError {
    pub fn new(service_name: ServiceId, type_mismatch: TypeMismatch) -> (r: Self)
        ensures
            r.service_name == service_name,
            r.type_mismatch == type_mismatch,
    {
        InstanceTypeError { service_name, type_mismatch }
    }
}

impl Error {
    /// The service that the failure is about.
    pub fn service(&self) -> (r: &ServiceId)
        ensures
            r@ == match self@ {
                ErrorView::ServiceNotFound(id) => id,
                ErrorView::CreationError(id, _) => id,
                ErrorView::TypeMismatch(id, _, _) => id,
            },
    {
        match self {
            Error::ServiceNotFound(e) => &e.service_name,
            Error::CreationError(e) => &e.service_name,
            Error::TypeMismatch(e) => &e.service_name,
        }
    }

    /// Whether the failure is that no layer claims what was asked for.
    pub fn is_not_found(&self) -> (r: bool)
        ensures
            r == (self@ is ServiceNotFound),
    {
        match self {
            Error::ServiceNotFound(_) => true,
            _ => false,
        }
    }
}

} // verus!
