//! A dependency-injection runtime: a chain of resolution layers that turns a
//! service identifier into a shared instance.
//!
//! A [`Container`] is a chain of layers: bindings of factories to services,
//! named caches and redirect rules. [`Container::resolve`] sends a request
//! down the chain, newest layer first. What it yields is stated against the
//! mathematical account of the chain in [`model`]; what follows from that
//! account for every chain is proved in [`laws`].
use vstd::prelude::*;

pub mod assoc;
pub mod builder;
pub mod cache;
pub mod container;
pub mod error;
pub mod evolution;
pub mod handle;
pub mod invariants;
pub mod keys;
pub mod laws;
pub mod layer;
pub mod model;
pub mod names;
pub mod path;
pub mod redirect;
pub mod request;
pub mod shelter;

pub use crate::builder::{Builder, RepositoryBuilder};
pub use crate::cache::NamedCache;
pub use crate::container::{container, Container};
pub use crate::error::{
    Cause, Error, InstanceCreationError, InstanceTypeError, InstancerNotFoundError, TypeMismatch,
};
pub use crate::handle::{Instance, InstanceHandle};
pub use crate::keys::{split_first_key, split_last_key};
pub use crate::layer::{Binding, Layer, Lifecycle, Resolve};
pub use crate::names::{
    cache_name_to_opt, DefaultInstance, DefaultInstancer, Main, Reflect, Return, Service,
    ServiceId,
};
pub use crate::path::{Path, PathComponent};
pub use crate::redirect::RedirectRules;
pub use crate::request::{
    Decision, InstantiationRequest, InstantiationResponse, ResolutionRoot, ShadowGuard,
};
