//! Service identifiers and the well-known names.
use crate::assoc::{Key, Share};
use vstd::prelude::*;

verus! {

/// What a [`ServiceId`] denotes: the name of a capability and of one variant of it.
pub struct IdView {
    pub service: Seq<char>,
    pub variant: Seq<char>,
}

/// The key under which a capability is bound and requested. It is compared,
/// never interpreted.
#[derive(Debug)]
pub struct ServiceId {
    pub service: String,
    pub variant: String,
}

impl View for ServiceId {
    type V = IdView;

    open spec fn view(&self) -> IdView {
        IdView { service: self.service@, variant: self.variant@ }
    }
}

impl DeepView for ServiceId {
    type V = IdView;

    open spec fn deep_view(&self) -> IdView {
        self@
    }
}

impl Key for ServiceId {
    fn same(&self, other: &Self) -> (r: bool) {
        self.service == other.service && self.variant == other.variant
    }
}

impl Share for ServiceId {
    fn share(&self) -> (r: Self) {
        ServiceId { service: self.service.clone(), variant: self.variant.clone() }
    }
}

/// A type that has a name under which it is bound.
pub trait Reflect {
    fn name_init() -> String;
}

/// A capability that names itself.
pub trait Service {
    fn service_name() -> String;
}

/// Names the variant that is bound when no other is asked for.
pub struct Main;

/// Names the absence of a cache: an instance destined for it goes to the caller.
pub struct Return;

/// Names the instancer that a repository uses when none is named.
pub struct DefaultInstancer;

/// Names the instance that is meant when none is named.
pub struct DefaultInstance;

impl Reflect for Main {
    fn name_init() -> (r: String)
        ensures
            r@ == "Main"@,
    {
        "Main".to_owned()
    }
}

impl Reflect for Return {
    fn name_init() -> (r: String)
        ensures
            r@ == "Return"@,
    {
        "Return".to_owned()
    }
}

impl Reflect for DefaultInstancer {
    fn name_init() -> (r: String)
        ensures
            r@ == "DefaultInstancer"@,
    {
        "DefaultInstancer".to_owned()
    }
}

impl Reflect for DefaultInstance {
    fn name_init() -> (r: String)
        ensures
            r@ == "default"@,
    {
        "default".to_owned()
    }
}

impl ServiceId {
    pub fn new(service: String, variant: String) -> (r: Self)
        ensures
            r@ == (IdView { service: service@, variant: variant@ }),
    {
        ServiceId { service, variant }
    }

    /// The main variant of `service`.
    pub fn named(service: &str) -> (r: Self)
        ensures
            r@ == (IdView { service: service@, variant: "Main"@ }),
    {
        ServiceId { service: service.to_owned(), variant: Main::name_init() }
    }
}

/// The cache that `name` stands for: none for the name of [`Return`], else
/// the cache of that name.
pub fn cache_name_to_opt(name: &str) -> (r: Option<String>)
    ensures
        r.deep_view() == (if name@ == "Return"@ {
            None
        } else {
            Some(name@)
        }),
{
    let owned = name.to_owned();
    if owned == Return::name_init() {
        None
    } else {
        Some(owned)
    }
}

} // verus!
