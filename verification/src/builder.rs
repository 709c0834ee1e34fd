//! Fluent registration: a builder around a container, and a builder for the
//! variants of one service.
use crate::container::Container;
use crate::layer::{Binding, Lifecycle};
use crate::model::{BindingView, ChainView, LayerView};
use crate::names::{DefaultInstancer, IdView, Reflect, ServiceId};
use vstd::prelude::*;

verus! {

/// Holds a container while it is put together.
pub struct Builder<C> {
    pub cont: C,
}

/// Holds a container while the variants of the service `name` are bound.
pub struct RepositoryBuilder<C> {
    pub cont: C,
    pub name: String,
}

impl<C> Builder<C> {
    pub fn new(cont: C) -> (r: Self)
        ensures
            r.cont == cont,
    {
        Builder { cont }
    }

    /// Goes on with the variants of the service `name`.
    pub fn repository_builder(self, name: &str) -> (r: RepositoryBuilder<C>)
        ensures
            r.cont == self.cont,
            r.name@ == name@,
    {
        RepositoryBuilder { cont: self.cont, name: name.to_owned() }
    }

    /// The container as it was put together.
    pub fn build(self) -> (r: C)
        ensures
            r == self.cont,
    {
        self.cont
    }
}

impl<F> Builder<Container<F>> {
    /// Starts from the container that knows no service.
    pub fn root() -> (r: Self)
        ensures
            r.cont@ == ChainView::root(),
    {
        Builder { cont: Container::new() }
    }
}

impl<C> RepositoryBuilder<C> {
    /// Leaves the service.
    pub fn exit(self) -> (r: Builder<C>)
        ensures
            r.cont == self.cont,
    {
        Builder { cont: self.cont }
    }
}

/// The binding that registering `variant` of `service` puts at the head.
pub open spec fn registered(service: Seq<char>, variant: Seq<char>, life: Lifecycle) -> LayerView {
    LayerView::Binding(
        BindingView {
            service: IdView { service, variant },
            singleton: life is Singleton,
            produces: Seq::empty(),
            dependencies: Seq::empty(),
            destined: None,
            memo: None,
        },
    )
}

impl<F> RepositoryBuilder<Container<F>> {
    /// Binds `factory` to the variant `name` of the service.
    pub fn set_instancer_fn(self, name: &str, factory: F, life: Lifecycle) -> (r: Self)
        ensures
            r.name == self.name,
            r.cont@ == self.cont@.wrapped(registered(self.name@, name@, life)),
    {
        let RepositoryBuilder { cont, name: service } = self;
        let id = ServiceId::new(service.clone(), name.to_owned());
        RepositoryBuilder {
            cont: cont.with_binding(Binding::new(id, life, factory)),
            name: service,
        }
    }

    /// Binds `factory` to the variant of the service that is meant when none
    /// is named.
    pub fn default(self, factory: F, life: Lifecycle) -> (r: Self)
        ensures
            r.name == self.name,
            r.cont@ == self.cont@.wrapped(registered(self.name@, "DefaultInstancer"@, life)),
    {
        let name = DefaultInstancer::name_init();
        self.set_instancer_fn(name.as_str(), factory, life)
    }

    /// Binds `factory` to the variant of the service that is meant when none
    /// is named, as the maker of the one object that every request gets.
    pub fn default_object(self, factory: F) -> (r: Self)
        ensures
            r.name == self.name,
            r.cont@ == self.cont@.wrapped(
                registered(self.name@, "DefaultInstancer"@, Lifecycle::Singleton),
            ),
    {
        self.default(factory, Lifecycle::Singleton)
    }
}

} // verus!
