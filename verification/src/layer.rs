//! The layers of a chain, and what each does with a request and with the
//! answer that comes back.
use crate::assoc::{Key, Share};
use crate::cache::NamedCache;
use crate::handle::{HandleView, Instance, InstanceHandle};
use crate::model::{BindingView, LayerView};
use crate::names::{IdView, ServiceId};
use crate::redirect::RedirectRules;
use crate::request::{Decision, InstantiationRequest, InstantiationResponse, ResponseView};
use vstd::prelude::*;

verus! {

/// How long an instance lives.
#[derive(Clone, Copy, Debug)]
pub enum Lifecycle {
    /// Constructed once, at the first request, and returned ever after.
    Singleton,
    /// Constructed anew for every request.
    Transient,
}

/// Constructs an instance from its resolved dependencies.
pub trait Resolve {
    /// The instance, or the reason why there is none.
    fn resolve(&self, dependencies: Vec<InstanceHandle>) -> Result<Instance, String>;
}

/// A factory bound to one service.
pub struct Binding<F> {
    service: ServiceId,
    lifecycle: Lifecycle,
    produces: String,
    dependencies: Vec<ServiceId>,
    factory: F,
    destined_cache: Option<String>,
    memo: Option<InstanceHandle>,
}

impl<F> View for Binding<F> {
    type V = BindingView;

    closed spec fn view(&self) -> BindingView {
        BindingView {
            service: self.service@,
            singleton: self.lifecycle is Singleton,
            produces: self.produces@,
            dependencies: self.dependencies.deep_view(),
            destined: self.destined_cache.deep_view(),
            memo: self.memo.deep_view(),
        }
    }
}

impl<F> Binding<F> {
    /// A binding of `factory` to `service` with no dependencies, an empty
    /// type tag and no cache.
    pub fn new(service: ServiceId, lifecycle: Lifecycle, factory: F) -> (r: Self)
        ensures
            r@ == (BindingView {
                service: service@,
                singleton: lifecycle is Singleton,
                produces: Seq::empty(),
                dependencies: Seq::empty(),
                destined: None,
                memo: None,
            }),
    {
        let r = Binding {
            service,
            lifecycle,
            produces: String::new(),
            dependencies: Vec::new(),
            factory,
            destined_cache: None,
            memo: None,
        };
        assert(r.dependencies.deep_view() =~= Seq::empty());
        r
    }

    /// The binding with `type_tag` as the tag of what it produces.
    pub fn producing(self, type_tag: String) -> (r: Self)
        ensures
            r@ == (BindingView { produces: type_tag@, ..self@ }),
    {
        let mut binding = self;
        binding.produces = type_tag;
        binding
    }

    /// The binding with `dependency` as its last dependency.
    pub fn depending_on(self, dependency: ServiceId) -> (r: Self)
        ensures
            r@ == (BindingView { dependencies: self@.dependencies.push(dependency@), ..self@ }),
    {
        let mut binding = self;
        let ghost before = binding.dependencies.deep_view();
        binding.dependencies.push(dependency);
        assert(binding.dependencies.deep_view() =~= before.push(dependency@));
        binding
    }

    /// The binding with its instances destined for `cache`.
    pub fn destined_for(self, cache: Option<String>) -> (r: Self)
        ensures
            r@ == (BindingView { destined: cache.deep_view(), ..self@ }),
    {
        let mut binding = self;
        binding.destined_cache = cache;
        binding
    }
}

impl<F> Binding<F> {
    /// The binding as a layer that keeps no instance yet.
    pub fn into_layer(self) -> (layer: Layer<F>)
        ensures
            layer@ == LayerView::Binding(BindingView { memo: None, ..self@ }),
    {
        let mut binding = self;
        binding.memo = None;
        Layer::Binding(binding)
    }
}

/// One layer of a chain.
pub enum Layer<F> {
    Binding(Binding<F>),
    NamedCache(NamedCache),
    RedirectMap(RedirectRules),
}

impl<F> View for Layer<F> {
    type V = LayerView;

    open spec fn view(&self) -> LayerView {
        match self {
            Layer::Binding(binding) => LayerView::Binding(binding@),
            Layer::NamedCache(cache) => LayerView::NamedCache(cache@),
            Layer::RedirectMap(rules) => LayerView::RedirectMap(rules@),
        }
    }
}

impl<F> DeepView for Layer<F> {
    type V = LayerView;

    open spec fn deep_view(&self) -> LayerView {
        self@
    }
}

impl<F> Binding<F> {
    /// What the binding does with `request`.
    pub fn decide(&self, request: InstantiationRequest) -> (decision: Decision)
        requires
            request.wf(),
        ensures
            decision.denotes(self@.decide(request@), request@.top),
    {
        if !self.service.same(&request.service) {
            return Decision::Forward(request);
        }
        let mut next = request;
        let ghost before = next;
        if next.decrement_shadow(&self.service) {
            proof {
                assert forall|id: IdView| id != next.service@ implies next.level(id) == 1 by {
                    assert(next.level(id) == before.level(id));
                }
            }
            return Decision::Forward(next);
        }
        match self.recall() {
            Some(response) => Decision::Answer(response),
            None => Decision::Construct(next.top),
        }
    }

    /// The answer of a singleton that keeps its instance.
    pub fn recall(&self) -> (r: Option<InstantiationResponse>)
        ensures
            r.is_some() == (self@.singleton && self@.memo is Some),
            r matches Some(response) ==> response@ == (ResponseView {
                handle: self@.memo->Some_0,
                destined: self@.destined,
            }),
    {
        match (self.lifecycle, &self.memo) {
            (Lifecycle::Singleton, Some(kept)) => Some(
                InstantiationResponse::new(kept.share(), self.destined_cache.share()),
            ),
            _ => None,
        }
    }

    /// Wraps what the factory produced as construction number `serial`; a
    /// singleton keeps it.
    pub fn deliver(&mut self, serial: u64, instance: Instance) -> (response: InstantiationResponse)
        ensures
            response@ == (ResponseView {
                handle: HandleView { serial: serial as nat, type_tag: old(self)@.produces, instance },
                destined: old(self)@.destined,
            }),
            final(self)@ == if old(self)@.singleton {
                BindingView { memo: Some(response@.handle), ..old(self)@ }
            } else {
                old(self)@
            },
    {
        let handle = InstanceHandle::new(serial, self.produces.clone(), instance);
        match self.lifecycle {
            Lifecycle::Singleton => {
                self.memo = Some(handle.share());
            },
            Lifecycle::Transient => {},
        }
        InstantiationResponse::new(handle, self.destined_cache.share())
    }

    /// The service and what the factory depends on.
    pub fn recipe(&self) -> (r: (ServiceId, Vec<ServiceId>))
        ensures
            r.0@ == self@.service,
            r.1.deep_view() == self@.dependencies,
    {
        let mut dependencies: Vec<ServiceId> = Vec::new();
        let mut i: usize = 0;
        while i < self.dependencies.len()
            invariant
                i <= self.dependencies.len(),
                dependencies.len() == i,
                forall|j: int| 0 <= j < i ==> dependencies[j]@ == self.dependencies[j]@,
            decreases self.dependencies.len() - i,
        {
            dependencies.push(self.dependencies[i].share());
            i = i + 1;
        }
        assert(dependencies.deep_view() =~= self.dependencies.deep_view());
        (self.service.share(), dependencies)
    }
}

impl<F> Binding<F> {
    /// The factory that is bound.
    pub closed spec fn factory(&self) -> F {
        self.factory
    }
}

impl<F: Resolve> Binding<F> {
    /// Runs the factory on `dependencies`: the result is what the factory
    /// yields when it is handed exactly these.
    pub fn run(&self, dependencies: Vec<InstanceHandle>) -> (r: Result<Instance, String>)
        ensures
            F::resolve.ensures((&self.factory(), dependencies), r),
    {
        self.factory.resolve(dependencies)
    }
}

impl<F> Layer<F> {
    /// What the layer does with `request`.
    pub fn decide(&self, request: InstantiationRequest) -> (decision: Decision)
        requires
            request.wf(),
        ensures
            decision.denotes(self@.decide(request@), request@.top),
    {
        match self {
            Layer::RedirectMap(rules) => rules.decide(request),
            Layer::NamedCache(cache) => cache.decide(request),
            Layer::Binding(binding) => binding.decide(request),
        }
    }

    /// The answer as a redirecting layer hands it back.
    pub fn send_back(&self, response: InstantiationResponse) -> (r: InstantiationResponse)
        ensures
            r@ == self@.send_back(response@),
    {
        match self {
            Layer::RedirectMap(rules) => rules.rewrite_response(response),
            _ => response,
        }
    }

    /// Keeps the instance of `response` for `key` if the layer is the cache
    /// that the response is destined for, and then clears the destination.
    pub fn absorb(&mut self, key: ServiceId, response: InstantiationResponse) -> (r:
        InstantiationResponse)
        ensures
            r@ == if old(self)@.takes(response@) {
                ResponseView { destined: None, ..response@ }
            } else {
                response@
            },
            final(self)@ == old(self)@.absorbed(key@, response@),
    {
        match self {
            Layer::NamedCache(cache) => cache.absorb(key, response),
            _ => response,
        }
    }

    /// The service of a binding and what it depends on.
    pub fn recipe(&self) -> (r: (ServiceId, Vec<ServiceId>))
        requires
            self@ is Binding,
        ensures
            r.0@ == self@->Binding_0.service,
            r.1.deep_view() == self@->Binding_0.dependencies,
    {
        match self {
            Layer::Binding(binding) => binding.recipe(),
            _ => unreached(),
        }
    }

    /// The answer of a singleton that keeps its instance.
    pub fn recall(&self) -> (r: Option<InstantiationResponse>)
        ensures
            match self@ {
                LayerView::Binding(binding) => if binding.singleton && binding.memo is Some {
                    r matches Some(response) && response@ == (ResponseView {
                        handle: binding.memo->Some_0,
                        destined: binding.destined,
                    })
                } else {
                    r is None
                },
                _ => r is None,
            },
    {
        match self {
            Layer::Binding(binding) => binding.recall(),
            _ => None,
        }
    }

    /// Wraps what the factory of a binding produced as construction number
    /// `serial`; a singleton keeps it.
    pub fn deliver(&mut self, serial: u64, instance: Instance) -> (response: InstantiationResponse)
        requires
            old(self)@ is Binding,
        ensures
            response@ == (ResponseView {
                handle: HandleView {
                    serial: serial as nat,
                    type_tag: old(self)@->Binding_0.produces,
                    instance,
                },
                destined: old(self)@->Binding_0.destined,
            }),
            final(self)@ == if old(self)@->Binding_0.singleton {
                LayerView::Binding(
                    BindingView { memo: Some(response@.handle), ..old(self)@->Binding_0 },
                )
            } else {
                old(self)@
            },
    {
        match self {
            Layer::Binding(binding) => binding.deliver(serial, instance),
            _ => unreached(),
        }
    }
}

impl<F: Resolve> Layer<F> {
    /// Runs the factory of a binding on `dependencies`: the result is what
    /// that factory yields when it is handed exactly these.
    pub fn run(&self, dependencies: Vec<InstanceHandle>) -> (r: Result<Instance, String>)
        requires
            self@ is Binding,
        ensures
            self matches Layer::Binding(binding) && F::resolve.ensures(
                (&binding.factory(), dependencies),
                r,
            ),
    {
        match self {
            Layer::Binding(binding) => binding.run(dependencies),
            _ => unreached(),
        }
    }
}

} // verus!
