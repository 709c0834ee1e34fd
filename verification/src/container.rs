//! The container: a chain of layers and the resolution of services against it.
use crate::assoc::Share;
use crate::cache::NamedCache;
use crate::error::{Cause, Error, ErrorView, InstanceCreationError, InstancerNotFoundError};
use crate::evolution::{lemma_construct_evolves, lemma_instantiate_evolves};
use crate::handle::{handle_view, HandleView, InstanceHandle};
use crate::layer::{Binding, Layer, Lifecycle, Resolve};
use crate::model::{
    agrees, lemma_agrees_prefix, lemma_outcomes_agree, outcomes, BindingView, ChainView, Event,
    LayerView, Outcome, Step, SERIAL_LIMIT,
};
use crate::names::ServiceId;
use crate::redirect::RedirectRules;
use crate::request::{
    Decision, InstantiationRequest, InstantiationResponse, ResolutionRoot, ResponseView,
};
use vstd::prelude::*;

verus! {

/// What an answer denotes.
pub open spec fn answer_view(answer: Result<InstantiationResponse, Error>) -> Result<
    ResponseView,
    ErrorView,
> {
    match answer {
        Ok(response) => Ok(response@),
        Err(error) => Err(error@),
    }
}

/// What the result of resolving several services denotes.
pub open spec fn handles_view(result: Result<Vec<InstanceHandle>, Error>) -> Result<
    Seq<HandleView>,
    ErrorView,
> {
    match result {
        Ok(handles) => Ok(handles.deep_view()),
        Err(error) => Err(error@),
    }
}

/// A chain of layers. A layer added later is asked earlier.
pub struct Container<F> {
    layers: Vec<Layer<F>>,
    issued: u64,
    journal: Ghost<Seq<Event>>,
}

impl<F> View for Container<F> {
    type V = ChainView;

    closed spec fn view(&self) -> ChainView {
        ChainView {
            layers: self.layers.deep_view(),
            issued: self.issued as nat,
            journal: self.journal@,
        }
    }
}

impl ChainView {
    /// The chain with no layer: it knows no service.
    pub open spec fn root() -> ChainView {
        ChainView { layers: Seq::empty(), issued: 0, journal: Seq::empty() }
    }

    /// The chain with `layer` as its new head.
    pub open spec fn wrapped(self, layer: LayerView) -> ChainView {
        ChainView { layers: self.layers.push(layer), ..self }
    }
}

impl<F> Container<F> {
    /// The container that knows no service.
    pub fn new() -> (r: Self)
        ensures
            r@ == ChainView::root(),
            r@.wf(),
    {
        let r = Container { layers: Vec::new(), issued: 0, journal: Ghost(Seq::empty()) };
        assert(r@.layers =~= Seq::empty());
        r
    }

    /// The container that knows no service and numbers its constructions
    /// from `first` on.
    pub fn numbering_from(first: u64) -> (r: Self)
        ensures
            r@ == (ChainView { issued: first as nat, ..ChainView::root() }),
            r@.wf(),
    {
        let r = Container { layers: Vec::new(), issued: first, journal: Ghost(Seq::empty()) };
        assert(r@.layers =~= Seq::empty());
        r
    }

    /// The number of layers.
    pub fn len(&self) -> (r: usize)
        ensures
            r == self@.layers.len(),
    {
        self.layers.len()
    }

    /// The layer at `index`, counted from the oldest.
    pub fn layer(&self, index: usize) -> (r: Option<&Layer<F>>)
        ensures
            r.is_some() == (index < self@.layers.len()),
            r matches Some(layer) ==> layer@ == self@.layers[index as int],
    {
        if index < self.layers.len() {
            Some(&self.layers[index])
        } else {
            None
        }
    }

    /// The number of constructions started so far.
    pub fn issued(&self) -> (r: u64)
        ensures
            r == self@.issued,
    {
        self.issued
    }

    /// The container with `layer` as its new head, asked before all others.
    pub fn map(self, layer: Layer<F>) -> (r: Self)
        ensures
            r@ == self@.wrapped(layer@),
    {
        let mut container = self;
        let ghost before = container@;
        container.layers.push(layer);
        assert(container@.layers =~= before.layers.push(layer@));
        container
    }

    /// The container with `binding` as its new head.
    pub fn with_binding(self, binding: Binding<F>) -> (r: Self)
        ensures
            r@ == self@.wrapped(LayerView::Binding(BindingView { memo: None, ..binding@ })),
            self@.wf() ==> r@.wf(),
    {
        proof {
            if self@.wf() {
                crate::invariants::lemma_wrapped_wf(
                    self@,
                    LayerView::Binding(BindingView { memo: None, ..binding@ }),
                );
            }
        }
        self.map(binding.into_layer())
    }

    /// The container with `factory` bound to `service`: the first instance
    /// is kept and returned ever after.
    pub fn with_singleton(self, service: ServiceId, factory: F) -> (r: Self)
        ensures
            r@ == self@.wrapped(
                LayerView::Binding(
                    BindingView {
                        service: service@,
                        singleton: true,
                        produces: Seq::empty(),
                        dependencies: Seq::empty(),
                        destined: None,
                        memo: None,
                    },
                ),
            ),
    {
        self.with_binding(Binding::new(service, Lifecycle::Singleton, factory))
    }

    /// The container with `factory` bound to `service`: every request gets
    /// a new instance.
    pub fn with_transient(self, service: ServiceId, factory: F) -> (r: Self)
        ensures
            r@ == self@.wrapped(
                LayerView::Binding(
                    BindingView {
                        service: service@,
                        singleton: false,
                        produces: Seq::empty(),
                        dependencies: Seq::empty(),
                        destined: None,
                        memo: None,
                    },
                ),
            ),
    {
        self.with_binding(Binding::new(service, Lifecycle::Transient, factory))
    }

    /// The container with an empty cache named `name` as its new head.
    pub fn with_cache(self, name: String) -> (r: Self)
        ensures
            r@ == self@.wrapped(
                LayerView::NamedCache(crate::cache::CacheView { name: name@, store: Map::empty() }),
            ),
            self@.wf() ==> r@.wf(),
    {
        proof {
            if self@.wf() {
                crate::invariants::lemma_wrapped_wf(
                    self@,
                    LayerView::NamedCache(
                        crate::cache::CacheView { name: name@, store: Map::empty() },
                    ),
                );
            }
        }
        self.map(Layer::NamedCache(NamedCache::new(name)))
    }

    /// The container with `rules` as its new head.
    pub fn with_redirects(self, rules: RedirectRules) -> (r: Self)
        ensures
            r@ == self@.wrapped(LayerView::RedirectMap(rules@)),
            self@.wf() ==> r@.wf(),
    {
        proof {
            if self@.wf() {
                crate::invariants::lemma_wrapped_wf(self@, LayerView::RedirectMap(rules@));
            }
        }
        self.map(Layer::RedirectMap(rules))
    }
}

/// The container that knows no service.
pub fn container<F>() -> (r: Container<F>)
    ensures
        r@ == ChainView::root(),
{
    Container::new()
}

impl<F: Resolve> Container<F> {
    /// Resolves `service`: asks the head of the chain for it, with no
    /// construction under way.
    pub fn resolve(&mut self, service: &ServiceId) -> (result: Result<InstanceHandle, Error>)
        ensures
            old(self)@.resolves(service@, Seq::empty(), final(self)@, handle_view(result)),
            old(self)@.evolves_to(final(self)@),
            old(self)@.wf() ==> final(self)@.wf(),
    {
        let ghost before = self@;
        let top = ResolutionRoot::new();
        let result = self.resolve_behind(service, &top);
        proof {
            if before.wf() {
                lemma_outcomes_agree(self@.journal);
                crate::invariants::lemma_resolve_wf(
                    before,
                    service@,
                    Seq::empty(),
                    outcomes(self@.journal),
                );
            }
        }
        result
    }

    /// Resolves `service` and checks that the instance was registered under
    /// the type `expected`.
    pub fn resolve_typed(&mut self, service: &ServiceId, expected: &String) -> (result: Result<
        InstanceHandle,
        Error,
    >)
        ensures
            old(self)@.resolves_typed(service@, expected@, final(self)@, handle_view(result)),
            old(self)@.evolves_to(final(self)@),
            old(self)@.wf() ==> final(self)@.wf(),
    {
        let ghost before = self@;
        let found = self.resolve(service);
        let result = match found {
            Ok(handle) => handle.expect_type(service, expected),
            Err(error) => Err(error),
        };
        proof {
            assert forall|tape: Seq<Outcome>| agrees(self@.journal, tape) implies #[trigger] before.resolve_typed(
                service@,
                expected@,
                tape,
            ) == (Step { chain: self@, result: handle_view(result) }) by {
                assert(before.resolve(service@, Seq::empty(), tape) == (Step {
                    chain: self@,
                    result: handle_view(found),
                }));
            }
        }
        result
    }

    /// Resolves `service` where it need not be bound: that no layer claims
    /// it is no failure, and yields no instance.
    pub fn resolve_optional(&mut self, service: &ServiceId) -> (result: Result<
        Option<InstanceHandle>,
        Error,
    >)
        ensures
            old(self)@.resolves_optional(
                service@,
                final(self)@,
                crate::handle::optional_view(result),
            ),
            old(self)@.evolves_to(final(self)@),
            old(self)@.wf() ==> final(self)@.wf(),
    {
        let ghost before = self@;
        let found = self.resolve(service);
        let result = match found {
            Ok(handle) => Ok(Some(handle)),
            Err(error) => if error.is_not_found() {
                Ok(None)
            } else {
                Err(error)
            },
        };
        proof {
            assert forall|tape: Seq<Outcome>| agrees(self@.journal, tape) implies self@ == (#[trigger] before.resolve(
                service@,
                Seq::empty(),
                tape,
            )).chain && crate::handle::optional_view(result) == crate::handle::optional(
                before.resolve(service@, Seq::empty(), tape).result,
            ) by {
                assert(before.resolve(service@, Seq::empty(), tape) == (Step {
                    chain: self@,
                    result: handle_view(found),
                }));
            }
        }
        result
    }

    /// Resolves `service` and checks that the instance is a `T`.
    pub fn resolve_as<T: Send + Sync + 'static>(&mut self, service: &ServiceId) -> (result:
        Result<InstanceHandle, Error>)
        ensures
            old(self)@.resolves_checked(service@, final(self)@, handle_view(result)),
            old(self)@.evolves_to(final(self)@),
            old(self)@.wf() ==> final(self)@.wf(),
    {
        let ghost before = self@;
        let found = self.resolve(service);
        let result = match found {
            Ok(handle) => handle.downcast::<T>(service),
            Err(error) => Err(error),
        };
        proof {
            assert forall|tape: Seq<Outcome>| agrees(self@.journal, tape) implies self@ == (#[trigger] before.resolve(
                service@,
                Seq::empty(),
                tape,
            )).chain && crate::handle::admits(
                service@,
                before.resolve(service@, Seq::empty(), tape).result,
                handle_view(result),
            ) by {
                assert(before.resolve(service@, Seq::empty(), tape) == (Step {
                    chain: self@,
                    result: handle_view(found),
                }));
            }
        }
        result
    }

    /// What the layers below `depth` answer to `request`.
    pub fn instantiate(&mut self, depth: usize, request: InstantiationRequest) -> (answer: Result<
        InstantiationResponse,
        Error,
    >)
        requires
            depth <= old(self)@.layers.len(),
            request.wf(),
            request@.top.len() <= old(self)@.issued,
        ensures
            old(self)@.answers(depth as nat, request@, final(self)@, answer_view(answer)),
            old(self)@.evolves_to(final(self)@),
        decreases old(self)@.remaining(), 0nat, depth,
    {
        let ghost before = self@;
        let ghost asked = request@;
        if depth == 0 {
            proof {
                crate::evolution::lemma_evolves_refl(before);
            }
            return Err(Error::ServiceNotFound(InstancerNotFoundError::new(request.service)));
        }
        let index = depth - 1;
        let ghost layer = before.layers[index as int];
        assert(layer == self.layers[index as int]@);
        let decision = self.layers[index].decide(request);
        let answer = match decision {
            Decision::Forward(next) => {
                let inner = self.instantiate(index, next);
                proof {
                    assert forall|tape: Seq<Outcome>| agrees(self@.journal, tape) implies #[trigger] before.instantiate(
                        depth as nat,
                        asked,
                        tape,
                    ) == (Step { chain: self@, result: answer_view(inner) }) by {
                        assert(before.instantiate(index as nat, next@, tape) == (Step {
                            chain: self@,
                            result: answer_view(inner),
                        }));
                    }
                }
                inner
            },
            Decision::Redirect(next) => {
                let inner = self.instantiate(index, next);
                let ghost after = self@;
                assert(after.layers[index as int] == self.layers[index as int]@);
                let answer = match inner {
                    Ok(response) => Ok(self.layers[index].send_back(response)),
                    Err(error) => Err(error),
                };
                proof {
                    assert forall|tape: Seq<Outcome>| agrees(self@.journal, tape) implies #[trigger] before.instantiate(
                        depth as nat,
                        asked,
                        tape,
                    ) == (Step { chain: self@, result: answer_view(answer) }) by {
                        assert(before.instantiate(index as nat, next@, tape) == (Step {
                            chain: self@,
                            result: answer_view(inner),
                        }));
                    }
                }
                answer
            },
            Decision::Attend(next) => {
                let key = next.service.share();
                let inner = self.instantiate(index, next);
                let ghost middle = self@;
                assert(middle.layers[index as int] == self.layers[index as int]@);
                let answer = match inner {
                    Ok(response) => {
                        let kept = self.layers[index].absorb(key, response);
                        proof {
                            assert(self@.layers =~= middle.layers.update(
                                index as int,
                                middle.layers[index as int].absorbed(asked.service, response@),
                            ));
                            assert(self@ == middle.with_layer(
                                index as int,
                                middle.layers[index as int].absorbed(asked.service, response@),
                            ));
                        }
                        Ok(kept)
                    },
                    Err(error) => Err(error),
                };
                proof {
                    assert forall|tape: Seq<Outcome>| agrees(self@.journal, tape) implies #[trigger] before.instantiate(
                        depth as nat,
                        asked,
                        tape,
                    ) == (Step { chain: self@, result: answer_view(answer) }) by {
                        assert(agrees(middle.journal, tape));
                        assert(before.instantiate(index as nat, next@, tape) == (Step {
                            chain: middle,
                            result: answer_view(inner),
                        }));
                    }
                }
                answer
            },
            Decision::Answer(response) => {
                proof {
                    assert forall|tape: Seq<Outcome>| agrees(self@.journal, tape) implies #[trigger] before.instantiate(
                        depth as nat,
                        asked,
                        tape,
                    ) == (Step { chain: self@, result: Ok(response@) }) by {}
                }
                Ok(response)
            },
            Decision::Construct(top) => {
                let inner = self.construct(index, top);
                proof {
                    assert forall|tape: Seq<Outcome>| agrees(self@.journal, tape) implies #[trigger] before.instantiate(
                        depth as nat,
                        asked,
                        tape,
                    ) == (Step { chain: self@, result: answer_view(inner) }) by {
                        assert(before.construct(
                            index as nat,
                            layer->Binding_0,
                            top@,
                            tape,
                        ) == (Step { chain: self@, result: answer_view(inner) }));
                    }
                }
                inner
            },
        };
        proof {
            lemma_outcomes_agree(self@.journal);
            lemma_instantiate_evolves(before, depth as nat, asked, outcomes(self@.journal));
        }
        answer
    }

    /// Has the binding at `index` construct its instance for a request that
    /// came in behind `top`.
    pub fn construct(&mut self, index: usize, top: ResolutionRoot) -> (answer: Result<
        InstantiationResponse,
        Error,
    >)
        requires
            index < old(self)@.layers.len(),
            old(self)@.layers[index as int] is Binding,
            top@.len() <= old(self)@.issued,
        ensures
            old(self)@.constructs(index as nat, top@, final(self)@, answer_view(answer)),
            old(self)@.evolves_to(final(self)@),
        decreases old(self)@.remaining(), 0nat, 0nat,
    {
        let ghost before = self@;
        let ghost binding = before.layers[index as int]->Binding_0;
        let (service, dependencies) = self.layers[index].recipe();
        if self.issued >= SERIAL_LIMIT {
            proof {
                crate::evolution::lemma_evolves_refl(before);
            }
            return Err(
                Error::CreationError(InstanceCreationError::new(service, Cause::Exhausted)),
            );
        }
        let serial: u64 = self.issued;
        self.issued = self.issued + 1;
        let ghost started = self@;
        assert(started == (ChainView { issued: before.issued + 1, ..before }));
        let guarded = top.guarded_by(service.share());
        let resolved = self.resolve_all(&dependencies, &guarded);
        let ghost ready = self@;
        assert(ready.layers[index as int] == self.layers[index as int]@);
        proof {
            crate::evolution::lemma_evolves_trans(before, started, ready);
            assert(before.layers[index as int].evolves_to(ready.layers[index as int]));
            assert forall|tape: Seq<Outcome>| agrees(ready.journal, tape) implies #[trigger] started.resolve_all(
                binding.dependencies,
                top@.push(binding.service),
                tape,
            ) == (Step { chain: ready, result: handles_view(resolved) }) by {}
        }
        let ghost current = ready.layers[index as int]->Binding_0;
        let answer = match resolved {
            Err(error) => {
                let answer = Err(
                    Error::CreationError(
                        InstanceCreationError::new(service, Cause::Dependency(Box::new(error))),
                    ),
                );
                proof {
                    assert forall|tape: Seq<Outcome>| agrees(self@.journal, tape) implies #[trigger] before.construct(
                        index as nat,
                        binding,
                        top@,
                        tape,
                    ) == (Step { chain: self@, result: answer_view(answer) }) by {
                        assert(started.resolve_all(
                            binding.dependencies,
                            top@.push(binding.service),
                            tape,
                        ) == (Step { chain: ready, result: handles_view(resolved) }));
                    }
                }
                answer
            },
            Ok(handles) => {
                match self.layers[index].recall() {
                    Some(response) => {
                        proof {
                            assert forall|tape: Seq<Outcome>| agrees(self@.journal, tape) implies #[trigger] before.construct(
                                index as nat,
                                binding,
                                top@,
                                tape,
                            ) == (Step { chain: self@, result: Ok(response@) }) by {
                                assert(started.resolve_all(
                                    binding.dependencies,
                                    top@.push(binding.service),
                                    tape,
                                ) == (Step { chain: ready, result: handles_view(resolved) }));
                            }
                        }
                        Ok(response)
                    },
                    None => {
                        let ghost handed = handles.deep_view();
                        let outcome = self.layers[index].run(handles);
                        match outcome {
                            Err(message) => {
                                proof {
                                    self.journal@ = self.journal@.push(
                                        Event {
                                            binding: index as nat,
                                            dependencies: handed,
                                            outcome: Err(message@),
                                        },
                                    );
                                }
                                let answer = Err(
                                    Error::CreationError(
                                        InstanceCreationError::new(
                                            service,
                                            Cause::Factory(message),
                                        ),
                                    ),
                                );
                                proof {
                                    assert forall|tape: Seq<Outcome>| agrees(self@.journal, tape) implies #[trigger] before.construct(
                                        index as nat,
                                        binding,
                                        top@,
                                        tape,
                                    ) == (Step { chain: self@, result: answer_view(answer) }) by {
                                        lemma_agrees_prefix(ready.journal, self@.journal, tape);
                                        assert(started.resolve_all(
                                            binding.dependencies,
                                            top@.push(binding.service),
                                            tape,
                                        ) == (Step { chain: ready, result: handles_view(resolved) }));
                                        assert(tape[ready.journal.len() as int]
                                            == self@.journal[ready.journal.len() as int].outcome);
                                    }
                                }
                                answer
                            },
                            Ok(instance) => {
                                proof {
                                    self.journal@ = self.journal@.push(
                                        Event {
                                            binding: index as nat,
                                            dependencies: handed,
                                            outcome: Ok(instance),
                                        },
                                    );
                                }
                                let ghost ran = self@;
                                assert(ran.layers[index as int] == self.layers[index as int]@);
                                let response = self.layers[index].deliver(serial, instance);
                                proof {
                                    assert(self@.layers =~= ran.layers.update(
                                        index as int,
                                        self@.layers[index as int],
                                    ));
                                    if current.singleton {
                                        assert(self@ == ran.remember(index as int, response@.handle));
                                    } else {
                                        assert(self@.layers =~= ran.layers);
                                        assert(self@ == ran);
                                    }
                                    assert forall|tape: Seq<Outcome>| agrees(self@.journal, tape) implies #[trigger] before.construct(
                                        index as nat,
                                        binding,
                                        top@,
                                        tape,
                                    ) == (Step { chain: self@, result: Ok(response@) }) by {
                                        lemma_agrees_prefix(ready.journal, self@.journal, tape);
                                        assert(started.resolve_all(
                                            binding.dependencies,
                                            top@.push(binding.service),
                                            tape,
                                        ) == (Step { chain: ready, result: handles_view(resolved) }));
                                        assert(tape[ready.journal.len() as int]
                                            == self@.journal[ready.journal.len() as int].outcome);
                                    }
                                }
                                Ok(response)
                            },
                        }
                    },
                }
            },
        };
        proof {
            lemma_outcomes_agree(self@.journal);
            lemma_construct_evolves(before, index as nat, binding, top@, outcomes(self@.journal));
        }
        answer
    }

    /// Resolves `service` behind the guards of `top`.
    pub fn resolve_behind(&mut self, service: &ServiceId, top: &ResolutionRoot) -> (result: Result<
        InstanceHandle,
        Error,
    >)
        requires
            top@.len() <= old(self)@.issued,
            top@.len() < u64::MAX,
        ensures
            old(self)@.resolves(service@, top@, final(self)@, handle_view(result)),
            old(self)@.evolves_to(final(self)@),
        decreases old(self)@.remaining(), 0nat, old(self)@.layers.len() + 1,
    {
        let ghost before = self@;
        let request = InstantiationRequest::new(top.share(), service.share());
        let depth = self.layers.len();
        let answer = self.instantiate(depth, request);
        let result = match answer {
            Ok(response) => Ok(response.instance),
            Err(error) => Err(error),
        };
        proof {
            assert forall|tape: Seq<Outcome>| agrees(self@.journal, tape) implies #[trigger] before.resolve(
                service@,
                top@,
                tape,
            ) == (Step { chain: self@, result: handle_view(result) }) by {
                assert(before.instantiate(depth as nat, request@, tape) == (Step {
                    chain: self@,
                    result: answer_view(answer),
                }));
            }
        }
        result
    }

    /// Resolves `services` one after the other behind the guards of `top`:
    /// the instances in the same order, or the first failure.
    pub fn resolve_all(&mut self, services: &Vec<ServiceId>, top: &ResolutionRoot) -> (result:
        Result<Vec<InstanceHandle>, Error>)
        requires
            top@.len() <= old(self)@.issued,
            top@.len() < u64::MAX,
        ensures
            old(self)@.resolves_all(
                services.deep_view(),
                top@,
                final(self)@,
                handles_view(result),
            ),
            old(self)@.evolves_to(final(self)@),
        decreases old(self)@.remaining(), 1nat, services.len(),
    {
        let ghost before = self@;
        let ghost wanted = services.deep_view();
        let mut handles: Vec<InstanceHandle> = Vec::new();
        let mut i: usize = 0;
        proof {
            crate::evolution::lemma_evolves_refl(before);
            assert(wanted.skip(0) =~= wanted);
            assert(handles.deep_view() =~= Seq::empty());
        }
        while i < services.len()
            invariant
                i <= services.len(),
                wanted == services.deep_view(),
                before.evolves_to(self@),
                top@.len() <= self@.issued,
                top@.len() < u64::MAX,
                before == old(self)@,
                forall|tape: Seq<Outcome>|
                    agrees(self@.journal, tape) ==> #[trigger] before.resolve_all(
                        wanted,
                        top@,
                        tape,
                    ) == prepend(handles.deep_view(), self@.resolve_all(
                        wanted.skip(i as int),
                        top@,
                        tape,
                    )),
            decreases services.len() - i,
        {
            let ghost middle = self@;
            let ghost got = handles.deep_view();
            let result = self.resolve_behind(&services[i], top);
            proof {
                crate::evolution::lemma_evolves_trans(before, middle, self@);
            }
            match result {
                Err(error) => {
                    proof {
                        assert forall|tape: Seq<Outcome>| agrees(self@.journal, tape) implies #[trigger] before.resolve_all(
                            wanted,
                            top@,
                            tape,
                        ) == (Step::<Seq<HandleView>> { chain: self@, result: Err(error@) }) by {
                            assert(agrees(middle.journal, tape));
                            assert(wanted.skip(i as int)[0] == services[i as int]@);
                            assert(middle.resolve(services[i as int]@, top@, tape) == (Step {
                                chain: self@,
                                result: handle_view(result),
                            }));
                        }
                    }
                    return Err(error);
                },
                Ok(handle) => {
                    handles.push(handle);
                    proof {
                        assert(handles.deep_view() =~= got.push(handle@));
                        assert forall|tape: Seq<Outcome>| agrees(self@.journal, tape) implies #[trigger] before.resolve_all(
                            wanted,
                            top@,
                            tape,
                        ) == prepend(handles.deep_view(), self@.resolve_all(
                            wanted.skip(i as int + 1),
                            top@,
                            tape,
                        )) by {
                            assert(agrees(middle.journal, tape));
                            assert(wanted.skip(i as int)[0] == services[i as int]@);
                            assert(wanted.skip(i as int).skip(1) =~= wanted.skip(i as int + 1));
                            assert(middle.resolve(services[i as int]@, top@, tape) == (Step {
                                chain: self@,
                                result: handle_view(result),
                            }));
                            let rest = self@.resolve_all(wanted.skip(i as int + 1), top@, tape);
                            match rest.result {
                                Ok(more) => {
                                    assert(got + (seq![handle@] + more) =~= got.push(handle@)
                                        + more);
                                },
                                Err(_) => {},
                            }
                        }
                    }
                },
            }
            i = i + 1;
        }
        proof {
            assert(wanted.skip(i as int) =~= Seq::empty());
            assert forall|tape: Seq<Outcome>| agrees(self@.journal, tape) implies #[trigger] before.resolve_all(
                wanted,
                top@,
                tape,
            ) == (Step::<Seq<HandleView>> { chain: self@, result: Ok(handles.deep_view()) }) by {
                assert(handles.deep_view() + Seq::<HandleView>::empty() =~= handles.deep_view());
            }
        }
        Ok(handles)
    }
}

/// The step `rest` with `first` put before what it yielded.
pub open spec fn prepend(first: Seq<HandleView>, rest: Step<Seq<HandleView>>) -> Step<
    Seq<HandleView>,
> {
    Step {
        chain: rest.chain,
        result: match rest.result {
            Ok(handles) => Ok(first + handles),
            Err(error) => Err(error),
        },
    }
}

} // verus!
