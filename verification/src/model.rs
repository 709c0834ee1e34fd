//! The resolution pipeline as mathematics: what a chain is, and what
//! resolving a service against it yields.
//!
//! What a factory returns is not known to the chain. The functions here take
//! a tape: the outcomes of the factory runs, in the order in which the runs
//! are made. The journal of a chain holds the runs made so far; a run reads
//! the tape at the length of the journal.
use crate::cache::CacheView;
use crate::error::{CauseView, ErrorView};
use crate::handle::{admits, optional, typed, HandleView, Instance};
use crate::names::IdView;
use crate::redirect::RulesView;
use crate::request::{RequestView, ResponseView};
use vstd::prelude::*;

verus! {

/// The number of constructions that a container can start in its lifetime.
pub const SERIAL_LIMIT: u64 = 0xffff_ffff_ffff_fffe;

/// What a factory run yields: the instance, or the factory's message.
pub type Outcome = Result<Instance, Seq<char>>;

/// A binding: a factory for one service, with its lifecycle.
pub struct BindingView {
    pub service: IdView,
    /// Whether the first instance is kept and returned ever after.
    pub singleton: bool,
    /// The tag of the type of the instances.
    pub produces: Seq<char>,
    /// What is resolved, in this order, and handed to the factory.
    pub dependencies: Seq<IdView>,
    /// The cache that may keep the instances.
    pub destined: Option<Seq<char>>,
    /// The instance kept by a singleton.
    pub memo: Option<HandleView>,
}

pub enum LayerView {
    Binding(BindingView),
    NamedCache(CacheView),
    RedirectMap(RulesView),
}

/// What a layer does with a request that reaches it.
pub enum DecisionView {
    /// Hands the request on; the answer of the layers below is the answer.
    Forward(RequestView),
    /// Hands the rewritten request on, and sends the answer to another cache.
    Redirect(RequestView),
    /// Hands the request on, and keeps the answer if it is destined here.
    Attend(RequestView),
    /// Answers by itself.
    Answer(ResponseView),
    /// Has the instance constructed by this binding.
    Construct(BindingView),
}

impl RulesView {
    /// What a redirecting layer does with `request`: it rewrites it, unless
    /// the service is under construction further up.
    pub open spec fn decide(self, request: RequestView) -> DecisionView {
        if request.shadow > 1 {
            DecisionView::Forward(request)
        } else {
            DecisionView::Redirect(request.redirected(self.target(request.service)))
        }
    }
}

impl CacheView {
    /// What a cache does with `request`: unless the service is under
    /// construction further up, it answers with what it keeps, or else
    /// attends to the answer if no cache of its name does so already.
    pub open spec fn decide(self, request: RequestView) -> DecisionView {
        if request.shadow > 1 {
            DecisionView::Forward(request)
        } else if self.store.contains_key(request.service) {
            DecisionView::Answer(
                ResponseView { handle: self.store[request.service], destined: None },
            )
        } else if request.interested.contains(self.name) {
            DecisionView::Forward(request)
        } else {
            DecisionView::Attend(request.with_interest(self.name))
        }
    }
}

impl BindingView {
    /// What a binding does with `request`: a request for another service
    /// passes; one for its own service passes one level less deep while the
    /// service is under construction further up, and else is answered with
    /// the instance that a singleton keeps, or by constructing one.
    pub open spec fn decide(self, request: RequestView) -> DecisionView {
        if request.service != self.service {
            DecisionView::Forward(request)
        } else if request.shadow > 1 {
            DecisionView::Forward(request.decremented())
        } else if self.singleton && self.memo is Some {
            DecisionView::Answer(
                ResponseView { handle: self.memo->Some_0, destined: self.destined },
            )
        } else {
            DecisionView::Construct(self)
        }
    }
}

impl LayerView {
    /// What the layer does with `request`.
    pub open spec fn decide(self, request: RequestView) -> DecisionView {
        match self {
            LayerView::RedirectMap(rules) => rules.decide(request),
            LayerView::NamedCache(cache) => cache.decide(request),
            LayerView::Binding(binding) => binding.decide(request),
        }
    }

    /// The answer as a redirecting layer hands it back.
    pub open spec fn send_back(self, response: ResponseView) -> ResponseView {
        match self {
            LayerView::RedirectMap(rules) => ResponseView {
                destined: rules.cache_target(response.destined),
                ..response
            },
            _ => response,
        }
    }

    /// The layer after `response` to a request for `key` has passed it on
    /// the way back: a cache keeps what is destined for it.
    pub open spec fn absorbed(self, key: IdView, response: ResponseView) -> LayerView {
        match self {
            LayerView::NamedCache(cache) => if response.destined == Some(cache.name) {
                LayerView::NamedCache(cache.kept(key, response.handle))
            } else {
                self
            },
            _ => self,
        }
    }

    /// Whether the layer is the cache that `response` is destined for.
    pub open spec fn takes(self, response: ResponseView) -> bool {
        match self {
            LayerView::NamedCache(cache) => response.destined == Some(cache.name),
            _ => false,
        }
    }
}

/// One run of a factory.
pub struct Event {
    /// The position in the chain of the binding whose factory ran.
    pub binding: nat,
    /// What was handed to the factory.
    pub dependencies: Seq<HandleView>,
    pub outcome: Outcome,
}

/// A chain of layers, the oldest first and the head last, with the number of
/// constructions started and the journal of the factory runs.
pub struct ChainView {
    pub layers: Seq<LayerView>,
    pub issued: nat,
    pub journal: Seq<Event>,
}

/// The chain after a step, and what the step yielded.
pub struct Step<T> {
    pub chain: ChainView,
    pub result: Result<T, ErrorView>,
}

/// Whether `tape` holds the outcomes of the runs in `journal`, in order.
pub open spec fn agrees(journal: Seq<Event>, tape: Seq<Outcome>) -> bool {
    &&& journal.len() <= tape.len()
    &&& forall|i: int| 0 <= i < journal.len() ==> tape[i] == (#[trigger] journal[i]).outcome
}

/// The outcomes of the runs in `journal`.
pub open spec fn outcomes(journal: Seq<Event>) -> Seq<Outcome> {
    journal.map_values(|event: Event| event.outcome)
}

impl ChainView {
    /// Whether this chain, asked `request` below `depth`, has become `after`
    /// and answered `answer`: whatever the factories yielded, it is what
    /// [`ChainView::instantiate`] makes of the outcomes that the journal of
    /// `after` records.
    pub open spec fn answers(
        self,
        depth: nat,
        request: RequestView,
        after: ChainView,
        answer: Result<ResponseView, ErrorView>,
    ) -> bool {
        forall|tape: Seq<Outcome>|
            agrees(after.journal, tape) ==> #[trigger] self.instantiate(depth, request, tape) == (
            Step { chain: after, result: answer })
    }

    /// Whether this chain has become `after` and answered `answer` when the
    /// binding at `index` constructed its instance behind `top`.
    pub open spec fn constructs(
        self,
        index: nat,
        top: Seq<IdView>,
        after: ChainView,
        answer: Result<ResponseView, ErrorView>,
    ) -> bool {
        forall|tape: Seq<Outcome>|
            agrees(after.journal, tape) ==> #[trigger] self.construct(
                index,
                self.layers[index as int]->Binding_0,
                top,
                tape,
            ) == (Step { chain: after, result: answer })
    }

    /// Whether this chain has become `after` and yielded `result` when
    /// `service` was resolved behind `top`.
    pub open spec fn resolves(
        self,
        service: IdView,
        top: Seq<IdView>,
        after: ChainView,
        result: Result<HandleView, ErrorView>,
    ) -> bool {
        forall|tape: Seq<Outcome>|
            agrees(after.journal, tape) ==> #[trigger] self.resolve(service, top, tape) == (Step {
                chain: after,
                result,
            })
    }

    /// What resolving `service` yields where an instance registered under
    /// the type `expected` is asked for.
    pub open spec fn resolve_typed(
        self,
        service: IdView,
        expected: Seq<char>,
        tape: Seq<Outcome>,
    ) -> Step<HandleView> {
        let found = self.resolve(service, Seq::empty(), tape);
        Step { chain: found.chain, result: typed(service, expected, found.result) }
    }

    /// Whether this chain has become `after` and yielded `result` when
    /// `service` was resolved and an instance registered under the type
    /// `expected` was asked for.
    pub open spec fn resolves_typed(
        self,
        service: IdView,
        expected: Seq<char>,
        after: ChainView,
        result: Result<HandleView, ErrorView>,
    ) -> bool {
        forall|tape: Seq<Outcome>|
            agrees(after.journal, tape) ==> #[trigger] self.resolve_typed(
                service,
                expected,
                tape,
            ) == (Step { chain: after, result })
    }

    /// Whether this chain has become `after` and yielded `result` when
    /// `service`, which need not be bound, was resolved.
    pub open spec fn resolves_optional(
        self,
        service: IdView,
        after: ChainView,
        result: Result<Option<HandleView>, ErrorView>,
    ) -> bool {
        forall|tape: Seq<Outcome>|
            agrees(after.journal, tape) ==> after == (#[trigger] self.resolve(
                service,
                Seq::empty(),
                tape,
            )).chain && result == optional(self.resolve(service, Seq::empty(), tape).result)
    }

    /// Whether this chain has become `after`, and `result` is what a check
    /// of the type of the instance may have made of the result, when
    /// `service` was resolved.
    pub open spec fn resolves_checked(
        self,
        service: IdView,
        after: ChainView,
        result: Result<HandleView, ErrorView>,
    ) -> bool {
        forall|tape: Seq<Outcome>|
            agrees(after.journal, tape) ==> after == (#[trigger] self.resolve(
                service,
                Seq::empty(),
                tape,
            )).chain && admits(service, self.resolve(service, Seq::empty(), tape).result, result)
    }

    /// Whether this chain has become `after` and yielded `result` when
    /// `services` were resolved behind `top`, one after the other.
    pub open spec fn resolves_all(
        self,
        services: Seq<IdView>,
        top: Seq<IdView>,
        after: ChainView,
        result: Result<Seq<HandleView>, ErrorView>,
    ) -> bool {
        forall|tape: Seq<Outcome>|
            agrees(after.journal, tape) ==> #[trigger] self.resolve_all(services, top, tape) == (
            Step { chain: after, result })
    }
}

/// A tape that holds the outcomes of a journal holds those of its beginning.
pub proof fn lemma_agrees_prefix(shorter: Seq<Event>, longer: Seq<Event>, tape: Seq<Outcome>)
    requires
        shorter.is_prefix_of(longer),
        agrees(longer, tape),
    ensures
        agrees(shorter, tape),
{
    assert forall|i: int| 0 <= i < shorter.len() implies tape[i] == (#[trigger] shorter[i]).outcome by {
        assert(shorter[i] == longer[i]);
    }
}

/// The outcomes of a journal are a tape that holds them.
pub proof fn lemma_outcomes_agree(journal: Seq<Event>)
    ensures
        agrees(journal, outcomes(journal)),
{
}

impl ChainView {
    /// The number of constructions that can still be started.
    pub open spec fn remaining(self) -> nat {
        if self.issued <= SERIAL_LIMIT {
            (SERIAL_LIMIT - self.issued) as nat
        } else {
            0
        }
    }

    /// The chain with another layer at `index`.
    pub open spec fn with_layer(self, index: int, layer: LayerView) -> ChainView {
        ChainView { layers: self.layers.update(index, layer), ..self }
    }

    /// The chain with `handle` kept by the binding at `index`.
    pub open spec fn remember(self, index: int, handle: HandleView) -> ChainView {
        match self.layers[index] {
            LayerView::Binding(binding) => self.with_layer(
                index,
                LayerView::Binding(BindingView { memo: Some(handle), ..binding }),
            ),
            _ => self,
        }
    }

    /// What the layers below `depth` answer to `request`.
    pub open spec fn instantiate(self, depth: nat, request: RequestView, tape: Seq<Outcome>) -> Step<
        ResponseView,
    >
        decreases self.remaining(), 0nat, depth,
    {
        if depth == 0 || depth > self.layers.len() {
            Step { chain: self, result: Err(ErrorView::ServiceNotFound(request.service)) }
        } else {
            let below = (depth - 1) as nat;
            let layer = self.layers[depth - 1];
            match layer.decide(request) {
                DecisionView::Forward(next) => self.instantiate(below, next, tape),
                DecisionView::Redirect(next) => {
                    let inner = self.instantiate(below, next, tape);
                    match inner.result {
                        Ok(response) => Step {
                            chain: inner.chain,
                            result: Ok(layer.send_back(response)),
                        },
                        Err(_) => inner,
                    }
                },
                DecisionView::Attend(next) => {
                    let inner = self.instantiate(below, next, tape);
                    match inner.result {
                        Ok(response) => {
                            let cache = inner.chain.layers[depth - 1];
                            Step {
                                chain: inner.chain.with_layer(
                                    depth - 1,
                                    cache.absorbed(request.service, response),
                                ),
                                result: Ok(
                                    if cache.takes(response) {
                                        ResponseView { destined: None, ..response }
                                    } else {
                                        response
                                    },
                                ),
                            }
                        },
                        Err(_) => inner,
                    }
                },
                DecisionView::Answer(response) => Step { chain: self, result: Ok(response) },
                DecisionView::Construct(binding) => self.construct(
                    below,
                    binding,
                    request.top,
                    tape,
                ),
            }
        }
    }

    /// What the binding at `index` yields when it constructs its instance for
    /// a request that came in behind `top`.
    pub open spec fn construct(
        self,
        index: nat,
        binding: BindingView,
        top: Seq<IdView>,
        tape: Seq<Outcome>,
    ) -> Step<ResponseView>
        decreases self.remaining(), 0nat, 0nat,
    {
        if self.issued >= SERIAL_LIMIT {
            Step {
                chain: self,
                result: Err(ErrorView::CreationError(binding.service, CauseView::Exhausted)),
            }
        } else {
            let started = ChainView { issued: self.issued + 1, ..self };
            let resolved = started.resolve_all(
                binding.dependencies,
                top.push(binding.service),
                tape,
            );
            match resolved.result {
                Err(error) => Step {
                    chain: resolved.chain,
                    result: Err(
                        ErrorView::CreationError(
                            binding.service,
                            CauseView::Dependency(Box::new(error)),
                        ),
                    ),
                },
                Ok(handles) => {
                    let ready = resolved.chain;
                    let kept = ready.memo_at(index as int);
                    if binding.singleton && kept is Some {
                        Step {
                            chain: ready,
                            result: Ok(
                                ResponseView { handle: kept->Some_0, destined: binding.destined },
                            ),
                        }
                    } else {
                        let outcome = tape[ready.journal.len() as int];
                        let ran = ChainView {
                            journal: ready.journal.push(
                                Event { binding: index, dependencies: handles, outcome },
                            ),
                            ..ready
                        };
                        match outcome {
                            Err(message) => Step {
                                chain: ran,
                                result: Err(
                                    ErrorView::CreationError(
                                        binding.service,
                                        CauseView::Factory(message),
                                    ),
                                ),
                            },
                            Ok(instance) => {
                                let handle = HandleView {
                                    serial: self.issued,
                                    type_tag: binding.produces,
                                    instance,
                                };
                                Step {
                                    chain: if binding.singleton {
                                        ran.remember(index as int, handle)
                                    } else {
                                        ran
                                    },
                                    result: Ok(
                                        ResponseView { handle, destined: binding.destined },
                                    ),
                                }
                            },
                        }
                    }
                },
            }
        }
    }

    /// The instance that the binding at `index` keeps, if it keeps one.
    pub open spec fn memo_at(self, index: int) -> Option<HandleView> {
        match self.layers[index] {
            LayerView::Binding(binding) => binding.memo,
            _ => None,
        }
    }

    /// What resolving `service` behind the guards of `top` yields.
    pub open spec fn resolve(self, service: IdView, top: Seq<IdView>, tape: Seq<Outcome>) -> Step<
        HandleView,
    >
        decreases self.remaining(), 0nat, self.layers.len() + 1,
    {
        let answer = self.instantiate(
            self.layers.len(),
            RequestView::initial(top, service),
            tape,
        );
        Step {
            chain: answer.chain,
            result: match answer.result {
                Ok(response) => Ok(response.handle),
                Err(error) => Err(error),
            },
        }
    }

    /// What resolving `services` one after the other yields: the instances
    /// in the same order, or the first failure.
    pub open spec fn resolve_all(
        self,
        services: Seq<IdView>,
        top: Seq<IdView>,
        tape: Seq<Outcome>,
    ) -> Step<Seq<HandleView>>
        decreases self.remaining(), 1nat, services.len(),
    {
        if services.len() == 0 {
            Step { chain: self, result: Ok(Seq::empty()) }
        } else {
            let first = self.resolve(services[0], top, tape);
            match first.result {
                Err(error) => Step { chain: first.chain, result: Err(error) },
                Ok(handle) => {
                    // No resolution takes a serial number back, so this
                    // branch is never taken (the chain evolves, as is
                    // proved of `resolve`); it stands here because the
                    // definition must be seen to end before that is known.
                    if first.chain.issued < self.issued {
                        Step { chain: first.chain, result: Ok(seq![handle]) }
                    } else {
                        let rest = first.chain.resolve_all(services.skip(1), top, tape);
                        Step {
                            chain: rest.chain,
                            result: match rest.result {
                                Ok(handles) => Ok(seq![handle] + handles),
                                Err(error) => Err(error),
                            },
                        }
                    }
                },
            }
        }
    }
}

} // verus!
