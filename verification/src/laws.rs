//! What holds of every resolution.

use crate::error::ErrorView;
use crate::evolution::{lemma_evolves_refl, lemma_instantiate_evolves, lemma_resolve_evolves};
use crate::handle::HandleView;
use crate::evolution::lemma_resolve_all_evolves;
use crate::invariants::{executions, lemma_counts_push, lemma_resolve_wf, successes};
use crate::shelter::lemma_resolve_all_rests;
use crate::model::{ChainView, DecisionView, Event, LayerView, Outcome, Step, SERIAL_LIMIT};
use crate::names::IdView;
use crate::request::{lemma_occurrences_bound, RequestView, ResponseView};
use vstd::prelude::*;

verus! {

/// A request for a service that no layer below `depth` claims comes back as
/// not found, and leaves the chain as it was.
pub proof fn lemma_unclaimed_is_not_found(
    chain: ChainView,
    depth: nat,
    request: RequestView,
    tape: Seq<Outcome>,
)
    requires
        chain.wf(),
        depth <= chain.layers.len(),
        !chain.mentions(depth as int, request.service),
    ensures
        chain.instantiate(depth, request, tape) == (Step::<ResponseView> {
            chain,
            result: Err(ErrorView::ServiceNotFound(request.service)),
        }),
    decreases depth,
{
    if depth > 0 {
        let below = (depth - 1) as nat;
        let layer = chain.layers[depth - 1];
        assert(chain.sound_at(depth - 1));
        assert(!layer.claims(request.service));
        assert(!chain.mentions(below as int, request.service)) by {
            if chain.mentions(below as int, request.service) {
                let w = choose|w: int|
                    0 <= w < below && w < chain.layers.len() && #[trigger] chain.layers[w].claims(
                        request.service,
                    );
                assert(chain.layers[w].claims(request.service));
            }
        }
        match layer.decide(request) {
            DecisionView::Forward(next) => {
                lemma_unclaimed_is_not_found(chain, below, next, tape);
            },
            DecisionView::Redirect(next) => {
                lemma_unclaimed_is_not_found(chain, below, next, tape);
            },
            DecisionView::Attend(next) => {
                lemma_unclaimed_is_not_found(chain, below, next, tape);
            },
            DecisionView::Answer(_) => {
                let cache = layer->NamedCache_0;
                assert(cache.store.contains_key(request.service));
                assert(chain.mentions(depth - 1, request.service));
            },
            DecisionView::Construct(_) => {},
        }
    }
}

/// Resolving a service that no layer claims yields `ServiceNotFound` for it,
/// whatever else is bound and whatever is under construction, and changes
/// nothing.
pub proof fn law_unbound_is_not_found(
    chain: ChainView,
    service: IdView,
    top: Seq<IdView>,
    tape: Seq<Outcome>,
)
    requires
        chain.wf(),
        !chain.mentions(chain.layers.len() as int, service),
    ensures
        chain.resolve(service, top, tape) == (Step::<HandleView> {
            chain,
            result: Err(ErrorView::ServiceNotFound(service)),
        }),
{
    lemma_unclaimed_is_not_found(
        chain,
        chain.layers.len(),
        RequestView::initial(top, service),
        tape,
    );
}

/// A binding that is asked for its service while that service is under
/// construction steps aside: the answer is that of the layers below it, to
/// the request one level less deep.
pub proof fn law_binding_steps_aside(
    chain: ChainView,
    depth: nat,
    request: RequestView,
    tape: Seq<Outcome>,
)
    requires
        0 < depth <= chain.layers.len(),
        chain.layers[depth - 1] matches LayerView::Binding(binding) && binding.service
            == request.service,
        request.shadow > 1,
    ensures
        chain.instantiate(depth, request, tape) == chain.instantiate(
            (depth - 1) as nat,
            request.decremented(),
            tape,
        ),
{
}

/// A request for a service that is under construction is deeper than level 1
/// when it reaches the head of the chain.
pub proof fn law_guarded_request_is_shadowed(top: Seq<IdView>, service: IdView)
    requires
        top.contains(service),
    ensures
        RequestView::initial(top, service).shadow > 1,
{
    lemma_occurrences_bound(top, service);
}

impl ChainView {
    /// Whether the binding at `index` is the one that a request for
    /// `service` meets first below `depth`: it is bound to the service, and
    /// between it and `depth` are only bindings for other services.
    pub open spec fn meets(self, index: int, service: IdView, depth: int) -> bool {
        &&& 0 <= index < depth <= self.layers.len()
        &&& self.layers[index].binds(service)
        &&& forall|j: int|
            index < j < depth ==> (#[trigger] self.layers[j]) is Binding && !self.layers[j].binds(
                service,
            )
    }

    /// Whether the binding at `index` is the one that a request for
    /// `service` meets first.
    pub open spec fn serves(self, index: int, service: IdView) -> bool {
        self.meets(index, service, self.layers.len() as int)
    }
}

/// Bindings for other services hand a request on as it is.
pub proof fn lemma_passes_other_bindings(
    chain: ChainView,
    depth: nat,
    index: int,
    request: RequestView,
    tape: Seq<Outcome>,
)
    requires
        chain.meets(index, request.service, depth as int),
    ensures
        chain.instantiate(depth, request, tape) == chain.instantiate(
            (index + 1) as nat,
            request,
            tape,
        ),
    decreases depth,
{
    if depth > index + 1 {
        let layer = chain.layers[depth - 1];
        assert(layer is Binding && !layer.binds(request.service));
        assert(layer.decide(request) == DecisionView::Forward(request));
        lemma_passes_other_bindings(chain, (depth - 1) as nat, index, request, tape);
    }
}

/// Which binding a request meets first does not change while a chain evolves.
pub proof fn lemma_serves_stable(
    before: ChainView,
    after: ChainView,
    index: int,
    service: IdView,
)
    requires
        before.evolves_to(after),
        before.serves(index, service),
    ensures
        after.serves(index, service),
        before.layers[index]->Binding_0.singleton == after.layers[index]->Binding_0.singleton,
        before.memo_at(index) is Some ==> after.memo_at(index) == before.memo_at(index),
{
    assert(before.layers[index].evolves_to(after.layers[index]));
    assert forall|j: int| index < j < after.layers.len() implies (#[trigger] after.layers[j]) is Binding
        && !after.layers[j].binds(service) by {
        assert(before.layers[j].evolves_to(after.layers[j]));
        assert(before.layers[j] is Binding && !before.layers[j].binds(service));
    }
}

/// A factory that depends on its own service gets what the layers below its
/// binding answer, never its own instance; where none of them claims the
/// service, that is `ServiceNotFound`.
pub proof fn law_self_dependency(
    chain: ChainView,
    index: int,
    service: IdView,
    top: Seq<IdView>,
    tape: Seq<Outcome>,
)
    requires
        chain.wf(),
        chain.serves(index, service),
        top.contains(service),
    ensures
        chain.instantiate(chain.layers.len(), RequestView::initial(top, service), tape)
            == chain.instantiate(
            index as nat,
            RequestView::initial(top, service).decremented(),
            tape,
        ),
        !chain.mentions(index, service) ==> chain.resolve(service, top, tape) == (Step::<
            HandleView,
        > { chain, result: Err(ErrorView::ServiceNotFound(service)) }),
{
    let request = RequestView::initial(top, service);
    law_guarded_request_is_shadowed(top, service);
    lemma_passes_other_bindings(chain, chain.layers.len(), index, request, tape);
    law_binding_steps_aside(chain, (index + 1) as nat, request, tape);
    if !chain.mentions(index, service) {
        lemma_unclaimed_is_not_found(chain, index as nat, request.decremented(), tape);
    }
}

/// Behind a redirect at the head of the chain that sends `from` to a service
/// it does not send on, resolving `from` is resolving that service: the same
/// answer and the same chain afterwards.
pub proof fn law_redirect_reaches_target(chain: ChainView, from: IdView, tape: Seq<Outcome>)
    requires
        chain.layers.len() > 0,
        chain.layers.last() matches LayerView::RedirectMap(rules) && rules.target(
            rules.target(from),
        ) == rules.target(from),
    ensures
        chain.resolve(from, Seq::empty(), tape) == chain.resolve(
            chain.layers.last()->RedirectMap_0.target(from),
            Seq::empty(),
            tape,
        ),
{
    let rules = chain.layers.last()->RedirectMap_0;
    let to = rules.target(from);
    let asked = RequestView::initial(Seq::empty(), from);
    let direct = RequestView::initial(Seq::empty(), to);
    assert(asked.redirected(to) == direct);
    assert(direct.redirected(rules.target(to)) == direct);
}

/// A singleton that keeps an instance answers with it, runs no factory and
/// changes nothing.
pub proof fn law_singleton_recalls(
    chain: ChainView,
    index: int,
    service: IdView,
    tape: Seq<Outcome>,
)
    requires
        chain.serves(index, service),
        chain.layers[index]->Binding_0.singleton,
        chain.memo_at(index) is Some,
    ensures
        chain.resolve(service, Seq::empty(), tape) == (Step::<HandleView> {
            chain,
            result: Ok(chain.memo_at(index)->Some_0),
        }),
{
    let request = RequestView::initial(Seq::empty(), service);
    lemma_passes_other_bindings(chain, chain.layers.len(), index, request, tape);
    let met = chain.instantiate((index + 1) as nat, request, tape);
    assert(met.chain == chain);
}

/// The instance that a resolution of a singleton yields is the one that the
/// singleton keeps from then on.
pub proof fn law_singleton_keeps(
    chain: ChainView,
    index: int,
    service: IdView,
    tape: Seq<Outcome>,
)
    requires
        chain.serves(index, service),
        chain.layers[index]->Binding_0.singleton,
    ensures
        chain.resolve(service, Seq::empty(), tape).result matches Ok(handle) ==> chain.resolve(
            service,
            Seq::empty(),
            tape,
        ).chain.memo_at(index) == Some(handle),
{
    let binding = chain.layers[index]->Binding_0;
    let request = RequestView::initial(Seq::empty(), service);
    lemma_passes_other_bindings(chain, chain.layers.len(), index, request, tape);
    let met = chain.instantiate((index + 1) as nat, request, tape);
    if binding.memo is Some {
        assert(met.chain == chain);
    } else if chain.issued >= SERIAL_LIMIT {
        assert(chain.layers[index].decide(request) == DecisionView::Construct(binding));
        assert(met == chain.construct(index as nat, binding, request.top, tape));
    } else {
        assert(chain.layers[index].decide(request) == DecisionView::Construct(binding));
        assert(met == chain.construct(index as nat, binding, request.top, tape));
        let started = ChainView { issued: chain.issued + 1, ..chain };
        let guarded = Seq::<IdView>::empty().push(binding.service);
        lemma_resolve_all_evolves(started, binding.dependencies, guarded, tape);
        let ready = started.resolve_all(binding.dependencies, guarded, tape).chain;
        assert(started.layers[index].evolves_to(ready.layers[index]));
    }
}

/// Two resolutions of a singleton, one after the other: the second yields
/// the instance of the first, runs no factory and changes nothing.
pub proof fn law_singleton_is_constructed_once(
    chain: ChainView,
    index: int,
    service: IdView,
    first_tape: Seq<Outcome>,
    second_tape: Seq<Outcome>,
)
    requires
        chain.serves(index, service),
        chain.layers[index]->Binding_0.singleton,
    ensures
        ({
            let first = chain.resolve(service, Seq::empty(), first_tape);
            first.result is Ok ==> first.chain.resolve(service, Seq::empty(), second_tape)
                == first
        }),
{
    let first = chain.resolve(service, Seq::empty(), first_tape);
    if first.result is Ok {
        lemma_evolves_refl(first.chain);
        law_singleton_stays(chain, first.chain, index, service, first_tape, second_tape);
    }
}

/// Once a resolution of a singleton has succeeded, every later one yields
/// the same instance, runs no factory and changes nothing, whatever was
/// resolved in between.
pub proof fn law_singleton_stays(
    chain: ChainView,
    later: ChainView,
    index: int,
    service: IdView,
    first_tape: Seq<Outcome>,
    later_tape: Seq<Outcome>,
)
    requires
        chain.serves(index, service),
        chain.layers[index]->Binding_0.singleton,
        chain.resolve(service, Seq::empty(), first_tape).result is Ok,
        chain.resolve(service, Seq::empty(), first_tape).chain.evolves_to(later),
    ensures
        later.resolve(service, Seq::empty(), later_tape) == (Step::<HandleView> {
            chain: later,
            result: chain.resolve(service, Seq::empty(), first_tape).result,
        }),
{
    let first = chain.resolve(service, Seq::empty(), first_tape);
    law_singleton_keeps(chain, index, service, first_tape);
    lemma_resolve_evolves(chain, service, Seq::empty(), first_tape);
    lemma_serves_stable(chain, first.chain, index, service);
    lemma_serves_stable(first.chain, later, index, service);
    law_singleton_recalls(later, index, service, later_tape);
}

/// The first resolution of a singleton that succeeds has run its factory
/// exactly once.
pub proof fn law_singleton_runs_factory_once(
    chain: ChainView,
    index: int,
    service: IdView,
    tape: Seq<Outcome>,
)
    requires
        chain.serves(index, service),
        chain.layers[index]->Binding_0.singleton,
        chain.memo_at(index) is None,
    ensures
        ({
            let after = chain.resolve(service, Seq::empty(), tape);
            after.result matches Ok(handle) ==> handle.serial == chain.issued && executions(
                after.chain.journal,
                index as nat,
            ) == executions(chain.journal, index as nat) + 1
        }),
{
    lemma_runs_once(chain, index, service, tape);
}

/// The factory of a singleton has produced an instance at most once, and
/// exactly once if the singleton keeps one; a resolution leaves it so.
pub proof fn law_singleton_factory_succeeds_once(
    chain: ChainView,
    index: int,
    service: IdView,
    top: Seq<IdView>,
    tape: Seq<Outcome>,
)
    requires
        chain.wf(),
        0 <= index < chain.layers.len(),
        chain.layers[index] matches LayerView::Binding(binding) && binding.singleton,
    ensures
        successes(chain.journal, index as nat) == if chain.memo_at(index) is Some {
            1nat
        } else {
            0nat
        },
        ({
            let after = chain.resolve(service, top, tape).chain;
            successes(after.journal, index as nat) == if after.memo_at(index) is Some {
                1nat
            } else {
                0nat
            }
        }),
{
    assert(chain.sound_at(index));
    lemma_resolve_wf(chain, service, top, tape);
    lemma_resolve_evolves(chain, service, top, tape);
    let after = chain.resolve(service, top, tape).chain;
    assert(chain.layers[index].evolves_to(after.layers[index]));
    assert(after.sound_at(index));
}

/// A resolution of a transient binding that succeeds has run its factory
/// exactly once, and yields an instance under the serial number that was
/// next: no instance handed out before is it.
pub proof fn law_transient_constructs_anew(
    chain: ChainView,
    index: int,
    service: IdView,
    tape: Seq<Outcome>,
)
    requires
        chain.serves(index, service),
        !chain.layers[index]->Binding_0.singleton,
    ensures
        ({
            let after = chain.resolve(service, Seq::empty(), tape);
            after.result matches Ok(handle) ==> handle.serial == chain.issued
                && after.chain.issued > chain.issued && executions(
                after.chain.journal,
                index as nat,
            ) == executions(chain.journal, index as nat) + 1
        }),
{
    lemma_runs_once(chain, index, service, tape);
}

/// Two resolutions of a transient binding, one after the other, yield two
/// instances and have run the factory twice.
pub proof fn law_transient_instances_differ(
    chain: ChainView,
    index: int,
    service: IdView,
    first_tape: Seq<Outcome>,
    second_tape: Seq<Outcome>,
)
    requires
        chain.serves(index, service),
        !chain.layers[index]->Binding_0.singleton,
    ensures
        ({
            let first = chain.resolve(service, Seq::empty(), first_tape);
            let second = first.chain.resolve(service, Seq::empty(), second_tape);
            first.result matches Ok(one) ==> (second.result matches Ok(other) ==> one.serial
                != other.serial && executions(second.chain.journal, index as nat) == executions(
                chain.journal,
                index as nat,
            ) + 2)
        }),
{
    let first = chain.resolve(service, Seq::empty(), first_tape);
    law_transient_constructs_anew(chain, index, service, first_tape);
    lemma_resolve_evolves(chain, service, Seq::empty(), first_tape);
    lemma_serves_stable(chain, first.chain, index, service);
    if first.result is Ok {
        law_transient_constructs_anew(first.chain, index, service, second_tape);
    }
}

/// A binding that constructs an instance for a request that meets it first
/// runs its factory exactly once for it.
proof fn lemma_runs_once(chain: ChainView, index: int, service: IdView, tape: Seq<Outcome>)
    requires
        chain.serves(index, service),
        !(chain.layers[index]->Binding_0.singleton && chain.memo_at(index) is Some),
    ensures
        ({
            let after = chain.resolve(service, Seq::empty(), tape);
            after.result matches Ok(handle) ==> handle.serial == chain.issued
                && after.chain.issued > chain.issued && executions(
                after.chain.journal,
                index as nat,
            ) == executions(chain.journal, index as nat) + 1
        }),
{
    let binding = chain.layers[index]->Binding_0;
    let request = RequestView::initial(Seq::empty(), service);
    lemma_passes_other_bindings(chain, chain.layers.len(), index, request, tape);
    let met = chain.instantiate((index + 1) as nat, request, tape);
    assert(chain.layers[index].decide(request) == DecisionView::Construct(binding));
    assert(met == chain.construct(index as nat, binding, request.top, tape));
    if chain.issued >= SERIAL_LIMIT {
    } else {
        let started = ChainView { issued: chain.issued + 1, ..chain };
        let guarded = Seq::<IdView>::empty().push(binding.service);
        assert(guarded[0] == service);
        assert(started.sheltered(index, service));
        lemma_resolve_all_rests(started, binding.dependencies, guarded, tape, index, service);
        lemma_resolve_all_evolves(started, binding.dependencies, guarded, tape);
        let resolved = started.resolve_all(binding.dependencies, guarded, tape);
        let ready = resolved.chain;
        assert(started.layers[index].rests(ready.layers[index], service));
        match resolved.result {
            Err(_) => {},
            Ok(handles) => {
                let outcome = tape[ready.journal.len() as int];
                let event = Event { binding: index as nat, dependencies: handles, outcome };
                lemma_counts_push(ready.journal, event, index as nat);
            },
        }
    }
}

/// What the cache at `index` keeps for `service`, if it keeps anything.
pub open spec fn kept_at(chain: ChainView, index: int, service: IdView) -> Option<HandleView> {
    match chain.layers[index] {
        LayerView::NamedCache(cache) => if cache.store.contains_key(service) {
            Some(cache.store[service])
        } else {
            None
        },
        _ => None,
    }
}

/// A cache at the head of the chain, and a binding whose instances are
/// destined for it as the first that a request for the service meets below
/// it: the first resolution that succeeds puts its instance into the cache,
/// and the next one yields that instance from the cache, runs no factory
/// and changes nothing.
pub proof fn law_cache_keeps_first_answer(
    chain: ChainView,
    index: int,
    service: IdView,
    first_tape: Seq<Outcome>,
    second_tape: Seq<Outcome>,
)
    requires
        chain.layers.len() >= 2,
        chain.meets(index, service, chain.layers.len() - 1),
        ({
            &&& chain.layers.last() matches LayerView::NamedCache(cache)
            &&& !cache.store.contains_key(service)
            &&& chain.layers[index]->Binding_0.destined == Some(cache.name)
        }),
    ensures
        ({
            let first = chain.resolve(service, Seq::empty(), first_tape);
            first.result matches Ok(handle) ==> kept_at(
                first.chain,
                chain.layers.len() - 1,
                service,
            ) == Some(handle) && first.chain.resolve(service, Seq::empty(), second_tape) == first
        }),
{
    let n = chain.layers.len() as int;
    let cache = chain.layers.last()->NamedCache_0;
    let request = RequestView::initial(Seq::empty(), service);
    let next = request.with_interest(cache.name);
    assert(chain.layers[n - 1].decide(request) == DecisionView::Attend(next));
    lemma_passes_other_bindings(chain, (n - 1) as nat, index, next, first_tape);
    lemma_construction_rests(chain, index, n - 1, next, first_tape);
    lemma_instantiate_evolves(chain, (n - 1) as nat, next, first_tape);
    let inner = chain.instantiate((n - 1) as nat, next, first_tape);
    assert(chain.layers[n - 1].evolves_to(inner.chain.layers[n - 1]));
    let first = chain.resolve(service, Seq::empty(), first_tape);
    if first.result is Ok {
        assert(first.chain.layers.last() == first.chain.layers[n - 1]);
    }
}

/// What a cache at the head of the chain keeps for a service, it answers
/// with, runs no factory and changes nothing, whatever was resolved since it
/// began to keep it.
pub proof fn law_cache_stays(
    chain: ChainView,
    later: ChainView,
    service: IdView,
    tape: Seq<Outcome>,
)
    requires
        chain.layers.len() > 0,
        chain.layers.last() is NamedCache,
        kept_at(chain, chain.layers.len() - 1, service) is Some,
        chain.evolves_to(later),
    ensures
        later.resolve(service, Seq::empty(), tape) == (Step::<HandleView> {
            chain: later,
            result: Ok(kept_at(chain, chain.layers.len() - 1, service)->Some_0),
        }),
{
    let index = chain.layers.len() - 1;
    assert(chain.layers[index].evolves_to(later.layers[index]));
    assert(later.layers.last() == later.layers[index]);
    let cache = chain.layers[index]->NamedCache_0;
    assert(cache.store.contains_key(service));
}

/// Two caches of one name at the head of the chain, and a binding whose
/// instances are destined for them as the first that a request for the
/// service meets below them: the first resolution that succeeds puts its
/// instance into the upper cache and nothing into the lower one, and the
/// next one yields that instance from the upper cache, runs no factory and
/// changes nothing.
pub proof fn law_second_cache_stays_out(
    chain: ChainView,
    index: int,
    service: IdView,
    first_tape: Seq<Outcome>,
    second_tape: Seq<Outcome>,
)
    requires
        chain.layers.len() >= 3,
        chain.meets(index, service, chain.layers.len() - 2),
        ({
            &&& chain.layers.last() matches LayerView::NamedCache(upper)
            &&& !upper.store.contains_key(service)
            &&& chain.layers[chain.layers.len() - 2] matches LayerView::NamedCache(lower)
            &&& lower.name == upper.name
            &&& !lower.store.contains_key(service)
            &&& chain.layers[index]->Binding_0.destined == Some(upper.name)
        }),
    ensures
        ({
            let first = chain.resolve(service, Seq::empty(), first_tape);
            first.result matches Ok(handle) ==> kept_at(
                first.chain,
                chain.layers.len() - 1,
                service,
            ) == Some(handle) && kept_at(first.chain, chain.layers.len() - 2, service) is None
                && first.chain.resolve(service, Seq::empty(), second_tape) == first
        }),
{
    let n = chain.layers.len() as int;
    let upper = chain.layers.last()->NamedCache_0;
    let lower = chain.layers[n - 2]->NamedCache_0;
    let request = RequestView::initial(Seq::empty(), service);
    let next = request.with_interest(upper.name);
    assert(chain.layers[n - 1].decide(request) == DecisionView::Attend(next));
    assert(chain.layers[n - 2].decide(next) == DecisionView::Forward(next));
    lemma_passes_other_bindings(chain, (n - 2) as nat, index, next, first_tape);
    lemma_construction_rests(chain, index, n - 2, next, first_tape);
    lemma_instantiate_evolves(chain, (n - 2) as nat, next, first_tape);
    let inner = chain.instantiate((n - 2) as nat, next, first_tape);
    assert(chain.layers[n - 1].evolves_to(inner.chain.layers[n - 1]));
    assert(chain.layers[n - 2].evolves_to(inner.chain.layers[n - 2]));
    let first = chain.resolve(service, Seq::empty(), first_tape);
    if first.result is Ok {
        assert(first.chain.layers.last() == first.chain.layers[n - 1]);
    }
}

/// A binding below layers that are sheltered, asked for its service by a
/// request that no construction has marked: those layers are at rest as to
/// the service afterwards, and an answer is destined where the binding says.
proof fn lemma_construction_rests(
    chain: ChainView,
    index: int,
    from: int,
    request: RequestView,
    tape: Seq<Outcome>,
)
    requires
        0 <= index < from < chain.layers.len(),
        chain.sheltered(from, request.service),
        chain.layers[index] matches LayerView::Binding(binding) && binding.service
            == request.service,
        request.shadow == 1,
        request.top == Seq::<IdView>::empty(),
    ensures
        ({
            let after = chain.instantiate((index + 1) as nat, request, tape);
            chain.rested(after.chain, from, request.service) && (after.result matches Ok(
                response,
            ) ==> response.destined == chain.layers[index]->Binding_0.destined)
        }),
{
    let service = request.service;
    let binding = chain.layers[index]->Binding_0;
    let after = chain.instantiate((index + 1) as nat, request, tape);
    crate::shelter::lemma_rested_refl(chain, from, service);
    if binding.singleton && binding.memo is Some {
        assert(after.chain == chain);
    } else if chain.issued >= SERIAL_LIMIT {
        assert(chain.layers[index].decide(request) == DecisionView::Construct(binding));
        assert(after == chain.construct(index as nat, binding, request.top, tape));
        assert(after.chain == chain);
    } else {
        assert(chain.layers[index].decide(request) == DecisionView::Construct(binding));
        assert(after == chain.construct(index as nat, binding, request.top, tape));
        let started = ChainView { issued: chain.issued + 1, ..chain };
        let guarded = Seq::<IdView>::empty().push(binding.service);
        assert(guarded[0] == service);
        assert(started.sheltered(from, service));
        lemma_resolve_all_rests(started, binding.dependencies, guarded, tape, from, service);
        lemma_resolve_all_evolves(started, binding.dependencies, guarded, tape);
        let resolved = started.resolve_all(binding.dependencies, guarded, tape);
        let ready = resolved.chain;
        assert(started.layers[index].evolves_to(ready.layers[index]));
        assert(chain.rested(started, from, service));
        crate::shelter::lemma_rested_trans(chain, started, ready, from, service);
        match resolved.result {
            Err(_) => {},
            Ok(handles) => {
                let kept = ready.memo_at(index);
                if binding.singleton && kept is Some {
                } else {
                    let outcome = tape[ready.journal.len() as int];
                    let event = Event { binding: index as nat, dependencies: handles, outcome };
                    let ran = ChainView { journal: ready.journal.push(event), ..ready };
                    lemma_counts_push(ready.journal, event, from as nat);
                    assert(ready.rested(ran, from, service));
                    crate::shelter::lemma_rested_trans(chain, started, ready, from, service);
                    crate::shelter::lemma_rested_trans(chain, ready, ran, from, service);
                    match outcome {
                        Err(_) => {},
                        Ok(instance) => {
                            if binding.singleton {
                                let handle = HandleView {
                                    serial: chain.issued,
                                    type_tag: binding.produces,
                                    instance,
                                };
                                let after = ran.remember(index, handle);
                                assert forall|i: int| from <= i < ran.layers.len() implies (#[trigger] ran.layers[i]).rests(
                                    after.layers[i],
                                    service,
                                ) by {}
                                assert(ran.rested(after, from, service));
                                crate::shelter::lemma_rested_trans(chain, ran, after, from, service);
                            }
                        },
                    }
                }
            },
        }
    }
}

} // verus!
