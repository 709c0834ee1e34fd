//! While a service is under construction, the upper layers of a chain are
//! at rest with respect to it: requests for it pass them one level too deep
//! to be answered, kept or constructed.
use crate::evolution::{lemma_instantiate_evolves, lemma_resolve_all_evolves, lemma_resolve_evolves};
use crate::handle::HandleView;
use crate::invariants::{executions, lemma_counts_push};
use crate::model::{BindingView, ChainView, DecisionView, Event, LayerView, Outcome, SERIAL_LIMIT};
use crate::names::IdView;
use crate::request::{lemma_occurrences_bound, RequestView};
use vstd::prelude::*;

verus! {

impl LayerView {
    /// Whether `later` is this layer with nothing changed as to `service`: a
    /// cache keeps an answer for it exactly if it did, a binding for it is
    /// as it was.
    pub open spec fn rests(self, later: LayerView, service: IdView) -> bool {
        match self {
            LayerView::NamedCache(cache) => later matches LayerView::NamedCache(grown)
                && grown.store.contains_key(service) == cache.store.contains_key(service),
            LayerView::Binding(binding) => binding.service == service ==> later == self,
            LayerView::RedirectMap(_) => true,
        }
    }

    /// Whether the layer is a binding for `service`.
    pub open spec fn binds(self, service: IdView) -> bool {
        self matches LayerView::Binding(binding) && binding.service == service
    }
}

impl ChainView {
    /// Whether the layers from `from` up to the head rewrite no request and,
    /// above `from`, are not bound to `service`.
    pub open spec fn sheltered(self, from: int, service: IdView) -> bool {
        &&& 0 <= from < self.layers.len()
        &&& forall|i: int|
            from <= i < self.layers.len() ==> !((#[trigger] self.layers[i]) is RedirectMap)
        &&& forall|i: int|
            from < i < self.layers.len() ==> !(#[trigger] self.layers[i]).binds(service)
    }

    /// Whether `later` is this chain with the layers from `from` up at rest
    /// as to `service`, and with no further run of the factory at `from` if
    /// that is a binding for `service`.
    pub open spec fn rested(self, later: ChainView, from: int, service: IdView) -> bool {
        &&& later.layers.len() == self.layers.len()
        &&& forall|i: int|
            from <= i < self.layers.len() ==> (#[trigger] self.layers[i]).rests(
                later.layers[i],
                service,
            )
        &&& self.layers[from].binds(service) ==> executions(later.journal, from as nat)
            == executions(self.journal, from as nat)
    }
}

pub proof fn lemma_rested_refl(chain: ChainView, from: int, service: IdView)
    ensures
        chain.rested(chain, from, service),
{
}

pub proof fn lemma_rested_trans(
    a: ChainView,
    b: ChainView,
    c: ChainView,
    from: int,
    service: IdView,
)
    requires
        0 <= from < a.layers.len(),
        a.rested(b, from, service),
        b.rested(c, from, service),
    ensures
        a.rested(c, from, service),
{
    assert forall|i: int| from <= i < a.layers.len() implies (#[trigger] a.layers[i]).rests(
        c.layers[i],
        service,
    ) by {
        assert(a.layers[i].rests(b.layers[i], service));
        assert(b.layers[i].rests(c.layers[i], service));
    }
    assert(a.layers[from].rests(b.layers[from], service));
}

pub proof fn lemma_sheltered_stable(
    before: ChainView,
    after: ChainView,
    from: int,
    service: IdView,
)
    requires
        before.evolves_to(after),
        before.sheltered(from, service),
    ensures
        after.sheltered(from, service),
{
    assert forall|i: int| from <= i < after.layers.len() implies !((#[trigger] after.layers[i]) is RedirectMap) by {
        assert(before.layers[i].evolves_to(after.layers[i]));
    }
    assert forall|i: int| from < i < after.layers.len() implies !(#[trigger] after.layers[i]).binds(
        service,
    ) by {
        assert(before.layers[i].evolves_to(after.layers[i]));
        assert(!before.layers[i].binds(service));
    }
}

/// While `service` is under construction, answering a request leaves the
/// sheltered layers at rest.
pub proof fn lemma_instantiate_rests(
    chain: ChainView,
    depth: nat,
    request: RequestView,
    tape: Seq<Outcome>,
    from: int,
    service: IdView,
)
    requires
        chain.sheltered(from, service),
        request.top.contains(service),
        depth <= chain.layers.len(),
        depth > from ==> (request.service == service ==> request.shadow > 1),
    ensures
        chain.rested(chain.instantiate(depth, request, tape).chain, from, service),
    decreases chain.remaining(), 0nat, depth,
{
    if depth == 0 {
    } else {
        let below = (depth - 1) as nat;
        let index = depth - 1;
        let layer = chain.layers[index];
        match layer.decide(request) {
            DecisionView::Forward(next) => {
                assert(index >= from ==> !(layer is RedirectMap));
                lemma_instantiate_rests(chain, below, next, tape, from, service);
            },
            DecisionView::Redirect(next) => {
                assert(index < from);
                lemma_instantiate_rests(chain, below, next, tape, from, service);
            },
            DecisionView::Attend(next) => {
                lemma_instantiate_rests(chain, below, next, tape, from, service);
                let inner = chain.instantiate(below, next, tape);
                match inner.result {
                    Ok(response) => {
                        let cache = inner.chain.layers[index];
                        let kept = cache.absorbed(request.service, response);
                        let after = inner.chain.with_layer(index, kept);
                        lemma_instantiate_evolves(chain, below, next, tape);
                        assert(chain.layers[index].evolves_to(cache));
                        assert forall|i: int| from <= i < inner.chain.layers.len() implies (#[trigger] inner.chain.layers[i]).rests(
                            after.layers[i],
                            service,
                        ) by {
                            if i == index {
                                assert(request.service != service);
                            }
                        }
                        assert(inner.chain.rested(after, from, service));
                        lemma_rested_trans(chain, inner.chain, after, from, service);
                    },
                    Err(_) => {},
                }
            },
            DecisionView::Answer(_) => {},
            DecisionView::Construct(binding) => {
                assert(index >= from ==> binding.service != service);
                lemma_construct_rests(chain, below, binding, request.top, tape, from, service);
            },
        }
    }
}

/// While `service` is under construction, the construction of another
/// instance leaves the sheltered layers at rest.
pub proof fn lemma_construct_rests(
    chain: ChainView,
    index: nat,
    binding: BindingView,
    top: Seq<IdView>,
    tape: Seq<Outcome>,
    from: int,
    service: IdView,
)
    requires
        chain.sheltered(from, service),
        top.contains(service),
        index < chain.layers.len(),
        chain.layers[index as int] == LayerView::Binding(binding),
        index >= from ==> binding.service != service,
    ensures
        chain.rested(chain.construct(index, binding, top, tape).chain, from, service),
    decreases chain.remaining(), 0nat, 0nat,
{
    if chain.issued >= SERIAL_LIMIT {
    } else {
        let started = ChainView { issued: chain.issued + 1, ..chain };
        assert(chain.rested(started, from, service));
        assert(started.sheltered(from, service));
        let guarded = top.push(binding.service);
        assert(guarded.contains(service)) by {
            let w = choose|w: int| 0 <= w < top.len() && top[w] == service;
            assert(guarded[w] == service);
        }
        lemma_resolve_all_rests(started, binding.dependencies, guarded, tape, from, service);
        lemma_resolve_all_evolves(started, binding.dependencies, guarded, tape);
        let resolved = started.resolve_all(binding.dependencies, guarded, tape);
        let ready = resolved.chain;
        lemma_rested_trans(chain, started, ready, from, service);
        assert(started.layers[index as int].evolves_to(ready.layers[index as int]));
        match resolved.result {
            Err(_) => {},
            Ok(handles) => {
                let kept = ready.memo_at(index as int);
                if binding.singleton && kept is Some {
                } else {
                    let outcome = tape[ready.journal.len() as int];
                    let event = Event { binding: index, dependencies: handles, outcome };
                    let ran = ChainView { journal: ready.journal.push(event), ..ready };
                    lemma_counts_push(ready.journal, event, from as nat);
                    assert(chain.layers[from].rests(ready.layers[from], service));
                    assert(ready.rested(ran, from, service));
                    lemma_rested_trans(chain, ready, ran, from, service);
                    match outcome {
                        Err(_) => {},
                        Ok(instance) => {
                            if binding.singleton {
                                let handle = HandleView {
                                    serial: chain.issued,
                                    type_tag: binding.produces,
                                    instance,
                                };
                                let after = ran.remember(index as int, handle);
                                assert forall|i: int| from <= i < ran.layers.len() implies (#[trigger] ran.layers[i]).rests(
                                    after.layers[i],
                                    service,
                                ) by {}
                                assert(ran.rested(after, from, service));
                                lemma_rested_trans(chain, ran, after, from, service);
                            }
                        },
                    }
                }
            },
        }
    }
}

/// While `service` is under construction, a resolution leaves the sheltered
/// layers at rest.
pub proof fn lemma_resolve_rests(
    chain: ChainView,
    wanted: IdView,
    top: Seq<IdView>,
    tape: Seq<Outcome>,
    from: int,
    service: IdView,
)
    requires
        chain.sheltered(from, service),
        top.contains(service),
    ensures
        chain.rested(chain.resolve(wanted, top, tape).chain, from, service),
    decreases chain.remaining(), 0nat, chain.layers.len() + 1,
{
    lemma_occurrences_bound(top, service);
    lemma_instantiate_rests(
        chain,
        chain.layers.len(),
        RequestView::initial(top, wanted),
        tape,
        from,
        service,
    );
}

/// While `service` is under construction, resolutions one after the other
/// leave the sheltered layers at rest.
pub proof fn lemma_resolve_all_rests(
    chain: ChainView,
    services: Seq<IdView>,
    top: Seq<IdView>,
    tape: Seq<Outcome>,
    from: int,
    service: IdView,
)
    requires
        chain.sheltered(from, service),
        top.contains(service),
    ensures
        chain.rested(chain.resolve_all(services, top, tape).chain, from, service),
    decreases chain.remaining(), 1nat, services.len(),
{
    if services.len() > 0 {
        lemma_resolve_rests(chain, services[0], top, tape, from, service);
        lemma_resolve_evolves(chain, services[0], top, tape);
        let first = chain.resolve(services[0], top, tape);
        match first.result {
            Err(_) => {},
            Ok(_) => {
                lemma_sheltered_stable(chain, first.chain, from, service);
                lemma_resolve_all_rests(first.chain, services.skip(1), top, tape, from, service);
                lemma_rested_trans(
                    chain,
                    first.chain,
                    first.chain.resolve_all(services.skip(1), top, tape).chain,
                    from,
                    service,
                );
            },
        }
    }
}

} // verus!
