//! What never changes while a chain answers requests, and what only grows.

use crate::handle::HandleView;
use crate::model::{BindingView, ChainView, DecisionView, Event, LayerView, Outcome};
use crate::names::IdView;
use crate::request::RequestView;
use vstd::prelude::*;

verus! {

impl LayerView {
    /// Whether `later` is this layer at a later time: the same layer, a
    /// cache with nothing lost or replaced, a binding whose kept instance,
    /// if it had one, is still the same.
    pub open spec fn evolves_to(self, later: LayerView) -> bool {
        match self {
            LayerView::RedirectMap(_) => later == self,
            LayerView::NamedCache(cache) => {
                &&& later matches LayerView::NamedCache(grown)
                &&& grown.name == cache.name
                &&& forall|key: IdView| #[trigger]
                    cache.store.contains_key(key) ==> grown.store.contains_key(key)
                        && grown.store[key] == cache.store[key]
            },
            LayerView::Binding(binding) => {
                &&& later matches LayerView::Binding(same)
                &&& same == (BindingView { memo: same.memo, ..binding })
                &&& binding.memo is Some ==> same.memo == binding.memo
            },
        }
    }
}

impl ChainView {
    /// Whether `later` is this chain at a later time: the same layers in the
    /// same order, each evolved, no serial number taken back and no run
    /// forgotten.
    pub open spec fn evolves_to(self, later: ChainView) -> bool {
        &&& later.layers.len() == self.layers.len()
        &&& forall|i: int|
            0 <= i < self.layers.len() ==> (#[trigger] self.layers[i]).evolves_to(later.layers[i])
        &&& self.issued <= later.issued
        &&& self.journal.is_prefix_of(later.journal)
    }
}

pub proof fn lemma_layer_evolves_refl(layer: LayerView)
    ensures
        layer.evolves_to(layer),
{
}

pub proof fn lemma_layer_evolves_trans(a: LayerView, b: LayerView, c: LayerView)
    requires
        a.evolves_to(b),
        b.evolves_to(c),
    ensures
        a.evolves_to(c),
{
    match a {
        LayerView::NamedCache(first) => {
            let second = b->NamedCache_0;
            let third = c->NamedCache_0;
            assert forall|key: IdView| #[trigger] first.store.contains_key(key) implies third.store.contains_key(key) && third.store[key] == first.store[key] by {
                assert(second.store.contains_key(key));
            }
        },
        _ => {},
    }
}

pub proof fn lemma_evolves_refl(chain: ChainView)
    ensures
        chain.evolves_to(chain),
{
    assert forall|i: int| 0 <= i < chain.layers.len() implies (#[trigger] chain.layers[i]).evolves_to(
        chain.layers[i],
    ) by {
        lemma_layer_evolves_refl(chain.layers[i]);
    }
}

pub proof fn lemma_evolves_trans(a: ChainView, b: ChainView, c: ChainView)
    requires
        a.evolves_to(b),
        b.evolves_to(c),
    ensures
        a.evolves_to(c),
{
    assert forall|i: int| 0 <= i < a.layers.len() implies (#[trigger] a.layers[i]).evolves_to(
        c.layers[i],
    ) by {
        assert(b.layers[i].evolves_to(c.layers[i]));
        lemma_layer_evolves_trans(a.layers[i], b.layers[i], c.layers[i]);
    }
}

/// Putting an evolved layer in place of a layer evolves the chain.
pub proof fn lemma_with_layer_evolves(chain: ChainView, index: int, layer: LayerView)
    requires
        0 <= index < chain.layers.len(),
        chain.layers[index].evolves_to(layer),
    ensures
        chain.evolves_to(chain.with_layer(index, layer)),
{
    let later = chain.with_layer(index, layer);
    assert forall|i: int| 0 <= i < chain.layers.len() implies (#[trigger] chain.layers[i]).evolves_to(
        later.layers[i],
    ) by {
        lemma_layer_evolves_refl(chain.layers[i]);
    }
}

/// A chain only evolves while it answers a request.
pub proof fn lemma_instantiate_evolves(
    chain: ChainView,
    depth: nat,
    request: RequestView,
    tape: Seq<Outcome>,
)
    ensures
        chain.evolves_to(chain.instantiate(depth, request, tape).chain),
    decreases chain.remaining(), 0nat, depth,
{
    lemma_evolves_refl(chain);
    if depth == 0 || depth > chain.layers.len() {
    } else {
        let below = (depth - 1) as nat;
        let layer = chain.layers[depth - 1];
        match layer.decide(request) {
            DecisionView::Forward(next) => {
                lemma_instantiate_evolves(chain, below, next, tape);
            },
            DecisionView::Redirect(next) => {
                lemma_instantiate_evolves(chain, below, next, tape);
            },
            DecisionView::Attend(next) => {
                lemma_instantiate_evolves(chain, below, next, tape);
                let inner = chain.instantiate(below, next, tape);
                match inner.result {
                    Ok(response) => {
                        let cache = inner.chain.layers[depth - 1];
                        assert(layer.evolves_to(cache));
                        let kept = cache.absorbed(request.service, response);
                        assert(cache.evolves_to(kept));
                        lemma_with_layer_evolves(inner.chain, depth - 1, kept);
                        lemma_evolves_trans(chain, inner.chain, inner.chain.with_layer(depth - 1, kept));
                    },
                    Err(_) => {},
                }
            },
            DecisionView::Answer(_) => {},
            DecisionView::Construct(binding) => {
                lemma_construct_evolves(chain, below, binding, request.top, tape);
            },
        }
    }
}

/// A chain only evolves while a binding constructs its instance.
pub proof fn lemma_construct_evolves(
    chain: ChainView,
    index: nat,
    binding: BindingView,
    top: Seq<IdView>,
    tape: Seq<Outcome>,
)
    requires
        index < chain.layers.len(),
        chain.layers[index as int] == LayerView::Binding(binding),
    ensures
        chain.evolves_to(chain.construct(index, binding, top, tape).chain),
    decreases chain.remaining(), 0nat, 0nat,
{
    lemma_evolves_refl(chain);
    if chain.issued >= crate::model::SERIAL_LIMIT {
    } else {
        let started = ChainView { issued: chain.issued + 1, ..chain };
        assert(chain.evolves_to(started));
        let guarded = top.push(binding.service);
        lemma_resolve_all_evolves(started, binding.dependencies, guarded, tape);
        let resolved = started.resolve_all(binding.dependencies, guarded, tape);
        let ready = resolved.chain;
        lemma_evolves_trans(chain, started, ready);
        match resolved.result {
            Err(_) => {},
            Ok(handles) => {
                let kept = ready.memo_at(index as int);
                if binding.singleton && kept is Some {
                } else {
                    let outcome = tape[ready.journal.len() as int];
                    let ran = ChainView {
                        journal: ready.journal.push(
                            Event { binding: index, dependencies: handles, outcome },
                        ),
                        ..ready
                    };
                    assert(ready.evolves_to(ran));
                    lemma_evolves_trans(chain, ready, ran);
                    match outcome {
                        Err(_) => {},
                        Ok(instance) => {
                            if binding.singleton {
                                let handle = HandleView {
                                    serial: chain.issued,
                                    type_tag: binding.produces,
                                    instance,
                                };
                                let current = ran.layers[index as int];
                                assert(chain.layers[index as int].evolves_to(current));
                                let filled = LayerView::Binding(
                                    BindingView { memo: Some(handle), ..current->Binding_0 },
                                );
                                assert(current.evolves_to(filled));
                                lemma_with_layer_evolves(ran, index as int, filled);
                                lemma_evolves_trans(chain, ran, ran.remember(index as int, handle));
                            }
                        },
                    }
                }
            },
        }
    }
}

/// A chain only evolves while one service is resolved.
pub proof fn lemma_resolve_evolves(
    chain: ChainView,
    service: IdView,
    top: Seq<IdView>,
    tape: Seq<Outcome>,
)
    ensures
        chain.evolves_to(chain.resolve(service, top, tape).chain),
    decreases chain.remaining(), 0nat, chain.layers.len() + 1,
{
    lemma_instantiate_evolves(chain, chain.layers.len(), RequestView::initial(top, service), tape);
}

/// A chain only evolves while services are resolved one after the other.
pub proof fn lemma_resolve_all_evolves(
    chain: ChainView,
    services: Seq<IdView>,
    top: Seq<IdView>,
    tape: Seq<Outcome>,
)
    ensures
        chain.evolves_to(chain.resolve_all(services, top, tape).chain),
    decreases chain.remaining(), 1nat, services.len(),
{
    lemma_evolves_refl(chain);
    if services.len() > 0 {
        lemma_resolve_evolves(chain, services[0], top, tape);
        let first = chain.resolve(services[0], top, tape);
        match first.result {
            Err(_) => {},
            Ok(_) => {
                lemma_resolve_all_evolves(first.chain, services.skip(1), top, tape);
                lemma_evolves_trans(
                    chain,
                    first.chain,
                    first.chain.resolve_all(services.skip(1), top, tape).chain,
                );
            },
        }
    }
}

} // verus!
